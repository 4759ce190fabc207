# box_core

A calculator over *boxes*: nested, colored containers with multiplicities.
Black boxes count positively and red (anti-)boxes negatively; an empty box is
zero, a box of empty boxes a number, a box of numbers a polynumber (a
polynomial in α), a box of polynumbers a multinumber, and unixels, pixels,
vexels, maxels, sets and lists are further kinds of boxes.

The library (`src/`) is written in Verus and verified:

- `model`: a box as a sequence of rows in pre-order (kind, color,
  multiplicity, subtree length); `is_tree`, `children`, `flatten`.
- `value`, `variant`: the row-vector representation and the runtime kind.
- `add`, `sub`, `mul`, `div`, `caret`, `derivative`, `maxel`, `set`:
  the operations, each specified over the row model.
- `canon`, `order`, `sort`, `compare`: canonical children and their order.
- `lexer`, `parser`, `eval`: text to tokens to expressions to boxes.
- `display`: text of a box, bracketed or as sums of powers.
- `store`: boxes bound to names (over `rapidhash` maps); `tree`: boxes as
  trees of nodes; `natural`: multiplicities (over `malachite`).
- `laws`: algebraic laws stated and proved over the model.

`app/` holds the browser front end (`wasm-bindgen`) and the serde forms of
trees; `tests/` holds the tests.
