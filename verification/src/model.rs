//! The mathematical model of a box.
//!
//! A box is stored as a sequence of rows in pre-order: the first row describes
//! the box itself, and every row carries the number of rows of the subtree it
//! starts (its `len`).  The rows after the first split into the consecutive row
//! ranges of the immediate children.
use crate::{BoxKind, Color};
use vstd::prelude::*;

verus! {

/// One row of a box.
pub struct Row {
    pub kind: BoxKind,
    pub color: Color,
    pub mult: nat,
    pub len: nat,
}

/// The rows form exactly one box.
pub open spec fn is_tree(s: Seq<Row>) -> bool
    decreases s.len(), 0int,
{
    s.len() >= 1 && s[0].len == s.len() && is_forest(s.drop_first())
}

/// The rows form a sequence of boxes, one after the other.
pub open spec fn is_forest(s: Seq<Row>) -> bool
    decreases s.len(), 1int,
{
    s.len() == 0 || (1 <= s[0].len <= s.len() && is_tree(s.take(s[0].len as int)) && is_forest(
        s.skip(s[0].len as int),
    ))
}

/// The boxes of a sequence of boxes.
pub open spec fn items(s: Seq<Row>) -> Seq<Seq<Row>>
    decreases s.len(),
{
    if s.len() == 0 || s[0].len < 1 || s[0].len > s.len() {
        Seq::empty()
    } else {
        seq![s.take(s[0].len as int)] + items(s.skip(s[0].len as int))
    }
}

/// The immediate children of a box.
pub open spec fn children(t: Seq<Row>) -> Seq<Seq<Row>> {
    items(t.drop_first())
}

/// The rows of boxes written one after the other.
pub open spec fn flatten(cs: Seq<Seq<Row>>) -> Seq<Row>
    decreases cs.len(),
{
    if cs.len() == 0 {
        Seq::empty()
    } else {
        flatten(cs.drop_last()) + cs.last()
    }
}

/// Every element is a box.
pub open spec fn all_trees(cs: Seq<Seq<Row>>) -> bool {
    forall|i: int| 0 <= i < cs.len() ==> is_tree(#[trigger] cs[i])
}

/// A row with the given fields and the given number of rows.
pub open spec fn row_with_len(r: Row, len: nat) -> Row {
    Row { kind: r.kind, color: r.color, mult: r.mult, len }
}

/// The box with the given first row whose children are the given boxes.
pub open spec fn mk_box(root: Row, cs: Seq<Seq<Row>>) -> Seq<Row> {
    seq![row_with_len(root, 1 + flatten(cs).len())] + flatten(cs)
}

pub proof fn lemma_flatten_prepend(x: Seq<Row>, cs: Seq<Seq<Row>>)
    ensures
        flatten(seq![x] + cs) == x + flatten(cs),
    decreases cs.len(),
{
    if cs.len() == 0 {
        assert(seq![x] + cs =~= seq![x]);
        assert((seq![x] + cs).drop_last() =~= Seq::<Seq<Row>>::empty());
        assert(seq![x].drop_last() =~= Seq::<Seq<Row>>::empty());
        assert(flatten(Seq::<Seq<Row>>::empty()) =~= Seq::<Row>::empty());
        assert(seq![x].last() == x);
        assert(flatten(seq![x]) =~= x);
    } else {
        assert((seq![x] + cs).drop_last() =~= seq![x] + cs.drop_last());
        lemma_flatten_prepend(x, cs.drop_last());
        assert(flatten(seq![x] + cs) =~= x + flatten(cs));
    }
}

pub proof fn lemma_flatten_push(cs: Seq<Seq<Row>>, x: Seq<Row>)
    ensures
        flatten(cs.push(x)) == flatten(cs) + x,
{
    assert(cs.push(x).drop_last() =~= cs);
}

pub proof fn lemma_flatten_append(a: Seq<Seq<Row>>, b: Seq<Seq<Row>>)
    ensures
        flatten(a + b) == flatten(a) + flatten(b),
    decreases b.len(),
{
    if b.len() == 0 {
        assert(a + b =~= a);
        assert(flatten(a) + flatten(b) =~= flatten(a));
    } else {
        assert((a + b).drop_last() =~= a + b.drop_last());
        lemma_flatten_append(a, b.drop_last());
        assert(flatten(a + b) =~= flatten(a) + flatten(b));
    }
}

pub proof fn lemma_tree_basics(t: Seq<Row>)
    requires
        is_tree(t),
    ensures
        t.len() >= 1,
        t[0].len == t.len(),
        is_forest(t.drop_first()),
{
}

/// A sequence of boxes is the concatenation of its items, and every item is a box.
pub proof fn lemma_forest_items(s: Seq<Row>)
    requires
        is_forest(s),
    ensures
        flatten(items(s)) == s,
        all_trees(items(s)),
    decreases s.len(),
{
    if s.len() == 0 {
        assert(items(s) =~= Seq::<Seq<Row>>::empty());
    } else {
        let k = s[0].len as int;
        let rest = s.skip(k);
        lemma_forest_items(rest);
        assert(items(s) == seq![s.take(k)] + items(rest));
        lemma_flatten_prepend(s.take(k), items(rest));
        assert(s.take(k) + rest =~= s);
        assert forall|i: int| 0 <= i < items(s).len() implies is_tree(#[trigger] items(s)[i]) by {
            if i > 0 {
                assert(items(s)[i] == items(rest)[i - 1]);
            }
        }
    }
}

/// Boxes written one after the other form a sequence of boxes whose items are those boxes.
pub proof fn lemma_flatten_trees(cs: Seq<Seq<Row>>)
    requires
        all_trees(cs),
    ensures
        is_forest(flatten(cs)),
        items(flatten(cs)) == cs,
    decreases cs.len(),
{
    if cs.len() == 0 {
        assert(items(flatten(cs)) =~= cs);
    } else {
        let x = cs[0];
        let rest = cs.drop_first();
        assert(seq![x] + rest =~= cs);
        lemma_flatten_prepend(x, rest);
        assert forall|i: int| 0 <= i < rest.len() implies is_tree(#[trigger] rest[i]) by {
            assert(rest[i] == cs[i + 1]);
        }
        lemma_flatten_trees(rest);
        let s = flatten(cs);
        assert(is_tree(cs[0]));
        assert(s == x + flatten(rest));
        assert(s[0] == x[0]);
        assert(s.take(x.len() as int) =~= x);
        assert(s.skip(x.len() as int) =~= flatten(rest));
        assert(items(s) =~= seq![x] + items(flatten(rest)));
    }
}

/// Building a box from a first row and boxes gives a box with those children.
pub proof fn lemma_mk_box(root: Row, cs: Seq<Seq<Row>>)
    requires
        all_trees(cs),
    ensures
        is_tree(mk_box(root, cs)),
        children(mk_box(root, cs)) == cs,
        mk_box(root, cs)[0] == row_with_len(root, 1 + flatten(cs).len()),
        mk_box(root, cs).len() == 1 + flatten(cs).len(),
{
    lemma_flatten_trees(cs);
    let t = mk_box(root, cs);
    assert(t.drop_first() =~= flatten(cs));
}

/// A box is its first row followed by its children.
pub proof fn lemma_tree_split(t: Seq<Row>)
    requires
        is_tree(t),
    ensures
        all_trees(children(t)),
        t == mk_box(t[0], children(t)),
        flatten(children(t)) == t.drop_first(),
{
    lemma_forest_items(t.drop_first());
    let m = mk_box(t[0], children(t));
    assert(row_with_len(t[0], 1 + flatten(children(t)).len()) == t[0]);
    assert(m =~= t);
}

/// The rows have the same lengths, one by one.
pub open spec fn same_lens(s: Seq<Row>, t: Seq<Row>) -> bool {
    s.len() == t.len() && forall|i: int| 0 <= i < s.len() ==> #[trigger] s[i].len == t[i].len
}

/// Whether rows form a box depends on their lengths alone.
pub proof fn lemma_same_lens_tree(s: Seq<Row>, t: Seq<Row>)
    requires
        same_lens(s, t),
    ensures
        is_tree(s) == is_tree(t),
    decreases s.len(), 0int,
{
    if s.len() >= 1 {
        assert(same_lens(s.drop_first(), t.drop_first())) by {
            assert forall|i: int| 0 <= i < s.len() - 1 implies #[trigger] s.drop_first()[i].len == t.drop_first()[i].len by {
                assert(s[i + 1].len == t[i + 1].len);
            }
        }
        lemma_same_lens_forest(s.drop_first(), t.drop_first());
        assert(s[0].len == t[0].len);
    }
}

/// Whether rows form a sequence of boxes depends on their lengths alone.
pub proof fn lemma_same_lens_forest(s: Seq<Row>, t: Seq<Row>)
    requires
        same_lens(s, t),
    ensures
        is_forest(s) == is_forest(t),
    decreases s.len(), 1int,
{
    if s.len() > 0 {
        let k = s[0].len as int;
        assert(s[0].len == t[0].len);
        if 1 <= k <= s.len() {
            assert(same_lens(s.take(k), t.take(k))) by {
                assert forall|i: int| 0 <= i < k implies #[trigger] s.take(k)[i].len == t.take(k)[i].len by {
                    assert(s[i].len == t[i].len);
                }
            }
            assert(same_lens(s.skip(k), t.skip(k))) by {
                assert forall|i: int| 0 <= i < s.len() - k implies #[trigger] s.skip(k)[i].len == t.skip(k)[i].len by {
                    assert(s[i + k].len == t[i + k].len);
                }
            }
            lemma_same_lens_tree(s.take(k), t.take(k));
            lemma_same_lens_forest(s.skip(k), t.skip(k));
        }
    }
}

/// The depth of a sequence of boxes: the largest number of nested rows, or zero.
pub open spec fn forest_depth(s: Seq<Row>) -> nat
    decreases s.len(),
{
    if s.len() == 0 {
        0
    } else {
        let k = s[0].len as int;
        if k < 1 || k > s.len() {
            0
        } else {
            let inner = 1 + forest_depth(s.subrange(1, k));
            let rest = forest_depth(s.subrange(k, s.len() as int));
            if inner >= rest {
                inner
            } else {
                rest
            }
        }
    }
}

/// A sequence of boxes is no deeper than it is long.
pub proof fn lemma_forest_depth_len(s: Seq<Row>)
    ensures
        forest_depth(s) <= s.len(),
    decreases s.len(),
{
    if s.len() > 0 {
        let k = s[0].len as int;
        if 1 <= k <= s.len() {
            lemma_forest_depth_len(s.subrange(1, k));
            lemma_forest_depth_len(s.subrange(k, s.len() as int));
        }
    }
}

} // verus!
