//! The text of a box.
//!
//! A box is written either with brackets, every empty box as `□` and every
//! other box between its brackets (`Boxed`), or with numbers, polynumbers and
//! multinumbers written as sums of powers of the variables named in the store
//! (`Mixed`).  In the alternate form, a multiplicity above one is written once,
//! as a subscript, instead of repeating the box.  Red parts are written inside
//! `<red>…</red>` (`Markup`) or in the terminal's red (`Terminal`).
//!
//! The text is first laid out as pieces, each red or not; the color mode only
//! decides how red pieces are written.
use crate::canon::{all_inv, child_boxes, views};
use crate::model::{all_trees, children, is_tree, items, lemma_tree_split, Row};
use crate::natural::{decimal, Natural};
use crate::store::{stored_names, BoxStore};
use crate::value::BoxValue;
use crate::variant::BoxVariant;
use crate::{AnyBox, BoxKind, Color};
use colored::Colorize;
use vstd::prelude::*;

verus! {

/// How red parts of the text are written.
#[derive(Debug, Clone, Copy, PartialEq, Eq, Structural)]
pub enum ColorMode {
    Markup,
    Terminal,
}

impl Default for ColorMode {
    fn default() -> (r: Self)
        ensures
            r == ColorMode::Markup,
    {
        ColorMode::Markup
    }
}

/// How boxes are written.
#[derive(Debug, Clone, Copy, PartialEq, Eq, Structural)]
pub enum OutputFormat {
    Mixed,
    Boxed,
}

impl Default for OutputFormat {
    fn default() -> (r: Self)
        ensures
            r == OutputFormat::Mixed,
    {
        OutputFormat::Mixed
    }
}

/// No text.
pub open spec fn nothing() -> Seq<(Seq<char>, bool)> {
    Seq::empty()
}

/// A piece of text, red or not.
pub open spec fn tinted(s: Seq<char>, red: bool) -> Seq<(Seq<char>, bool)> {
    seq![(s, red)]
}

/// A piece of text that is not red.
pub open spec fn plain(s: Seq<char>) -> Seq<(Seq<char>, bool)> {
    tinted(s, false)
}

/// The opening bracket of a box of the kind.
pub open spec fn open_bracket(k: BoxKind) -> Seq<char> {
    if k == BoxKind::Unixel || k == BoxKind::Pixel || k == BoxKind::List {
        seq!['⌈']
    } else if k == BoxKind::SetBox {
        seq!['{']
    } else {
        seq!['⌊']
    }
}

/// The closing bracket of a box of the kind.
pub open spec fn close_bracket(k: BoxKind) -> Seq<char> {
    if k == BoxKind::Unixel || k == BoxKind::Pixel || k == BoxKind::List {
        seq!['⌉']
    } else if k == BoxKind::SetBox {
        seq!['}']
    } else {
        seq!['⌋']
    }
}

/// The subscript form of a decimal digit; other characters are kept.
pub open spec fn subscript_digit(c: char) -> char {
    if c == '0' {
        '₀'
    } else if c == '1' {
        '₁'
    } else if c == '2' {
        '₂'
    } else if c == '3' {
        '₃'
    } else if c == '4' {
        '₄'
    } else if c == '5' {
        '₅'
    } else if c == '6' {
        '₆'
    } else if c == '7' {
        '₇'
    } else if c == '8' {
        '₈'
    } else if c == '9' {
        '₉'
    } else {
        c
    }
}

/// A number written in subscript digits.
pub open spec fn subscript(n: nat) -> Seq<char> {
    decimal(n).map_values(|c: char| subscript_digit(c))
}

/// The pieces written `m` times, separated by commas.
pub open spec fn repeated(p: Seq<(Seq<char>, bool)>, m: nat) -> Seq<(Seq<char>, bool)>
    decreases m,
{
    if m == 0 {
        nothing()
    } else if m == 1 {
        p
    } else {
        repeated(p, (m - 1) as nat) + plain(seq![',']) + p
    }
}

/// The pieces written once per unit of the multiplicity; nothing when it does not fit in a
/// `usize`.
pub open spec fn counted(p: Seq<(Seq<char>, bool)>, m: nat) -> Seq<(Seq<char>, bool)> {
    if m <= usize::MAX {
        repeated(p, m)
    } else {
        nothing()
    }
}

/// The multiplicity as a subscript, when it is above one.
pub open spec fn mult_prefix(m: nat) -> Seq<(Seq<char>, bool)> {
    if m > 1 {
        plain(subscript(m))
    } else {
        nothing()
    }
}

/// A comma before every item but the first.
pub open spec fn separator(i: int) -> Seq<(Seq<char>, bool)> {
    if i > 0 {
        plain(seq![','])
    } else {
        nothing()
    }
}

/// Every box of a sequence of boxes has at most as many rows as the sequence.
pub proof fn lemma_items_shorter(s: Seq<Row>, i: int)
    requires
        0 <= i < items(s).len(),
    ensures
        items(s)[i].len() <= s.len(),
    decreases s.len(),
{
    if !(s.len() == 0 || s[0].len < 1 || s[0].len > s.len()) {
        let k = s[0].len as int;
        assert(items(s) == seq![s.take(k)] + items(s.skip(k)));
        if i > 0 {
            lemma_items_shorter(s.skip(k), i - 1);
        }
    }
}

/// The bracketed text of a box.
pub open spec fn boxed_text(t: Seq<Row>, alt: bool) -> Seq<(Seq<char>, bool)>
    decreases t.len(), children(t).len() + 1,
{
    if t.len() == 0 {
        nothing()
    } else {
        let red = t[0].color == Color::Red;
        tinted(open_bracket(t[0].kind), red) + boxed_items(t, 0, alt) + tinted(close_bracket(t[0].kind), red)
    }
}

/// The bracketed text of the children of a box from the `i`-th on.
pub open spec fn boxed_items(t: Seq<Row>, i: int, alt: bool) -> Seq<(Seq<char>, bool)>
    decreases t.len(), children(t).len() - i,
{
    if t.len() == 0 || i < 0 || i >= children(t).len() {
        nothing()
    } else {
        proof {
            lemma_items_shorter(t.drop_first(), i);
        }
        separator(i) + boxed_child(children(t)[i], alt) + boxed_items(t, i + 1, alt)
    }
}

/// The bracketed text of a child: an empty box as `□`, with its multiplicity written as a
/// subscript or by repeating it.
pub open spec fn boxed_child(c: Seq<Row>, alt: bool) -> Seq<(Seq<char>, bool)>
    decreases c.len(), children(c).len() + 2,
{
    if c.len() == 0 {
        nothing()
    } else {
        let m = c[0].mult;
        let inner = if c[0].len > 1 {
            boxed_text(c, alt)
        } else {
            tinted(seq!['□'], c[0].color == Color::Red)
        };
        if alt {
            mult_prefix(m) + inner
        } else {
            counted(inner, m)
        }
    }
}

/// The sign before a term: a minus for a red term, a plus between terms.
pub open spec fn sign(color: Color, first: bool) -> Seq<char> {
    if first {
        if color == Color::Red {
            seq!['-']
        } else {
            seq![]
        }
    } else if color == Color::Red {
        seq![' ', '-', ' ']
    } else {
        seq![' ', '+', ' ']
    }
}

/// The coefficient and the name of a term: the coefficient only when above one.
pub open spec fn scaled(m: nat, name: Seq<char>) -> Seq<char> {
    if m > 1 {
        decimal(m) + seq!['*'] + name
    } else {
        name
    }
}

/// The exponent of a term, when above one.
pub open spec fn exponent(e: nat) -> Seq<char> {
    if e > 1 {
        seq!['^'] + decimal(e)
    } else {
        seq![]
    }
}

/// A power of the variable named `name`: its coefficient, name and exponent.
pub open spec fn alpha_term(c: Seq<Row>, name: Seq<char>, first: bool) -> Seq<char> {
    sign(c[0].color, first) + scaled(c[0].mult, name) + exponent(c[1].mult)
}

/// A power of the indexed variable named `name`: coefficient, name, index and exponent.
pub open spec fn beta_term(c: Seq<Row>, name: Seq<char>, first: bool) -> Seq<char> {
    sign(c[0].color, first) + scaled(c[0].mult, name) + subscript(c[2].mult) + exponent(c[1].mult)
}

/// A constant term.
pub open spec fn num_term(c: Seq<Row>, first: bool) -> Seq<char> {
    sign(c[0].color, first) + decimal(c[0].mult)
}

/// The text of a box in the mixed format, with the names of the variables, if any.
pub open spec fn mixed_text(t: Seq<Row>, alt: bool, an: Option<Seq<char>>, bn: Option<Seq<char>>) -> Seq<
    (Seq<char>, bool),
>
    decreases t.len(), children(t).len() + 1,
{
    if t.len() == 0 {
        nothing()
    } else {
        let k = t[0].kind;
        let red = t[0].color == Color::Red;
        if k == BoxKind::Empty {
            tinted(seq!['0'], red)
        } else if k == BoxKind::Num {
            (if t[1].color == Color::Red {
                plain(seq!['-'])
            } else {
                nothing()
            }) + tinted(decimal(t[1].mult), red)
        } else if k == BoxKind::Polynum || k == BoxKind::Multinum {
            mixed_terms(t, 0, an, bn)
        } else {
            tinted(open_bracket(k), red) + mixed_items(t, 0, alt, an, bn) + tinted(close_bracket(k), red)
        }
    }
}

/// The terms of a polynumber or multinumber from the `i`-th child on.  Powers of a named
/// variable are written with its name; without a name they are written with brackets.
pub open spec fn mixed_terms(t: Seq<Row>, i: int, an: Option<Seq<char>>, bn: Option<Seq<char>>) -> Seq<
    (Seq<char>, bool),
>
    decreases t.len(), children(t).len() - i,
{
    if t.len() == 0 || i < 0 || i >= children(t).len() {
        nothing()
    } else {
        proof {
            lemma_items_shorter(t.drop_first(), i);
        }
        let c = children(t)[i];
        let multi = t[0].kind == BoxKind::Multinum;
        let term = if multi && c[0].kind == BoxKind::Polynum {
            match bn {
                Some(name) => plain(beta_term(c, name, i == 0)),
                None => boxed_text(c, true),
            }
        } else if c[0].kind == BoxKind::Num {
            match an {
                Some(name) => plain(alpha_term(c, name, i == 0)),
                None => boxed_text(c, true),
            }
        } else {
            plain(num_term(c, i == 0))
        };
        term + mixed_terms(t, i + 1, an, bn)
    }
}

/// The mixed text of the children of a box from the `i`-th on.
pub open spec fn mixed_items(t: Seq<Row>, i: int, alt: bool, an: Option<Seq<char>>, bn: Option<Seq<char>>) -> Seq<
    (Seq<char>, bool),
>
    decreases t.len(), children(t).len() - i,
{
    if t.len() == 0 || i < 0 || i >= children(t).len() {
        nothing()
    } else {
        proof {
            lemma_items_shorter(t.drop_first(), i);
        }
        let c = children(t)[i];
        let inner = mixed_text(c, alt, an, bn);
        separator(i) + (if alt {
            mult_prefix(c[0].mult) + inner
        } else {
            counted(inner, c[0].mult)
        }) + mixed_items(t, i + 1, alt, an, bn)
    }
}

/// The mixed text can be written: every number box has a row for its value, and every
/// power of a named variable has the rows that its term reads.
pub open spec fn mixed_ok(t: Seq<Row>, an: Option<Seq<char>>, bn: Option<Seq<char>>) -> bool
    decreases t.len(), children(t).len() + 1,
{
    if t.len() == 0 {
        true
    } else {
        let k = t[0].kind;
        if k == BoxKind::Empty {
            true
        } else if k == BoxKind::Num {
            t.len() >= 2
        } else if k == BoxKind::Polynum || k == BoxKind::Multinum {
            terms_ok(t, 0, an, bn)
        } else {
            items_ok(t, 0, an, bn)
        }
    }
}

/// The terms from the `i`-th child on have the rows that they read.
pub open spec fn terms_ok(t: Seq<Row>, i: int, an: Option<Seq<char>>, bn: Option<Seq<char>>) -> bool
    decreases t.len(), children(t).len() - i,
{
    if t.len() == 0 || i < 0 || i >= children(t).len() {
        true
    } else {
        let c = children(t)[i];
        let multi = t[0].kind == BoxKind::Multinum;
        (if multi && c[0].kind == BoxKind::Polynum {
            bn is Some ==> c.len() >= 3
        } else if c[0].kind == BoxKind::Num {
            an is Some ==> c.len() >= 2
        } else {
            true
        }) && terms_ok(t, i + 1, an, bn)
    }
}

/// The children from the `i`-th on can be written.
pub open spec fn items_ok(t: Seq<Row>, i: int, an: Option<Seq<char>>, bn: Option<Seq<char>>) -> bool
    decreases t.len(), children(t).len() - i,
{
    if t.len() == 0 || i < 0 || i >= children(t).len() {
        true
    } else {
        proof {
            lemma_items_shorter(t.drop_first(), i);
        }
        mixed_ok(children(t)[i], an, bn) && items_ok(t, i + 1, an, bn)
    }
}

/// The pieces of a vector of pieces.
pub open spec fn pieces_view(v: Seq<(Vec<char>, bool)>) -> Seq<(Seq<char>, bool)> {
    Seq::new(v.len(), |i: int| (v[i].0@, v[i].1))
}

fn push_piece(out: &mut Vec<(Vec<char>, bool)>, text: Vec<char>, red: bool)
    ensures
        pieces_view(final(out)@) == pieces_view(old(out)@) + tinted(text@, red),
{
    let ghost before = out@;
    out.push((text, red));
    proof {
        assert(pieces_view(out@) =~= pieces_view(before) + tinted(text@, red));
    }
}

fn one_char(c: char) -> (r: Vec<char>)
    ensures
        r@ == seq![c],
{
    let mut r: Vec<char> = Vec::new();
    r.push(c);
    proof {
        assert(r@ =~= seq![c]);
    }
    r
}

fn append_chars(a: &mut Vec<char>, b: &Vec<char>)
    ensures
        final(a)@ == old(a)@ + b@,
{
    let mut i: usize = 0;
    let ghost start = a@;
    while i < b.len()
        invariant
            0 <= i <= b@.len(),
            a@ == start + b@.take(i as int),
        decreases b.len() - i,
    {
        a.push(b[i]);
        proof {
            assert(b@.take(i + 1) =~= b@.take(i as int).push(b@[i as int]));
            assert(a@ =~= start + b@.take(i + 1));
        }
        i = i + 1;
    }
    proof {
        assert(b@.take(i as int) =~= b@);
    }
}

fn copy_chars(b: &Vec<char>) -> (r: Vec<char>)
    ensures
        r@ == b@,
{
    let mut r: Vec<char> = Vec::new();
    append_chars(&mut r, b);
    proof {
        assert(Seq::<char>::empty() + b@ =~= b@);
    }
    r
}

fn append_pieces(out: &mut Vec<(Vec<char>, bool)>, src: &Vec<(Vec<char>, bool)>)
    ensures
        pieces_view(final(out)@) == pieces_view(old(out)@) + pieces_view(src@),
{
    let ghost start = pieces_view(out@);
    let mut i: usize = 0;
    while i < src.len()
        invariant
            0 <= i <= src@.len(),
            pieces_view(out@) == start + pieces_view(src@).take(i as int),
        decreases src.len() - i,
    {
        let text = copy_chars(&src[i].0);
        push_piece(out, text, src[i].1);
        proof {
            assert(pieces_view(src@).take(i + 1) =~= pieces_view(src@).take(i as int) + tinted(
                src@[i as int].0@,
                src@[i as int].1,
            ));
        }
        i = i + 1;
    }
    proof {
        assert(pieces_view(src@).take(i as int) =~= pieces_view(src@));
    }
}

fn bracket(kind: BoxKind, open: bool) -> (r: Vec<char>)
    ensures
        open ==> r@ == open_bracket(kind),
        !open ==> r@ == close_bracket(kind),
{
    if kind == BoxKind::Unixel || kind == BoxKind::Pixel || kind == BoxKind::List {
        one_char(if open { '⌈' } else { '⌉' })
    } else if kind == BoxKind::SetBox {
        one_char(if open { '{' } else { '}' })
    } else {
        one_char(if open { '⌊' } else { '⌋' })
    }
}

fn subscript_digit_exec(c: char) -> (r: char)
    ensures
        r == subscript_digit(c),
{
    if c == '0' {
        '₀'
    } else if c == '1' {
        '₁'
    } else if c == '2' {
        '₂'
    } else if c == '3' {
        '₃'
    } else if c == '4' {
        '₄'
    } else if c == '5' {
        '₅'
    } else if c == '6' {
        '₆'
    } else if c == '7' {
        '₇'
    } else if c == '8' {
        '₈'
    } else if c == '9' {
        '₉'
    } else {
        c
    }
}

/// A number written in subscript digits.
pub fn to_subscript(num: &Natural) -> (r: Vec<char>)
    ensures
        r@ == subscript(num@),
{
    let d = num.to_decimal();
    let mut r: Vec<char> = Vec::new();
    let mut i: usize = 0;
    while i < d.len()
        invariant
            0 <= i <= d@.len(),
            d@ == decimal(num@),
            r@ == d@.take(i as int).map_values(|c: char| subscript_digit(c)),
        decreases d.len() - i,
    {
        r.push(subscript_digit_exec(d[i]));
        proof {
            assert(d@.take(i + 1).map_values(|c: char| subscript_digit(c)) =~= d@.take(i as int).map_values(
                |c: char| subscript_digit(c),
            ).push(subscript_digit(d@[i as int])));
        }
        i = i + 1;
    }
    proof {
        assert(d@.take(i as int) =~= d@);
    }
    r
}

/// Writes the pieces `m` times, separated by commas; nothing when `m` does not fit in a
/// `usize`.
fn push_counted(out: &mut Vec<(Vec<char>, bool)>, inner: &Vec<(Vec<char>, bool)>, m: &Natural)
    ensures
        pieces_view(final(out)@) == pieces_view(old(out)@) + counted(pieces_view(inner@), m@),
{
    let ghost start = pieces_view(out@);
    let ghost p = pieces_view(inner@);
    match m.to_usize() {
        None => {
            proof {
                assert(start + nothing() =~= start);
            }
        },
        Some(k) => {
            let mut j: usize = 0;
            proof {
                assert(start + nothing() =~= start);
            }
            while j < k
                invariant
                    0 <= j <= k,
                    k as nat == m@,
                    p == pieces_view(inner@),
                    pieces_view(out@) == start + repeated(p, j as nat),
                decreases k - j,
            {
                if j > 0 {
                    push_piece(out, one_char(','), false);
                }
                append_pieces(out, inner);
                proof {
                    if j == 0 {
                        assert(repeated(p, 1) == p);
                        assert(start + nothing() + p =~= start + p);
                    } else {
                        assert(repeated(p, (j + 1) as nat) == repeated(p, j as nat) + plain(seq![',']) + p);
                        assert(start + repeated(p, j as nat) + plain(seq![',']) + p =~= start + (repeated(
                            p,
                            j as nat,
                        ) + plain(seq![',']) + p));
                    }
                }
                j = j + 1;
            }
        },
    }
}

/// Lays out the bracketed text of a box.
fn boxed_exec(t: &BoxValue<AnyBox>, alt: bool, out: &mut Vec<(Vec<char>, bool)>)
    requires
        t.wf(),
    ensures
        pieces_view(final(out)@) == pieces_view(old(out)@) + boxed_text(t@, alt),
    decreases t@.len(), children(t@).len() + 1,
{
    let ghost start = pieces_view(out@);
    proof {
        lemma_tree_split(t@);
    }
    let kind = t.get_kind(0);
    let red = t.get_color(0) == Color::Red;
    push_piece(out, bracket(kind, true), red);
    let cs = child_boxes(t);
    let mut i: usize = 0;
    let ghost head = start + tinted(open_bracket(kind), red);
    while i < cs.len()
        invariant
            0 <= i <= cs@.len(),
            t.wf(),
            views(cs@) == children(t@),
            all_inv(cs@),
            all_trees(children(t@)),
            pieces_view(out@) + boxed_items(t@, i as int, alt) == head + boxed_items(t@, 0, alt),
        decreases cs.len() - i,
    {
        proof {
            assert(views(cs@)[i as int] == cs@[i as int]@);
            assert(cs@[i as int].inv());
            assert(is_tree(children(t@)[i as int]));
            lemma_items_shorter(t@.drop_first(), i as int);
        }
        let ghost before = pieces_view(out@);
        if i > 0 {
            push_piece(out, one_char(','), false);
        }
        boxed_child_exec(&cs[i], alt, out);
        proof {
            assert(before + separator(i as int) + boxed_child(children(t@)[i as int], alt) == pieces_view(out@)) by {
                if i == 0 {
                    assert(before + nothing() =~= before);
                }
            }
            assert(pieces_view(out@) + boxed_items(t@, i + 1, alt) =~= before + boxed_items(t@, i as int, alt));
        }
        i = i + 1;
    }
    push_piece(out, bracket(kind, false), red);
    proof {
        assert(boxed_items(t@, i as int, alt) == nothing());
    }
}

/// Lays out the bracketed text of a child.
fn boxed_child_exec(c: &BoxValue<AnyBox>, alt: bool, out: &mut Vec<(Vec<char>, bool)>)
    requires
        c.wf(),
    ensures
        pieces_view(final(out)@) == pieces_view(old(out)@) + boxed_child(c@, alt),
    decreases c@.len(), children(c@).len() + 2,
{
    let ghost start = pieces_view(out@);
    proof {
        crate::model::lemma_tree_basics(c@);
    }
    let m = c.get_multiplicity(0);
    let len = c.get_length(0);
    let mut inner: Vec<(Vec<char>, bool)> = Vec::new();
    proof {
        assert(pieces_view(inner@) =~= nothing());
    }
    if len > 1 {
        boxed_exec(c, alt, &mut inner);
    } else {
        push_piece(&mut inner, one_char('□'), c.get_color(0) == Color::Red);
    }
    proof {
        assert(pieces_view(inner@) =~= (if c@[0].len > 1 {
            boxed_text(c@, alt)
        } else {
            tinted(seq!['□'], c@[0].color == Color::Red)
        }));
    }
    if alt {
        if Natural::one().lt(&m) {
            push_piece(out, to_subscript(&m), false);
        }
        append_pieces(out, &inner);
        proof {
            if m@ <= 1 {
                assert(start + nothing() =~= start);
            }
            assert(start + mult_prefix(m@) + pieces_view(inner@) =~= start + (mult_prefix(m@) + pieces_view(
                inner@,
            )));
        }
    } else {
        push_counted(out, &inner, &m);
    }
}

/// The name held by an optional vector of characters.
pub open spec fn name_view(n: &Option<Vec<char>>) -> Option<Seq<char>> {
    match n {
        Some(v) => Some(v@),
        None => None,
    }
}

fn sign_exec(color: Color, first: bool) -> (r: Vec<char>)
    ensures
        r@ == sign(color, first),
{
    let mut r: Vec<char> = Vec::new();
    if first {
        if color == Color::Red {
            r.push('-');
        }
    } else {
        r.push(' ');
        r.push(if color == Color::Red { '-' } else { '+' });
        r.push(' ');
    }
    proof {
        assert(r@ =~= sign(color, first));
    }
    r
}

/// Appends the coefficient and the name of a term.
fn push_scaled(r: &mut Vec<char>, m: &Natural, name: &Vec<char>)
    ensures
        final(r)@ == old(r)@ + scaled(m@, name@),
{
    if Natural::one().lt(m) {
        let d = m.to_decimal();
        append_chars(r, &d);
        r.push('*');
        let ghost mid = r@;
        append_chars(r, name);
        proof {
            assert(r@ =~= old(r)@ + scaled(m@, name@));
        }
    } else {
        append_chars(r, name);
    }
}

/// Appends the exponent of a term.
fn push_exponent(r: &mut Vec<char>, e: &Natural)
    ensures
        final(r)@ == old(r)@ + exponent(e@),
{
    if Natural::one().lt(e) {
        r.push('^');
        let ghost mid = r@;
        let d = e.to_decimal();
        append_chars(r, &d);
        proof {
            assert(r@ =~= old(r)@ + exponent(e@));
        }
    } else {
        proof {
            assert(old(r)@ + exponent(e@) =~= old(r)@);
        }
    }
}

fn term_exec(c: &BoxValue<AnyBox>, name: &Vec<char>, first: bool, indexed: bool) -> (r: Vec<char>)
    requires
        c.inv(),
        c@.len() >= 2,
        indexed ==> c@.len() >= 3,
    ensures
        !indexed ==> r@ == alpha_term(c@, name@, first),
        indexed ==> r@ == beta_term(c@, name@, first),
{
    let mut r = sign_exec(c.get_color(0), first);
    let m = c.get_multiplicity(0);
    push_scaled(&mut r, &m, name);
    if indexed {
        let idx = to_subscript(&c.get_multiplicity(2));
        append_chars(&mut r, &idx);
    }
    let e = c.get_multiplicity(1);
    push_exponent(&mut r, &e);
    proof {
        assert(r@ =~= (if indexed {
            beta_term(c@, name@, first)
        } else {
            alpha_term(c@, name@, first)
        }));
    }
    r
}

fn num_term_exec(c: &BoxValue<AnyBox>, first: bool) -> (r: Vec<char>)
    requires
        c.inv(),
        c@.len() >= 1,
    ensures
        r@ == num_term(c@, first),
{
    let mut r = sign_exec(c.get_color(0), first);
    let d = c.get_multiplicity(0).to_decimal();
    append_chars(&mut r, &d);
    r
}

/// Lays out the mixed text of a box.
fn mixed_exec(
    t: &BoxValue<AnyBox>,
    alt: bool,
    an: &Option<Vec<char>>,
    bn: &Option<Vec<char>>,
    out: &mut Vec<(Vec<char>, bool)>,
)
    requires
        t.wf(),
        mixed_ok(t@, name_view(an), name_view(bn)),
    ensures
        pieces_view(final(out)@) == pieces_view(old(out)@) + mixed_text(t@, alt, name_view(an), name_view(bn)),
    decreases t@.len(), children(t@).len() + 1,
{
    let ghost a = name_view(an);
    let ghost b = name_view(bn);
    let ghost start = pieces_view(out@);
    proof {
        lemma_tree_split(t@);
    }
    let kind = t.get_kind(0);
    let red = t.get_color(0) == Color::Red;
    if kind == BoxKind::Empty {
        push_piece(out, one_char('0'), red);
        return ;
    }
    if kind == BoxKind::Num {
        if t.get_color(1) == Color::Red {
            push_piece(out, one_char('-'), false);
        }
        push_piece(out, t.get_multiplicity(1).to_decimal(), red);
        proof {
            if t@[1].color != Color::Red {
                assert(start + nothing() =~= start);
            }
            assert(pieces_view(out@) =~= start + mixed_text(t@, alt, a, b));
        }
        return ;
    }
    if kind == BoxKind::Polynum || kind == BoxKind::Multinum {
        push_terms(t, an, bn, out);
        return ;
    }
    push_piece(out, bracket(kind, true), red);
    let ghost mid = pieces_view(out@);
    push_items(t, alt, an, bn, out);
    push_piece(out, bracket(kind, false), red);
    proof {
        assert(pieces_view(out@) =~= start + mixed_text(t@, alt, a, b));
    }
}

/// Lays out the terms of a polynumber or a multinumber.
fn push_terms(t: &BoxValue<AnyBox>, an: &Option<Vec<char>>, bn: &Option<Vec<char>>, out: &mut Vec<(Vec<char>, bool)>)
    requires
        t.wf(),
        terms_ok(t@, 0, name_view(an), name_view(bn)),
    ensures
        pieces_view(final(out)@) == pieces_view(old(out)@) + mixed_terms(t@, 0, name_view(an), name_view(bn)),
{
    let ghost a = name_view(an);
    let ghost b = name_view(bn);
    let ghost start = pieces_view(out@);
    proof {
        lemma_tree_split(t@);
        crate::model::lemma_tree_basics(t@);
    }
    let multi = t.get_kind(0) == BoxKind::Multinum;
    let cs = child_boxes(t);
    let mut i: usize = 0;
    while i < cs.len()
        invariant
            0 <= i <= cs@.len(),
            t.wf(),
            multi == (t@[0].kind == BoxKind::Multinum),
            a == name_view(an),
            b == name_view(bn),
            views(cs@) == children(t@),
            all_inv(cs@),
            all_trees(children(t@)),
            terms_ok(t@, i as int, a, b),
            pieces_view(out@) + mixed_terms(t@, i as int, a, b) == start + mixed_terms(t@, 0, a, b),
        decreases cs.len() - i,
    {
        proof {
            assert(views(cs@)[i as int] == cs@[i as int]@);
            assert(cs@[i as int].inv());
            assert(is_tree(children(t@)[i as int]));
            crate::model::lemma_tree_basics(children(t@)[i as int]);
        }
        let ghost before = pieces_view(out@);
        let c = &cs[i];
        let ck = c.get_kind(0);
        if multi && ck == BoxKind::Polynum {
            match bn {
                Some(name) => push_piece(out, term_exec(c, name, i == 0, true), false),
                None => boxed_exec(c, true, out),
            }
        } else if ck == BoxKind::Num {
            match an {
                Some(name) => push_piece(out, term_exec(c, name, i == 0, false), false),
                None => boxed_exec(c, true, out),
            }
        } else {
            push_piece(out, num_term_exec(c, i == 0), false);
        }
        proof {
            assert(pieces_view(out@) + mixed_terms(t@, i + 1, a, b) =~= before + mixed_terms(t@, i as int, a, b));
        }
        i = i + 1;
    }
    proof {
        assert(mixed_terms(t@, i as int, a, b) == nothing());
        assert(pieces_view(out@) + nothing() =~= pieces_view(out@));
    }
}

/// Lays out the children of a box between its brackets.
fn push_items(
    t: &BoxValue<AnyBox>,
    alt: bool,
    an: &Option<Vec<char>>,
    bn: &Option<Vec<char>>,
    out: &mut Vec<(Vec<char>, bool)>,
)
    requires
        t.wf(),
        items_ok(t@, 0, name_view(an), name_view(bn)),
    ensures
        pieces_view(final(out)@) == pieces_view(old(out)@) + mixed_items(t@, 0, alt, name_view(an), name_view(bn)),
    decreases t@.len(), children(t@).len(),
{
    let ghost a = name_view(an);
    let ghost b = name_view(bn);
    let ghost start = pieces_view(out@);
    proof {
        lemma_tree_split(t@);
    }
    let cs = child_boxes(t);
    let mut i: usize = 0;
    while i < cs.len()
        invariant
            0 <= i <= cs@.len(),
            t.wf(),
            a == name_view(an),
            b == name_view(bn),
            views(cs@) == children(t@),
            all_inv(cs@),
            all_trees(children(t@)),
            items_ok(t@, i as int, a, b),
            pieces_view(out@) + mixed_items(t@, i as int, alt, a, b) == start + mixed_items(t@, 0, alt, a, b),
        decreases cs.len() - i,
    {
        proof {
            assert(views(cs@)[i as int] == cs@[i as int]@);
            assert(cs@[i as int].inv());
            assert(is_tree(children(t@)[i as int]));
            crate::model::lemma_tree_basics(children(t@)[i as int]);
            lemma_items_shorter(t@.drop_first(), i as int);
        }
        let ghost before = pieces_view(out@);
        let c = &cs[i];
        if i > 0 {
            push_piece(out, one_char(','), false);
        }
        let ghost mid = pieces_view(out@);
        let m = c.get_multiplicity(0);
        let mut inner: Vec<(Vec<char>, bool)> = Vec::new();
        proof {
            assert(pieces_view(inner@) =~= nothing());
            assert(nothing() + mixed_text(c@, alt, a, b) =~= mixed_text(c@, alt, a, b));
        }
        mixed_exec(c, alt, an, bn, &mut inner);
        if alt {
            if Natural::one().lt(&m) {
                push_piece(out, to_subscript(&m), false);
            }
            append_pieces(out, &inner);
            proof {
                if m@ <= 1 {
                    assert(mid + nothing() =~= mid);
                }
            }
        } else {
            push_counted(out, &inner, &m);
        }
        proof {
            let cv = children(t@)[i as int];
            let item = if alt {
                mult_prefix(cv[0].mult) + mixed_text(cv, alt, a, b)
            } else {
                counted(mixed_text(cv, alt, a, b), cv[0].mult)
            };
            assert(mid == before + separator(i as int)) by {
                if i == 0 {
                    assert(before + nothing() =~= before);
                }
            }
            assert(pieces_view(out@) =~= mid + item);
            assert(pieces_view(out@) + mixed_items(t@, i + 1, alt, a, b) =~= before + mixed_items(
                t@,
                i as int,
                alt,
                a,
                b,
            ));
        }
        i = i + 1;
    }
    proof {
        assert(mixed_items(t@, i as int, alt, a, b) == nothing());
        assert(pieces_view(out@) + nothing() =~= pieces_view(out@));
    }
}

/// Whether the mixed text of the box can be written.
fn check_mixed(t: &BoxValue<AnyBox>, an: &Option<Vec<char>>, bn: &Option<Vec<char>>) -> (r: bool)
    requires
        t.wf(),
    ensures
        r == mixed_ok(t@, name_view(an), name_view(bn)),
    decreases t@.len(), children(t@).len() + 1,
{
    proof {
        crate::model::lemma_tree_basics(t@);
    }
    let kind = t.get_kind(0);
    if kind == BoxKind::Empty {
        true
    } else if kind == BoxKind::Num {
        t.rows() >= 2
    } else if kind == BoxKind::Polynum || kind == BoxKind::Multinum {
        check_terms(t, an, bn)
    } else {
        check_items(t, an, bn)
    }
}

/// The terms from the `i`-th on have the rows they read when those from the `i`-th on
/// do and the `i`-th does.
proof fn lemma_terms_ok_step(t: Seq<Row>, i: int, an: Option<Seq<char>>, bn: Option<Seq<char>>)
    requires
        t.len() > 0,
        0 <= i < children(t).len(),
    ensures
        terms_ok(t, i, an, bn) == ((if t[0].kind == BoxKind::Multinum && children(t)[i][0].kind == BoxKind::Polynum {
            bn is Some ==> children(t)[i].len() >= 3
        } else if children(t)[i][0].kind == BoxKind::Num {
            an is Some ==> children(t)[i].len() >= 2
        } else {
            true
        }) && terms_ok(t, i + 1, an, bn)),
{
}

fn check_terms(t: &BoxValue<AnyBox>, an: &Option<Vec<char>>, bn: &Option<Vec<char>>) -> (r: bool)
    requires
        t.wf(),
    ensures
        r == terms_ok(t@, 0, name_view(an), name_view(bn)),
{
    let ghost a = name_view(an);
    let ghost b = name_view(bn);
    proof {
        lemma_tree_split(t@);
        crate::model::lemma_tree_basics(t@);
    }
    let multi = t.get_kind(0) == BoxKind::Multinum;
    let cs = child_boxes(t);
    let n = cs.len();
    let mut i: usize = n;
    proof {
        assert(terms_ok(t@, n as int, a, b));
    }
    while i > 0
        invariant
            0 <= i <= n,
            n == cs@.len(),
            t.wf(),
            multi == (t@[0].kind == BoxKind::Multinum),
            a == name_view(an),
            b == name_view(bn),
            views(cs@) == children(t@),
            all_inv(cs@),
            all_trees(children(t@)),
            terms_ok(t@, i as int, a, b),
        decreases i,
    {
        let j = i - 1;
        proof {
            assert(views(cs@)[j as int] == cs@[j as int]@);
            assert(cs@[j as int].inv());
            assert(is_tree(children(t@)[j as int]));
            crate::model::lemma_tree_basics(children(t@)[j as int]);
            lemma_terms_ok_step(t@, j as int, a, b);
        }
        let ck = cs[j].get_kind(0);
        let ok = if multi && ck == BoxKind::Polynum {
            bn.is_none() || cs[j].rows() >= 3
        } else if ck == BoxKind::Num {
            an.is_none() || cs[j].rows() >= 2
        } else {
            true
        };
        if !ok {
            proof {
                lemma_terms_ok_false(t@, 0, j as int, a, b);
            }
            return false;
        }
        i = j;
    }
    true
}

/// A term that cannot be written makes all the terms before it unwritable.
proof fn lemma_terms_ok_false(t: Seq<Row>, i: int, j: int, an: Option<Seq<char>>, bn: Option<Seq<char>>)
    requires
        t.len() > 0,
        0 <= i <= j < children(t).len(),
        !terms_ok(t, j, an, bn),
    ensures
        !terms_ok(t, i, an, bn),
    decreases j - i,
{
    if i < j {
        lemma_terms_ok_false(t, i + 1, j, an, bn);
    }
}

/// A child that cannot be written makes all the children before it unwritable.
proof fn lemma_items_ok_false(t: Seq<Row>, i: int, j: int, an: Option<Seq<char>>, bn: Option<Seq<char>>)
    requires
        t.len() > 0,
        0 <= i <= j < children(t).len(),
        !items_ok(t, j, an, bn),
    ensures
        !items_ok(t, i, an, bn),
    decreases j - i,
{
    if i < j {
        lemma_items_ok_false(t, i + 1, j, an, bn);
    }
}

fn check_items(t: &BoxValue<AnyBox>, an: &Option<Vec<char>>, bn: &Option<Vec<char>>) -> (r: bool)
    requires
        t.wf(),
    ensures
        r == items_ok(t@, 0, name_view(an), name_view(bn)),
    decreases t@.len(), children(t@).len(),
{
    let ghost a = name_view(an);
    let ghost b = name_view(bn);
    proof {
        lemma_tree_split(t@);
        crate::model::lemma_tree_basics(t@);
    }
    let cs = child_boxes(t);
    let n = cs.len();
    let mut i: usize = n;
    while i > 0
        invariant
            0 <= i <= n,
            n == cs@.len(),
            t.wf(),
            a == name_view(an),
            b == name_view(bn),
            views(cs@) == children(t@),
            all_inv(cs@),
            all_trees(children(t@)),
            items_ok(t@, i as int, a, b),
        decreases i,
    {
        let j = i - 1;
        proof {
            assert(views(cs@)[j as int] == cs@[j as int]@);
            assert(cs@[j as int].inv());
            assert(is_tree(children(t@)[j as int]));
            lemma_items_shorter(t@.drop_first(), j as int);
        }
        if !check_mixed(&cs[j], an, bn) {
            proof {
                lemma_items_ok_false(t@, 0, j as int, a, b);
            }
            return false;
        }
        i = j;
    }
    true
}

/// The text of a red piece between markup tags.
pub open spec fn markup_piece(x: (Seq<char>, bool)) -> Seq<char> {
    if x.1 {
        seq!['<', 'r', 'e', 'd', '>'] + x.0 + seq!['<', '/', 'r', 'e', 'd', '>']
    } else {
        x.0
    }
}

/// The pieces written one after the other, red ones inside `<red>…</red>`.
pub open spec fn markup_text(p: Seq<(Seq<char>, bool)>) -> Seq<char>
    decreases p.len(),
{
    if p.len() == 0 {
        seq![]
    } else {
        markup_text(p.drop_last()) + markup_piece(p.last())
    }
}

/// The text between the terminal sequences that make it red and reset the color.
pub open spec fn ansi_red(s: Seq<char>) -> Seq<char> {
    seq!['\u{1b}', '[', '3', '1', 'm'] + s + seq!['\u{1b}', '[', '0', 'm']
}

/// The pieces written one after the other, the red ones that were painted in the terminal's
/// red.
pub open spec fn terminal_text(p: Seq<(Seq<char>, bool)>, painted: Seq<bool>) -> Seq<char>
    decreases p.len(),
{
    if p.len() == 0 {
        seq![]
    } else {
        terminal_text(p.drop_last(), painted.drop_last()) + if p.last().1 && painted.last() {
            ansi_red(p.last().0)
        } else {
            p.last().0
        }
    }
}

/// `text` is what the pieces give in the color mode: exactly the markup, or in the terminal,
/// the pieces with the red ones painted or not, as the terminal allows.
pub open spec fn shows(mode: ColorMode, p: Seq<(Seq<char>, bool)>, text: Seq<char>) -> bool {
    match mode {
        ColorMode::Markup => text == markup_text(p),
        ColorMode::Terminal => exists|painted: Seq<bool>| painted.len() == p.len() && text == terminal_text(p, painted),
    }
}

/// `Colorize::red` followed by `ToString::to_string` (colored): the text unchanged, or,
/// when the crate finds that the terminal takes colors (it decides from the environment and
/// its overrides), the text between the sequences that make it red and reset the color.  For
/// a text without escape characters the crate's source writes nothing else.
#[verifier::external_body]
fn paint_red(s: &str) -> (r: String)
    requires
        !s@.contains('\u{1b}'),
    ensures
        r@ == s@ || r@ == ansi_red(s@),
{
    s.red().to_string()
}

fn string_of(v: &Vec<char>) -> (r: String)
    ensures
        r@ == v@,
{
    let mut r = String::new();
    let mut i: usize = 0;
    while i < v.len()
        invariant
            0 <= i <= v@.len(),
            r@ == v@.take(i as int),
        decreases v.len() - i,
    {
        crate::lexer::push_char(&mut r, v[i]);
        proof {
            assert(v@.take(i + 1) =~= v@.take(i as int).push(v@[i as int]));
        }
        i = i + 1;
    }
    proof {
        assert(v@.take(i as int) =~= v@);
    }
    r
}

fn has_escape(v: &Vec<char>) -> (r: bool)
    ensures
        r == v@.contains('\u{1b}'),
{
    let mut i: usize = 0;
    while i < v.len()
        invariant
            0 <= i <= v@.len(),
            forall|j: int| 0 <= j < i ==> v@[j] != '\u{1b}',
        decreases v.len() - i,
    {
        if v[i] == '\u{1b}' {
            proof {
                assert(v@.contains(v@[i as int]));
            }
            return true;
        }
        i = i + 1;
    }
    false
}

/// Writes the pieces in the color mode.
fn write_pieces(p: &Vec<(Vec<char>, bool)>, mode: ColorMode) -> (r: String)
    ensures
        shows(mode, pieces_view(p@), r@),
{
    let ghost pv = pieces_view(p@);
    let mut text: Vec<char> = Vec::new();
    let ghost mut painted: Seq<bool> = Seq::empty();
    let mut i: usize = 0;
    while i < p.len()
        invariant
            0 <= i <= p@.len(),
            pv == pieces_view(p@),
            painted.len() == i,
            mode == ColorMode::Markup ==> text@ == markup_text(pv.take(i as int)),
            mode == ColorMode::Terminal ==> text@ == terminal_text(pv.take(i as int), painted),
        decreases p.len() - i,
    {
        let ghost before = text@;
        let piece = &p[i].0;
        let red = p[i].1;
        let ghost mut chosen = false;
        proof {
            assert(pv.take(i + 1).drop_last() =~= pv.take(i as int));
            assert(pv.take(i + 1).last() == pv[i as int]);
        }
        if !red {
            append_chars(&mut text, piece);
        } else {
            match mode {
                ColorMode::Markup => {
                    text.push('<');
                    text.push('r');
                    text.push('e');
                    text.push('d');
                    text.push('>');
                    append_chars(&mut text, piece);
                    text.push('<');
                    text.push('/');
                    text.push('r');
                    text.push('e');
                    text.push('d');
                    text.push('>');
                    proof {
                        assert(text@ =~= before + markup_piece(pv[i as int]));
                    }
                },
                ColorMode::Terminal => {
                    if has_escape(piece) {
                        append_chars(&mut text, piece);
                    } else {
                        let s = string_of(piece);
                        let painted_piece = paint_red(s.as_str());
                        let cs = crate::lexer::chars_of(painted_piece.as_str());
                        append_chars(&mut text, &cs);
                        proof {
                            chosen = painted_piece@ != piece@;
                        }
                    }
                },
            }
        }
        let ghost old_painted = painted;
        proof {
            painted = painted.push(chosen);
            assert(painted.drop_last() =~= old_painted);
            assert(painted.last() == chosen);
            if mode == ColorMode::Terminal {
                assert(text@ == before + if pv[i as int].1 && chosen {
                    ansi_red(pv[i as int].0)
                } else {
                    pv[i as int].0
                });
                assert(terminal_text(pv.take(i + 1), painted) == terminal_text(pv.take(i as int), painted.drop_last())
                    + if pv[i as int].1 && painted.last() {
                    ansi_red(pv[i as int].0)
                } else {
                    pv[i as int].0
                });
            }
        }
        i = i + 1;
    }
    proof {
        assert(pv.take(i as int) =~= pv);
    }
    string_of(&text)
}

/// The pieces of the text of the rows in the format, with the names of the variables.
pub open spec fn layout_text(
    t: Seq<Row>,
    format: OutputFormat,
    alt: bool,
    an: Option<Seq<char>>,
    bn: Option<Seq<char>>,
) -> Seq<(Seq<char>, bool)> {
    match format {
        OutputFormat::Boxed => boxed_text(t, alt),
        OutputFormat::Mixed => mixed_text(t, alt, an, bn),
    }
}

/// The text can be laid out: the rows form a box, and in the mixed format every term has the
/// rows that it reads.
pub open spec fn layout_ok(b: BoxVariant, format: OutputFormat, an: Option<Seq<char>>, bn: Option<Seq<char>>) -> bool {
    b.wf() && (format == OutputFormat::Mixed ==> mixed_ok(b@, an, bn))
}

/// Lays out the text of a box in the format (alternate: multiplicities as subscripts), with
/// the names of the variables; `None` where the rows cannot be read as asked.
pub fn layout(
    value: &BoxVariant,
    format: OutputFormat,
    alt: bool,
    an: &Option<Vec<char>>,
    bn: &Option<Vec<char>>,
) -> (r: Option<Vec<(Vec<char>, bool)>>)
    ensures
        r is Some <==> layout_ok(*value, format, name_view(an), name_view(bn)),
        r matches Some(p) ==> pieces_view(p@) == layout_text(value@, format, alt, name_view(an), name_view(bn)),
{
    if !crate::eval::variant_is_box(value) {
        return None;
    }
    let raw = value.duplicate().into_any_raw();
    let mut out: Vec<(Vec<char>, bool)> = Vec::new();
    proof {
        assert(pieces_view(out@) =~= nothing());
    }
    match format {
        OutputFormat::Boxed => {
            boxed_exec(&raw, alt, &mut out);
        },
        OutputFormat::Mixed => {
            if !check_mixed(&raw, an, bn) {
                return None;
            }
            mixed_exec(&raw, alt, an, bn, &mut out);
        },
    }
    proof {
        assert(nothing() + layout_text(value@, format, alt, name_view(an), name_view(bn)) =~= layout_text(
            value@,
            format,
            alt,
            name_view(an),
            name_view(bn),
        ));
    }
    Some(out)
}

/// The text of a box in the color mode and format, with the names of the variables.
pub fn render_with(
    value: &BoxVariant,
    mode: ColorMode,
    format: OutputFormat,
    alt: bool,
    an: &Option<Vec<char>>,
    bn: &Option<Vec<char>>,
) -> (r: Option<String>)
    ensures
        r is Some <==> layout_ok(*value, format, name_view(an), name_view(bn)),
        r matches Some(s) ==> shows(mode, layout_text(value@, format, alt, name_view(an), name_view(bn)), s@),
{
    match layout(value, format, alt, an, bn) {
        Some(p) => Some(write_pieces(&p, mode)),
        None => None,
    }
}

/// A box with what its text is written with: the color mode, the format and the store whose
/// names are used for the variables.
pub struct BoxDisplay<'a> {
    pub value: BoxVariant,
    pub mode: ColorMode,
    pub format: OutputFormat,
    pub store: &'a BoxStore,
}

/// The name is one that the store binds to some hash.
pub open spec fn named_in(store: &BoxStore, n: Option<Seq<char>>) -> bool {
    n matches Some(x) ==> exists|h: u64| stored_names(store.vars).dom().contains(h) && stored_names(store.vars)[h]
        == x
}

impl<'a> BoxDisplay<'a> {
    pub fn new(store: &'a BoxStore, value: BoxVariant, mode: ColorMode, format: OutputFormat) -> (r: Self)
        ensures
            r.store == store,
            r.value == value,
            r.mode == mode,
            r.format == format,
    {
        BoxDisplay { store, value, mode, format }
    }

    pub fn set_mode(&mut self, mode: ColorMode)
        ensures
            final(self).mode == mode,
            final(self).value == old(self).value,
            final(self).format == old(self).format,
            final(self).store == old(self).store,
    {
        self.mode = mode;
    }

    pub fn set_format(&mut self, format: OutputFormat)
        ensures
            final(self).format == format,
            final(self).value == old(self).value,
            final(self).mode == old(self).mode,
            final(self).store == old(self).store,
    {
        self.format = format;
    }

    pub fn set_store(&mut self, store: &'a BoxStore)
        ensures
            final(self).store == store,
            final(self).value == old(self).value,
            final(self).mode == old(self).mode,
            final(self).format == old(self).format,
    {
        self.store = store;
    }

    /// A display of the box in markup colors and the mixed format.
    pub fn from_variant(value: BoxVariant, store: &'a BoxStore) -> (r: Self)
        ensures
            r.store == store,
            r.value == value,
            r.mode == ColorMode::Markup,
            r.format == OutputFormat::Mixed,
    {
        BoxDisplay::new(store, value, ColorMode::default(), OutputFormat::default())
    }

    /// The name that the store binds to the box, looked up by the hash that the store's
    /// hasher gives the box: whatever that hash is, the name under it, or `None` where the
    /// store binds no name to it.
    fn name_of(&self, b: &BoxVariant) -> (r: Option<Vec<char>>)
        ensures
            exists|h: u64|
                {
                    &&& (r is Some <==> stored_names(self.store.vars).dom().contains(h))
                    &&& (r matches Some(v) ==> v@ == stored_names(self.store.vars)[h])
                },
            named_in(self.store, name_view(&r)),
    {
        let h = crate::store::hash_box(&self.store.boxes, b);
        match self.store.fetch_name(h) {
            Some(s) => Some(crate::lexer::chars_of(s.as_str())),
            None => None,
        }
    }

    /// The text of the box (alternate: multiplicities as subscripts); `None` where its rows
    /// cannot be read as the format asks.  The variables are written with the names that the
    /// store gives alpha and beta with index one.
    pub fn render(&self, alt: bool) -> (r: Option<String>)
        ensures
            exists|an: Option<Seq<char>>, bn: Option<Seq<char>>|
                {
                    &&& named_in(self.store, an)
                    &&& named_in(self.store, bn)
                    &&& (r is Some <==> layout_ok(self.value, self.format, an, bn))
                    &&& (r matches Some(s) ==> shows(self.mode, layout_text(self.value@, self.format, alt, an, bn), s@))
                },
    {
        let (an, bn) = match self.format {
            OutputFormat::Mixed => (self.name_of(&BoxVariant::alpha()), self.name_of(&BoxVariant::beta(Natural::one()))),
            OutputFormat::Boxed => (None, None),
        };
        let r = render_with(&self.value, self.mode, self.format, alt, &an, &bn);
        proof {
            assert(named_in(self.store, name_view(&an)));
            assert(named_in(self.store, name_view(&bn)));
        }
        r
    }
}

} // verus!
