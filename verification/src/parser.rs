//! The grammar of expressions over tokens.
//!
//! Alternatives are tried in order, and the first that matches is taken (a
//! later failure does not come back to try the others).  From the loosest to
//! the tightest binding:
//!
//! - an expression is a chain of sets joined by `∪` and `∩`; failing that a
//!   sum; failing that `der(sum)` or `der(sum, number)`;
//! - a sum is a chain of products joined by `+` and `-`, a product a chain of
//!   powers joined by `*`, `/` and `%`, left to right;
//! - a power is an atom with an optional exponent `^number` or superscript;
//! - an atom is any number of `-`, an optional subscript, and a base: a
//!   number, `□`, a name with an optional subscript, a vexel `⌊⌈x⌉,…⌋`, a
//!   maxel `⌊⌈x,y⌉,…⌋`, a list `⌈…⌉`, a box `⌊…⌋`, or an expression in
//!   parentheses.
//!
//! Numbers, `□`, names and brackets may be written in `<red>…</red>` for their
//! anti-box.  A bracketed box whose opening and closing brackets differ in
//! color is parsed, and makes the whole input invalid.
pub use crate::lexer::Token;
use crate::lexer::{Tok, toks};
use crate::natural::Natural;
use crate::Color;
use vstd::prelude::*;

verus! {

/// Where a subscript stands: before the expression or after a name.
#[derive(Debug, Clone, Copy, PartialEq, Eq, Structural)]
pub enum IndexPos {
    Pre,
    Post,
}

/// An expression of the box language.
#[derive(Debug)]
pub enum Expr {
    Empty,
    Num(Natural),
    Var(String),
    Neg(Box<Expr>),
    Subscript { pos: IndexPos, expr: Box<Expr>, index: Natural },
    Anti(Box<Expr>),
    Add(Box<Expr>, Box<Expr>),
    Sub(Box<Expr>, Box<Expr>),
    Mul(Box<Expr>, Box<Expr>),
    Div(Box<Expr>, Box<Expr>),
    Rem(Box<Expr>, Box<Expr>),
    Caret(Box<Expr>, Natural),
    Intersection(Box<Expr>, Box<Expr>),
    Union(Box<Expr>, Box<Expr>),
    Box(Vec<Expr>),
    SetOf(Vec<Expr>),
    List(Vec<Expr>),
    Unixel(Box<Expr>),
    Vexel(Vec<Expr>),
    Pixel(Box<Expr>, Box<Expr>),
    Maxel(Vec<Expr>),
    Der(Box<Expr>),
    DerMulti(Box<Expr>, Natural),
}

/// An expression as a mathematical value.
pub enum Ex {
    Empty,
    Num(nat),
    Var(Seq<char>),
    Neg(Box<Ex>),
    Subscript(IndexPos, Box<Ex>, nat),
    Anti(Box<Ex>),
    Add(Box<Ex>, Box<Ex>),
    Sub(Box<Ex>, Box<Ex>),
    Mul(Box<Ex>, Box<Ex>),
    Div(Box<Ex>, Box<Ex>),
    Rem(Box<Ex>, Box<Ex>),
    Caret(Box<Ex>, nat),
    Intersection(Box<Ex>, Box<Ex>),
    Union(Box<Ex>, Box<Ex>),
    Box(Seq<Ex>),
    SetOf(Seq<Ex>),
    List(Seq<Ex>),
    Unixel(Box<Ex>),
    Vexel(Seq<Ex>),
    Pixel(Box<Ex>, Box<Ex>),
    Maxel(Seq<Ex>),
    Der(Box<Ex>),
    DerMulti(Box<Ex>, nat),
}

/// The expression `e` has the value `x`.
pub open spec fn models(e: Expr, x: Ex) -> bool
    decreases e, 1int,
{
    match e {
        Expr::Empty => x is Empty,
        Expr::Num(n) => x matches Ex::Num(m) && n@ == m,
        Expr::Var(s) => x matches Ex::Var(t) && s@ == t,
        Expr::Subscript { pos, expr, index } => match x {
            Ex::Subscript(p2, y, n2) => pos == p2 && index@ == n2 && models(*expr, *y),
            _ => false,
        },
        Expr::Caret(a, n) => match x {
            Ex::Caret(b, m) => n@ == m && models(*a, *b),
            _ => false,
        },
        Expr::DerMulti(a, n) => match x {
            Ex::DerMulti(b, m) => n@ == m && models(*a, *b),
            _ => false,
        },
        Expr::Neg(a) => match x {
            Ex::Neg(b) => models(*a, *b),
            _ => false,
        },
        Expr::Anti(a) => match x {
            Ex::Anti(b) => models(*a, *b),
            _ => false,
        },
        Expr::Unixel(a) => match x {
            Ex::Unixel(b) => models(*a, *b),
            _ => false,
        },
        Expr::Der(a) => match x {
            Ex::Der(b) => models(*a, *b),
            _ => false,
        },
        Expr::Add(a1, a2) => match x {
            Ex::Add(b1, b2) => models(*a1, *b1) && models(*a2, *b2),
            _ => false,
        },
        Expr::Sub(a1, a2) => match x {
            Ex::Sub(b1, b2) => models(*a1, *b1) && models(*a2, *b2),
            _ => false,
        },
        Expr::Mul(a1, a2) => match x {
            Ex::Mul(b1, b2) => models(*a1, *b1) && models(*a2, *b2),
            _ => false,
        },
        Expr::Div(a1, a2) => match x {
            Ex::Div(b1, b2) => models(*a1, *b1) && models(*a2, *b2),
            _ => false,
        },
        Expr::Rem(a1, a2) => match x {
            Ex::Rem(b1, b2) => models(*a1, *b1) && models(*a2, *b2),
            _ => false,
        },
        Expr::Intersection(a1, a2) => match x {
            Ex::Intersection(b1, b2) => models(*a1, *b1) && models(*a2, *b2),
            _ => false,
        },
        Expr::Union(a1, a2) => match x {
            Ex::Union(b1, b2) => models(*a1, *b1) && models(*a2, *b2),
            _ => false,
        },
        Expr::Pixel(a1, a2) => match x {
            Ex::Pixel(b1, b2) => models(*a1, *b1) && models(*a2, *b2),
            _ => false,
        },
        Expr::Box(items) => match x {
            Ex::Box(xs) => models_seq(items@, xs),
            _ => false,
        },
        Expr::SetOf(items) => match x {
            Ex::SetOf(xs) => models_seq(items@, xs),
            _ => false,
        },
        Expr::List(items) => match x {
            Ex::List(xs) => models_seq(items@, xs),
            _ => false,
        },
        Expr::Vexel(items) => match x {
            Ex::Vexel(xs) => models_seq(items@, xs),
            _ => false,
        },
        Expr::Maxel(items) => match x {
            Ex::Maxel(xs) => models_seq(items@, xs),
            _ => false,
        },
    }
}

/// Each expression of `items` has the value at its place in `xs`.
pub open spec fn models_seq(items: Seq<Expr>, xs: Seq<Ex>) -> bool
    decreases items, 0int,
{
    if items.len() == 0 {
        xs.len() == 0
    } else {
        &&& xs.len() == items.len()
        &&& models(items[items.len() - 1], xs[xs.len() - 1])
        &&& models_seq(items.subrange(0, items.len() - 1), xs.subrange(0, xs.len() - 1))
    }
}

/// A parse: the value, the position after it, and whether its brackets all match in color.
pub struct Parsed {
    pub ex: Ex,
    pub next: int,
    pub ok: bool,
}

/// The shapes of bracketed boxes.
#[derive(Clone, Copy)]
pub enum Shape {
    BoxShape,
    ListShape,
    SetShape,
}

/// What a bracketed box holds.
#[derive(Clone, Copy)]
pub enum Item {
    Plain,
    UnixelItem,
    PixelItem,
}

pub open spec fn open_tok(s: Shape) -> Tok {
    match s {
        Shape::BoxShape => Tok::OpenBox,
        Shape::ListShape => Tok::OpenList,
        Shape::SetShape => Tok::OpenSet,
    }
}

pub open spec fn close_tok(s: Shape) -> Tok {
    match s {
        Shape::BoxShape => Tok::CloseBox,
        Shape::ListShape => Tok::CloseList,
        Shape::SetShape => Tok::CloseSet,
    }
}

pub open spec fn shaped_ex(s: Shape, xs: Seq<Ex>) -> Ex {
    match s {
        Shape::BoxShape => Ex::Box(xs),
        Shape::ListShape => Ex::List(xs),
        Shape::SetShape => Ex::SetOf(xs),
    }
}

/// The token at `i`, if there is one.
pub open spec fn tok_at(ts: Seq<Tok>, i: int) -> Option<Tok> {
    if 0 <= i < ts.len() {
        Some(ts[i])
    } else {
        None
    }
}

/// A token, possibly in `<red>…</red>`: its color and the position after it.
pub open spec fn colored(ts: Seq<Tok>, i: int, t: Tok) -> Option<(Color, int)> {
    if tok_at(ts, i) == Some(t) {
        Some((Color::Black, i + 1))
    } else if tok_at(ts, i) == Some(Tok::RedOpen) && tok_at(ts, i + 1) == Some(t) && tok_at(ts, i + 2)
        == Some(Tok::RedClose) {
        Some((Color::Red, i + 3))
    } else {
        None
    }
}

/// An optional subscript: its index and the position after it.
pub open spec fn sub_opt(ts: Seq<Tok>, i: int) -> (Option<nat>, int) {
    match tok_at(ts, i) {
        Some(Tok::Subscript(n)) => (Some(n), i + 1),
        _ => (None, i),
    }
}

/// The value with an optional subscript in front.
pub open spec fn with_pre(sub: Option<nat>, x: Ex) -> Ex {
    match sub {
        Some(n) => Ex::Subscript(IndexPos::Pre, Box::new(x), n),
        None => x,
    }
}

/// The value, as an anti-box when red.
pub open spec fn with_color(c: Color, x: Ex) -> Ex {
    if c == Color::Red {
        Ex::Anti(Box::new(x))
    } else {
        x
    }
}

/// The number of `-` tokens from `i` on.
pub open spec fn minus_run(ts: Seq<Tok>, i: int) -> nat
    decreases ts.len() - i,
{
    if 0 <= i < ts.len() && ts[i] == Tok::Minus {
        1 + minus_run(ts, i + 1)
    } else {
        0
    }
}

/// The value negated `m` times.
pub open spec fn negated(x: Ex, m: nat) -> Ex
    decreases m,
{
    if m == 0 {
        x
    } else {
        Ex::Neg(Box::new(negated(x, (m - 1) as nat)))
    }
}

/// An expression.
pub open spec fn p_expr(ts: Seq<Tok>, i: int) -> Option<Parsed>
    decreases ts.len() - i, 20int,
{
    if i < 0 || i > ts.len() {
        None
    } else {
        match p_set_op(ts, i) {
            Some(r) => Some(r),
            None => match p_sum(ts, i) {
                Some(r) => Some(r),
                None => match p_der(ts, i) {
                    Some(r) => Some(r),
                    None => p_der_multi(ts, i),
                },
            },
        }
    }
}

/// A chain of sets joined by union and intersection.
pub open spec fn p_set_op(ts: Seq<Tok>, i: int) -> Option<Parsed>
    decreases ts.len() - i, 19int,
{
    if i < 0 || i > ts.len() {
        None
    } else {
        match p_bracketed(ts, i, Shape::SetShape, Item::Plain) {
            Some(r) => if r.next > i && r.next <= ts.len() {
                set_tail(ts, r.next, r.ex, r.ok)
            } else {
                None
            },
            None => None,
        }
    }
}

pub open spec fn set_tail(ts: Seq<Tok>, j: int, acc: Ex, ok: bool) -> Option<Parsed>
    decreases ts.len() - j, 18int,
{
    if j < 0 || j > ts.len() {
        None
    } else if tok_at(ts, j) == Some(Tok::Union) || tok_at(ts, j) == Some(Tok::Intersection) {
        match p_bracketed(ts, j + 1, Shape::SetShape, Item::Plain) {
            Some(r) => if r.next > j && r.next <= ts.len() {
                let e = if ts[j] == Tok::Union {
                    Ex::Union(Box::new(acc), Box::new(r.ex))
                } else {
                    Ex::Intersection(Box::new(acc), Box::new(r.ex))
                };
                set_tail(ts, r.next, e, ok && r.ok)
            } else {
                None
            },
            None => Some(Parsed { ex: acc, next: j, ok }),
        }
    } else {
        Some(Parsed { ex: acc, next: j, ok })
    }
}

/// A chain of products joined by `+` and `-`.
pub open spec fn p_sum(ts: Seq<Tok>, i: int) -> Option<Parsed>
    decreases ts.len() - i, 19int,
{
    if i < 0 || i > ts.len() {
        None
    } else {
        match p_prod(ts, i) {
            Some(r) => if r.next > i && r.next <= ts.len() {
                sum_tail(ts, r.next, r.ex, r.ok)
            } else {
                None
            },
            None => None,
        }
    }
}

pub open spec fn sum_tail(ts: Seq<Tok>, j: int, acc: Ex, ok: bool) -> Option<Parsed>
    decreases ts.len() - j, 18int,
{
    if j < 0 || j > ts.len() {
        None
    } else if tok_at(ts, j) == Some(Tok::Plus) || tok_at(ts, j) == Some(Tok::Minus) {
        match p_prod(ts, j + 1) {
            Some(r) => if r.next > j && r.next <= ts.len() {
                let e = if ts[j] == Tok::Plus {
                    Ex::Add(Box::new(acc), Box::new(r.ex))
                } else {
                    Ex::Sub(Box::new(acc), Box::new(r.ex))
                };
                sum_tail(ts, r.next, e, ok && r.ok)
            } else {
                None
            },
            None => Some(Parsed { ex: acc, next: j, ok }),
        }
    } else {
        Some(Parsed { ex: acc, next: j, ok })
    }
}

/// A chain of powers joined by `*`, `/` and `%`.
pub open spec fn p_prod(ts: Seq<Tok>, i: int) -> Option<Parsed>
    decreases ts.len() - i, 17int,
{
    if i < 0 || i > ts.len() {
        None
    } else {
        match p_caret(ts, i) {
            Some(r) => if r.next > i && r.next <= ts.len() {
                prod_tail(ts, r.next, r.ex, r.ok)
            } else {
                None
            },
            None => None,
        }
    }
}

pub open spec fn prod_tail(ts: Seq<Tok>, j: int, acc: Ex, ok: bool) -> Option<Parsed>
    decreases ts.len() - j, 16int,
{
    if j < 0 || j > ts.len() {
        None
    } else if tok_at(ts, j) == Some(Tok::Multiply) || tok_at(ts, j) == Some(Tok::Divide) || tok_at(ts, j)
        == Some(Tok::Remainder) {
        match p_caret(ts, j + 1) {
            Some(r) => if r.next > j && r.next <= ts.len() {
                let e = if ts[j] == Tok::Multiply {
                    Ex::Mul(Box::new(acc), Box::new(r.ex))
                } else if ts[j] == Tok::Divide {
                    Ex::Div(Box::new(acc), Box::new(r.ex))
                } else {
                    Ex::Rem(Box::new(acc), Box::new(r.ex))
                };
                prod_tail(ts, r.next, e, ok && r.ok)
            } else {
                None
            },
            None => Some(Parsed { ex: acc, next: j, ok }),
        }
    } else {
        Some(Parsed { ex: acc, next: j, ok })
    }
}

/// An atom with an optional exponent.
pub open spec fn p_caret(ts: Seq<Tok>, i: int) -> Option<Parsed>
    decreases ts.len() - i, 15int,
{
    if i < 0 || i > ts.len() {
        None
    } else {
        match p_atom(ts, i) {
            Some(r) => {
                let k = r.next;
                if tok_at(ts, k) == Some(Tok::Caret) && tok_at(ts, k + 1) is Some && tok_at(ts, k + 1)->0 is Num {
                    Some(Parsed { ex: Ex::Caret(Box::new(r.ex), tok_at(ts, k + 1)->0->Num_0), next: k + 2, ok: r.ok })
                } else if tok_at(ts, k) is Some && tok_at(ts, k)->0 is Superscript {
                    Some(Parsed { ex: Ex::Caret(Box::new(r.ex), tok_at(ts, k)->0->Superscript_0), next: k + 1, ok: r.ok })
                } else {
                    Some(r)
                }
            },
            None => None,
        }
    }
}

/// Minus signs, an optional subscript, and a base.
pub open spec fn p_atom(ts: Seq<Tok>, i: int) -> Option<Parsed>
    decreases ts.len() - i, 14int,
{
    if i < 0 || i > ts.len() {
        None
    } else {
        let m = minus_run(ts, i);
        let (sub, j) = sub_opt(ts, i + m);
        if j < i || j > ts.len() {
            None
        } else {
            match p_base(ts, j) {
                Some(r) => Some(Parsed { ex: negated(with_pre(sub, r.ex), m), next: r.next, ok: r.ok }),
                None => None,
            }
        }
    }
}

/// A number, possibly red.
pub open spec fn p_number(ts: Seq<Tok>, i: int) -> Option<Parsed> {
    if tok_at(ts, i) == Some(Tok::RedOpen) && tok_at(ts, i + 1) is Some && tok_at(ts, i + 1)->0 is Num
        && tok_at(ts, i + 2) == Some(Tok::RedClose) {
        Some(Parsed { ex: Ex::Anti(Box::new(Ex::Num(tok_at(ts, i + 1)->0->Num_0))), next: i + 3, ok: true })
    } else if tok_at(ts, i) is Some && tok_at(ts, i)->0 is Num {
        Some(Parsed { ex: Ex::Num(tok_at(ts, i)->0->Num_0), next: i + 1, ok: true })
    } else {
        None
    }
}

/// The empty box, possibly red.
pub open spec fn p_empty(ts: Seq<Tok>, i: int) -> Option<Parsed> {
    match colored(ts, i, Tok::Empty) {
        Some((c, j)) => Some(Parsed { ex: with_color(c, Ex::Empty), next: j, ok: true }),
        None => None,
    }
}

/// A name, possibly red, with an optional subscript after it.
pub open spec fn p_var(ts: Seq<Tok>, i: int) -> Option<Parsed> {
    let base = if tok_at(ts, i) == Some(Tok::RedOpen) && tok_at(ts, i + 1) is Some && tok_at(ts, i + 1)->0 is Var
        && tok_at(ts, i + 2) == Some(Tok::RedClose) {
        Some((Ex::Anti(Box::new(Ex::Var(tok_at(ts, i + 1)->0->Var_0))), i + 3))
    } else if tok_at(ts, i) is Some && tok_at(ts, i)->0 is Var {
        Some((Ex::Var(tok_at(ts, i)->0->Var_0), i + 1))
    } else {
        None
    };
    match base {
        Some((x, j)) => match tok_at(ts, j) {
            Some(Tok::Subscript(n)) => Some(
                Parsed { ex: Ex::Subscript(IndexPos::Post, Box::new(x), n), next: j + 1, ok: true },
            ),
            _ => Some(Parsed { ex: x, next: j, ok: true }),
        },
        None => None,
    }
}

/// A base of an atom.
pub open spec fn p_base(ts: Seq<Tok>, i: int) -> Option<Parsed>
    decreases ts.len() - i, 13int,
{
    if i < 0 || i > ts.len() {
        None
    } else if p_number(ts, i) is Some {
        p_number(ts, i)
    } else if p_empty(ts, i) is Some {
        p_empty(ts, i)
    } else if p_var(ts, i) is Some {
        p_var(ts, i)
    } else {
        match p_bracketed(ts, i, Shape::BoxShape, Item::UnixelItem) {
            Some(r) => Some(r),
            None => match p_bracketed(ts, i, Shape::BoxShape, Item::PixelItem) {
                Some(r) => Some(r),
                None => match p_bracketed(ts, i, Shape::ListShape, Item::Plain) {
                    Some(r) => Some(r),
                    None => match p_bracketed(ts, i, Shape::BoxShape, Item::Plain) {
                        Some(r) => Some(r),
                        None => p_paren(ts, i),
                    },
                },
            },
        }
    }
}

/// An expression in parentheses.
pub open spec fn p_paren(ts: Seq<Tok>, i: int) -> Option<Parsed>
    decreases ts.len() - i, 12int,
{
    if i < 0 || i >= ts.len() || ts[i] != Tok::OpenGroup {
        None
    } else {
        match p_expr(ts, i + 1) {
            Some(r) => if tok_at(ts, r.next) == Some(Tok::CloseGroup) {
                Some(Parsed { ex: r.ex, next: r.next + 1, ok: r.ok })
            } else {
                None
            },
            None => None,
        }
    }
}

/// `der(sum)`.
pub open spec fn p_der(ts: Seq<Tok>, i: int) -> Option<Parsed>
    decreases ts.len() - i, 12int,
{
    if i < 0 || i >= ts.len() || ts[i] != Tok::Der || tok_at(ts, i + 1) != Some(Tok::OpenGroup) {
        None
    } else {
        match p_sum(ts, i + 2) {
            Some(r) => if tok_at(ts, r.next) == Some(Tok::CloseGroup) {
                Some(Parsed { ex: Ex::Der(Box::new(r.ex)), next: r.next + 1, ok: r.ok })
            } else {
                None
            },
            None => None,
        }
    }
}

/// `der(sum, number)`.
pub open spec fn p_der_multi(ts: Seq<Tok>, i: int) -> Option<Parsed>
    decreases ts.len() - i, 12int,
{
    if i < 0 || i >= ts.len() || ts[i] != Tok::Der || tok_at(ts, i + 1) != Some(Tok::OpenGroup) {
        None
    } else {
        match p_sum(ts, i + 2) {
            Some(r) => if tok_at(ts, r.next) == Some(Tok::Comma) && tok_at(ts, r.next + 1) is Some && tok_at(
                ts,
                r.next + 1,
            )->0 is Num && tok_at(ts, r.next + 2) == Some(Tok::CloseGroup) {
                Some(
                    Parsed {
                        ex: Ex::DerMulti(Box::new(r.ex), tok_at(ts, r.next + 1)->0->Num_0),
                        next: r.next + 3,
                        ok: r.ok,
                    },
                )
            } else {
                None
            },
            None => None,
        }
    }
}

/// A bracketed box of the given shape whose items are of the given kind, with an optional
/// subscript in front.
pub open spec fn p_bracketed(ts: Seq<Tok>, i: int, s: Shape, it: Item) -> Option<Parsed>
    decreases ts.len() - i, 11int,
{
    if i < 0 || i > ts.len() {
        None
    } else {
        let (sub, a) = sub_opt(ts, i);
        match colored(ts, a, open_tok(s)) {
            Some((oc, b)) => match p_items(ts, b, it) {
                Some((xs, c, ok)) => match colored(ts, c, close_tok(s)) {
                    Some((cc, d)) => Some(
                        Parsed { ex: with_pre(sub, with_color(oc, shaped_ex(s, xs))), next: d, ok: ok && oc == cc },
                    ),
                    None => None,
                },
                None => None,
            },
            None => None,
        }
    }
}

/// Items separated by commas, possibly none.
pub open spec fn p_items(ts: Seq<Tok>, j: int, it: Item) -> Option<(Seq<Ex>, int, bool)>
    decreases ts.len() - j + 1, 10int,
{
    if j < 0 || j > ts.len() {
        None
    } else {
        match p_item(ts, j, it) {
            Some(r) => if r.next > j && r.next <= ts.len() {
                items_tail(ts, r.next, it, seq![r.ex], r.ok)
            } else {
                None
            },
            None => Some((Seq::empty(), j, true)),
        }
    }
}

pub open spec fn items_tail(ts: Seq<Tok>, k: int, it: Item, acc: Seq<Ex>, ok: bool) -> Option<(Seq<Ex>, int, bool)>
    decreases ts.len() - k + 1, 9int,
{
    if k < 0 || k > ts.len() {
        None
    } else if tok_at(ts, k) == Some(Tok::Comma) {
        match p_item(ts, k + 1, it) {
            Some(r) => if r.next > k && r.next <= ts.len() {
                items_tail(ts, r.next, it, acc.push(r.ex), ok && r.ok)
            } else {
                None
            },
            None => Some((acc, k, ok)),
        }
    } else {
        Some((acc, k, ok))
    }
}

/// One item of a bracketed box.
pub open spec fn p_item(ts: Seq<Tok>, j: int, it: Item) -> Option<Parsed>
    decreases ts.len() - j, 21int,
{
    if j < 0 || j > ts.len() {
        None
    } else {
        match it {
            Item::Plain => p_expr(ts, j),
            Item::UnixelItem => p_unixel(ts, j),
            Item::PixelItem => p_pixel(ts, j),
        }
    }
}

/// `⌈x⌉`, with an optional subscript in front.
pub open spec fn p_unixel(ts: Seq<Tok>, i: int) -> Option<Parsed>
    decreases ts.len() - i, 20int,
{
    if i < 0 || i > ts.len() {
        None
    } else {
        let (sub, a) = sub_opt(ts, i);
        match colored(ts, a, Tok::OpenList) {
            Some((oc, b)) => match p_expr(ts, b) {
                Some(r) => match colored(ts, r.next, Tok::CloseList) {
                    Some((cc, d)) => Some(
                        Parsed {
                            ex: with_pre(sub, with_color(oc, Ex::Unixel(Box::new(r.ex)))),
                            next: d,
                            ok: r.ok && oc == cc,
                        },
                    ),
                    None => None,
                },
                None => None,
            },
            None => None,
        }
    }
}

/// `⌈x,y⌉`, with an optional subscript in front.
pub open spec fn p_pixel(ts: Seq<Tok>, i: int) -> Option<Parsed>
    decreases ts.len() - i, 20int,
{
    if i < 0 || i > ts.len() {
        None
    } else {
        let (sub, a) = sub_opt(ts, i);
        match colored(ts, a, Tok::OpenList) {
            Some((oc, b)) => match p_expr(ts, b) {
                Some(r1) => if tok_at(ts, r1.next) == Some(Tok::Comma) && r1.next >= b {
                    match p_expr(ts, r1.next + 1) {
                        Some(r2) => match colored(ts, r2.next, Tok::CloseList) {
                            Some((cc, d)) => Some(
                                Parsed {
                                    ex: with_pre(
                                        sub,
                                        with_color(oc, Ex::Pixel(Box::new(r1.ex), Box::new(r2.ex))),
                                    ),
                                    next: d,
                                    ok: r1.ok && r2.ok && oc == cc,
                                },
                            ),
                            None => None,
                        },
                        None => None,
                    }
                } else {
                    None
                },
                None => None,
            },
            None => None,
        }
    }
}

/// The expression that the tokens spell, when they spell one whose brackets match in color.
pub open spec fn parse_spec(ts: Seq<Tok>) -> Option<Ex> {
    match p_expr(ts, 0) {
        Some(r) => if r.next == ts.len() && r.ok {
            Some(r.ex)
        } else {
            None
        },
        None => None,
    }
}

/// The exec parse `r` is the spec parse `s`.
pub open spec fn matches_parse(r: Option<(Expr, usize, bool)>, s: Option<Parsed>) -> bool {
    match s {
        Some(p) => r matches Some((e, j, ok)) && models(e, p.ex) && j as int == p.next && ok == p.ok,
        None => r is None,
    }
}

/// The exec items `r` are the spec items `s`.
pub open spec fn matches_items(r: Option<(Vec<Expr>, usize, bool)>, s: Option<(Seq<Ex>, int, bool)>) -> bool {
    match s {
        Some((xs, k, ok)) => r matches Some((v, j, ok2)) && v@.len() == xs.len() && (forall|m: int|
            0 <= m < xs.len() ==> #[trigger] models(v@[m], xs[m])) && j as int == k && ok2 == ok,
        None => r is None,
    }
}

/// A token without data.
pub open spec fn plain_tok(t: Token) -> bool {
    !(t is Num || t is Var || t is Subscript || t is Superscript)
}

/// Whether the token at `i` is the token `k`, which has no data.
fn tok_is(ts: &Vec<Token>, i: usize, k: &Token) -> (r: bool)
    requires
        plain_tok(*k),
    ensures
        r == (tok_at(toks(ts@), i as int) == Some(k@)),
{
    if i >= ts.len() {
        return false;
    }
    let a = &ts[i];
    proof {
        assert(toks(ts@)[i as int] == ts@[i as int]@);
    }
    match k {
        Token::Empty => matches!(a, Token::Empty),
        Token::Plus => matches!(a, Token::Plus),
        Token::Minus => matches!(a, Token::Minus),
        Token::Multiply => matches!(a, Token::Multiply),
        Token::Divide => matches!(a, Token::Divide),
        Token::Remainder => matches!(a, Token::Remainder),
        Token::Caret => matches!(a, Token::Caret),
        Token::Intersection => matches!(a, Token::Intersection),
        Token::Union => matches!(a, Token::Union),
        Token::OpenGroup => matches!(a, Token::OpenGroup),
        Token::CloseGroup => matches!(a, Token::CloseGroup),
        Token::OpenBox => matches!(a, Token::OpenBox),
        Token::CloseBox => matches!(a, Token::CloseBox),
        Token::OpenList => matches!(a, Token::OpenList),
        Token::CloseList => matches!(a, Token::CloseList),
        Token::OpenSet => matches!(a, Token::OpenSet),
        Token::CloseSet => matches!(a, Token::CloseSet),
        Token::Comma => matches!(a, Token::Comma),
        Token::RedOpen => matches!(a, Token::RedOpen),
        Token::RedClose => matches!(a, Token::RedClose),
        Token::Der => matches!(a, Token::Der),
        _ => false,
    }
}

/// The number held by the token at `i`, if it holds one.
fn num_at(ts: &Vec<Token>, i: usize) -> (r: Option<Natural>)
    ensures
        (tok_at(toks(ts@), i as int) is Some && tok_at(toks(ts@), i as int)->0 is Num) <==> r is Some,
        r matches Some(n) ==> n@ == tok_at(toks(ts@), i as int)->0->Num_0,
{
    if i >= ts.len() {
        return None;
    }
    proof {
        assert(toks(ts@)[i as int] == ts@[i as int]@);
    }
    match &ts[i] {
        Token::Num(n) => Some(n.copy()),
        _ => None,
    }
}

/// The index held by the subscript token at `i`, if it is one.
fn subscript_at(ts: &Vec<Token>, i: usize) -> (r: Option<Natural>)
    ensures
        (tok_at(toks(ts@), i as int) is Some && tok_at(toks(ts@), i as int)->0 is Subscript) <==> r is Some,
        r matches Some(n) ==> n@ == tok_at(toks(ts@), i as int)->0->Subscript_0,
{
    if i >= ts.len() {
        return None;
    }
    proof {
        assert(toks(ts@)[i as int] == ts@[i as int]@);
    }
    match &ts[i] {
        Token::Subscript(n) => Some(n.copy()),
        _ => None,
    }
}

/// The exponent held by the superscript token at `i`, if it is one.
fn superscript_at(ts: &Vec<Token>, i: usize) -> (r: Option<Natural>)
    ensures
        (tok_at(toks(ts@), i as int) is Some && tok_at(toks(ts@), i as int)->0 is Superscript) <==> r is Some,
        r matches Some(n) ==> n@ == tok_at(toks(ts@), i as int)->0->Superscript_0,
{
    if i >= ts.len() {
        return None;
    }
    proof {
        assert(toks(ts@)[i as int] == ts@[i as int]@);
    }
    match &ts[i] {
        Token::Superscript(n) => Some(n.copy()),
        _ => None,
    }
}

/// The name held by the token at `i`, if it holds one.
fn var_at(ts: &Vec<Token>, i: usize) -> (r: Option<String>)
    ensures
        (tok_at(toks(ts@), i as int) is Some && tok_at(toks(ts@), i as int)->0 is Var) <==> r is Some,
        r matches Some(n) ==> n@ == tok_at(toks(ts@), i as int)->0->Var_0,
{
    if i >= ts.len() {
        return None;
    }
    proof {
        assert(toks(ts@)[i as int] == ts@[i as int]@);
    }
    match &ts[i] {
        Token::Var(n) => Some(n.clone()),
        _ => None,
    }
}

fn colored_exec(ts: &Vec<Token>, i: usize, k: &Token) -> (r: Option<(Color, usize)>)
    requires
        plain_tok(*k),
        i <= ts@.len(),
        ts@.len() + 8 <= usize::MAX,
    ensures
        match colored(toks(ts@), i as int, k@) {
            Some((c, j)) => r == Some((c, j as usize)) && j <= ts@.len(),
            None => r is None,
        },
        r matches Some((_c, j)) ==> i < j <= ts@.len(),
{
    if tok_is(ts, i, k) {
        return Some((Color::Black, i + 1));
    }
    if tok_is(ts, i, &Token::RedOpen) && tok_is(ts, i + 1, k) && tok_is(ts, i + 2, &Token::RedClose) {
        return Some((Color::Red, i + 3));
    }
    None
}

fn with_pre_exec(sub: Option<Natural>, e: Expr, Ghost(x): Ghost<Ex>) -> (r: Expr)
    requires
        models(e, x),
    ensures
        models(r, with_pre(match sub { Some(n) => Some(n@), None => None }, x)),
{
    match sub {
        Some(n) => Expr::Subscript { pos: IndexPos::Pre, expr: Box::new(e), index: n },
        None => e,
    }
}

fn with_color_exec(c: Color, e: Expr, Ghost(x): Ghost<Ex>) -> (r: Expr)
    requires
        models(e, x),
    ensures
        models(r, with_color(c, x)),
{
    if c == Color::Red {
        Expr::Anti(Box::new(e))
    } else {
        e
    }
}

/// Item by item, `items` has the values `xs`.
pub proof fn lemma_models_seq(items: Seq<Expr>, xs: Seq<Ex>)
    ensures
        models_seq(items, xs) <==> (items.len() == xs.len() && forall|m: int|
            0 <= m < xs.len() ==> #[trigger] models(items[m], xs[m])),
    decreases items.len(),
{
    if items.len() > 0 && xs.len() == items.len() {
        let n = items.len() - 1;
        lemma_models_seq(items.subrange(0, n), xs.subrange(0, n));
        if models_seq(items, xs) {
            assert forall|m: int| 0 <= m < xs.len() implies #[trigger] models(items[m], xs[m]) by {
                if m < n {
                    assert(items.subrange(0, n)[m] == items[m]);
                    assert(xs.subrange(0, n)[m] == xs[m]);
                }
            }
        }
        if forall|m: int| 0 <= m < xs.len() ==> #[trigger] models(items[m], xs[m]) {
            assert forall|m: int| 0 <= m < n implies #[trigger] models(items.subrange(0, n)[m], xs.subrange(0, n)[m]) by {
                assert(models(items[m], xs[m]));
            }
            assert(models(items[n], xs[n]));
        }
    }
}

fn shaped_exec(s: Shape, v: Vec<Expr>, Ghost(xs): Ghost<Seq<Ex>>) -> (r: Expr)
    requires
        v@.len() == xs.len(),
        forall|m: int| 0 <= m < xs.len() ==> #[trigger] models(v@[m], xs[m]),
    ensures
        models(r, shaped_ex(s, xs)),
{
    let ghost vs = v;
    let r = match s {
        Shape::BoxShape => Expr::Box(v),
        Shape::ListShape => Expr::List(v),
        Shape::SetShape => Expr::SetOf(v),
    };
    proof {
        lemma_models_seq(vs@, xs);
    }
    r
}

fn open_exec(s: Shape) -> (t: Token)
    ensures
        plain_tok(t),
        t@ == open_tok(s),
{
    match s {
        Shape::BoxShape => Token::OpenBox,
        Shape::ListShape => Token::OpenList,
        Shape::SetShape => Token::OpenSet,
    }
}

fn close_exec(s: Shape) -> (t: Token)
    ensures
        plain_tok(t),
        t@ == close_tok(s),
{
    match s {
        Shape::BoxShape => Token::CloseBox,
        Shape::ListShape => Token::CloseList,
        Shape::SetShape => Token::CloseSet,
    }
}

fn parse_expr(ts: &Vec<Token>, i: usize) -> (r: Option<(Expr, usize, bool)>)
    requires
        i <= ts@.len(),
        ts@.len() + 8 <= usize::MAX,
    ensures
        matches_parse(r, p_expr(toks(ts@), i as int)),
        r matches Some((_e, q, _b)) ==> q <= ts@.len(),
    decreases ts@.len() - i, 20int,
{
    match parse_set_op(ts, i) {
        Some(r) => return Some(r),
        None => {},
    }
    match parse_sum(ts, i) {
        Some(r) => return Some(r),
        None => {},
    }
    match parse_der(ts, i) {
        Some(r) => return Some(r),
        None => {},
    }
    parse_der_multi(ts, i)
}

fn parse_set_op(ts: &Vec<Token>, i: usize) -> (r: Option<(Expr, usize, bool)>)
    requires
        i <= ts@.len(),
        ts@.len() + 8 <= usize::MAX,
    ensures
        matches_parse(r, p_set_op(toks(ts@), i as int)),
        r matches Some((_e, q, _b)) ==> q <= ts@.len(),
    decreases ts@.len() - i, 19int,
{
    let ghost t = toks(ts@);
    match parse_bracketed(ts, i, Shape::SetShape, Item::Plain) {
        Some((e, j, ok)) => {
            let ghost x = p_bracketed(t, i as int, Shape::SetShape, Item::Plain)->0.ex;
            if j > i && j <= ts.len() {
                set_tail_exec(ts, j, e, Ghost(x), ok)
            } else {
                None
            }
        },
        None => None,
    }
}

fn set_tail_exec(ts: &Vec<Token>, j: usize, acc: Expr, Ghost(ax): Ghost<Ex>, ok: bool) -> (r: Option<(Expr, usize, bool)>)
    requires
        j <= ts@.len(),
        ts@.len() + 8 <= usize::MAX,
        models(acc, ax),
    ensures
        matches_parse(r, set_tail(toks(ts@), j as int, ax, ok)),
        r matches Some((_e, q, _b)) ==> q <= ts@.len(),
    decreases ts@.len() - j, 18int,
{
    let ghost t = toks(ts@);
    let is_union = tok_is(ts, j, &Token::Union);
    let is_inter = tok_is(ts, j, &Token::Intersection);
    if is_union || is_inter {
        match parse_bracketed(ts, j + 1, Shape::SetShape, Item::Plain) {
            Some((e, k, ok2)) => {
                let ghost x = p_bracketed(t, j + 1, Shape::SetShape, Item::Plain)->0.ex;
                if k > j && k <= ts.len() {
                    let ghost nx = if t[j as int] == Tok::Union {
                        Ex::Union(Box::new(ax), Box::new(x))
                    } else {
                        Ex::Intersection(Box::new(ax), Box::new(x))
                    };
                    let ne = if is_union {
                        Expr::Union(Box::new(acc), Box::new(e))
                    } else {
                        Expr::Intersection(Box::new(acc), Box::new(e))
                    };
                    set_tail_exec(ts, k, ne, Ghost(nx), ok && ok2)
                } else {
                    None
                }
            },
            None => Some((acc, j, ok)),
        }
    } else {
        Some((acc, j, ok))
    }
}

fn parse_sum(ts: &Vec<Token>, i: usize) -> (r: Option<(Expr, usize, bool)>)
    requires
        i <= ts@.len(),
        ts@.len() + 8 <= usize::MAX,
    ensures
        matches_parse(r, p_sum(toks(ts@), i as int)),
        r matches Some((_e, q, _b)) ==> q <= ts@.len(),
    decreases ts@.len() - i, 19int,
{
    let ghost t = toks(ts@);
    match parse_prod(ts, i) {
        Some((e, j, ok)) => {
            let ghost x = p_prod(t, i as int)->0.ex;
            if j > i && j <= ts.len() {
                sum_tail_exec(ts, j, e, Ghost(x), ok)
            } else {
                None
            }
        },
        None => None,
    }
}

fn sum_tail_exec(ts: &Vec<Token>, j: usize, acc: Expr, Ghost(ax): Ghost<Ex>, ok: bool) -> (r: Option<(Expr, usize, bool)>)
    requires
        j <= ts@.len(),
        ts@.len() + 8 <= usize::MAX,
        models(acc, ax),
    ensures
        matches_parse(r, sum_tail(toks(ts@), j as int, ax, ok)),
        r matches Some((_e, q, _b)) ==> q <= ts@.len(),
    decreases ts@.len() - j, 18int,
{
    let ghost t = toks(ts@);
    let is_plus = tok_is(ts, j, &Token::Plus);
    let is_minus = tok_is(ts, j, &Token::Minus);
    if is_plus || is_minus {
        match parse_prod(ts, j + 1) {
            Some((e, k, ok2)) => {
                let ghost x = p_prod(t, j + 1)->0.ex;
                if k > j && k <= ts.len() {
                    let ghost nx = if t[j as int] == Tok::Plus {
                        Ex::Add(Box::new(ax), Box::new(x))
                    } else {
                        Ex::Sub(Box::new(ax), Box::new(x))
                    };
                    let ne = if is_plus {
                        Expr::Add(Box::new(acc), Box::new(e))
                    } else {
                        Expr::Sub(Box::new(acc), Box::new(e))
                    };
                    sum_tail_exec(ts, k, ne, Ghost(nx), ok && ok2)
                } else {
                    None
                }
            },
            None => Some((acc, j, ok)),
        }
    } else {
        Some((acc, j, ok))
    }
}

fn parse_prod(ts: &Vec<Token>, i: usize) -> (r: Option<(Expr, usize, bool)>)
    requires
        i <= ts@.len(),
        ts@.len() + 8 <= usize::MAX,
    ensures
        matches_parse(r, p_prod(toks(ts@), i as int)),
        r matches Some((_e, q, _b)) ==> q <= ts@.len(),
    decreases ts@.len() - i, 17int,
{
    let ghost t = toks(ts@);
    match parse_caret(ts, i) {
        Some((e, j, ok)) => {
            let ghost x = p_caret(t, i as int)->0.ex;
            if j > i && j <= ts.len() {
                prod_tail_exec(ts, j, e, Ghost(x), ok)
            } else {
                None
            }
        },
        None => None,
    }
}

fn prod_tail_exec(ts: &Vec<Token>, j: usize, acc: Expr, Ghost(ax): Ghost<Ex>, ok: bool) -> (r: Option<(Expr, usize, bool)>)
    requires
        j <= ts@.len(),
        ts@.len() + 8 <= usize::MAX,
        models(acc, ax),
    ensures
        matches_parse(r, prod_tail(toks(ts@), j as int, ax, ok)),
        r matches Some((_e, q, _b)) ==> q <= ts@.len(),
    decreases ts@.len() - j, 16int,
{
    let ghost t = toks(ts@);
    let is_mul = tok_is(ts, j, &Token::Multiply);
    let is_div = tok_is(ts, j, &Token::Divide);
    let is_rem = tok_is(ts, j, &Token::Remainder);
    if is_mul || is_div || is_rem {
        match parse_caret(ts, j + 1) {
            Some((e, k, ok2)) => {
                let ghost x = p_caret(t, j + 1)->0.ex;
                if k > j && k <= ts.len() {
                    let ghost nx = if t[j as int] == Tok::Multiply {
                        Ex::Mul(Box::new(ax), Box::new(x))
                    } else if t[j as int] == Tok::Divide {
                        Ex::Div(Box::new(ax), Box::new(x))
                    } else {
                        Ex::Rem(Box::new(ax), Box::new(x))
                    };
                    let ne = if is_mul {
                        Expr::Mul(Box::new(acc), Box::new(e))
                    } else if is_div {
                        Expr::Div(Box::new(acc), Box::new(e))
                    } else {
                        Expr::Rem(Box::new(acc), Box::new(e))
                    };
                    prod_tail_exec(ts, k, ne, Ghost(nx), ok && ok2)
                } else {
                    None
                }
            },
            None => Some((acc, j, ok)),
        }
    } else {
        Some((acc, j, ok))
    }
}

fn parse_caret(ts: &Vec<Token>, i: usize) -> (r: Option<(Expr, usize, bool)>)
    requires
        i <= ts@.len(),
        ts@.len() + 8 <= usize::MAX,
    ensures
        matches_parse(r, p_caret(toks(ts@), i as int)),
        r matches Some((_e, q, _b)) ==> q <= ts@.len(),
    decreases ts@.len() - i, 15int,
{
    let ghost t = toks(ts@);
    match parse_atom(ts, i) {
        Some((e, k, ok)) => {
            let ghost x = p_atom(t, i as int)->0.ex;
            if tok_is(ts, k, &Token::Caret) && k < ts.len() {
                match num_at(ts, k + 1) {
                    Some(n) => {
                        return Some((Expr::Caret(Box::new(e), n), k + 2, ok));
                    },
                    None => {},
                }
            }
            match superscript_at(ts, k) {
                Some(n) => Some((Expr::Caret(Box::new(e), n), k + 1, ok)),
                None => Some((e, k, ok)),
            }
        },
        None => None,
    }
}

fn parse_atom(ts: &Vec<Token>, i: usize) -> (r: Option<(Expr, usize, bool)>)
    requires
        i <= ts@.len(),
        ts@.len() + 8 <= usize::MAX,
    ensures
        matches_parse(r, p_atom(toks(ts@), i as int)),
        r matches Some((_e, q, _b)) ==> q <= ts@.len(),
    decreases ts@.len() - i, 14int,
{
    let ghost t = toks(ts@);
    let mut m: usize = 0;
    while i + m < ts.len() && tok_is(ts, i + m, &Token::Minus)
        invariant
            i + m <= ts@.len(),
            ts@.len() + 8 <= usize::MAX,
            minus_run(t, i as int) == m + minus_run(t, (i + m) as int),
            t == toks(ts@),
        decreases ts@.len() - (i + m),
    {
        m = m + 1;
    }
    proof {
        if i + m < ts@.len() {
            assert(t[(i + m) as int] != Tok::Minus);
        }
    }
    let a = i + m;
    let (sub, j) = match subscript_at(ts, a) {
        Some(n) => (Some(n), a + 1),
        None => (None, a),
    };
    let ghost gsub: Option<nat> = match &sub {
        Some(n) => Some(n@),
        None => None,
    };
    proof {
        assert(sub_opt(t, a as int) == (gsub, j as int));
    }
    if j > ts.len() {
        return None;
    }
    match parse_base(ts, j) {
        Some((e, k, ok)) => {
            let ghost x = p_base(t, j as int)->0.ex;
            let e1 = with_pre_exec(sub, e, Ghost(x));
            let ghost x1 = with_pre(gsub, x);
            let mut out = e1;
            let mut c: usize = 0;
            while c < m
                invariant
                    c <= m,
                    models(out, negated(x1, c as nat)),
                decreases m - c,
            {
                out = Expr::Neg(Box::new(out));
                c = c + 1;
            }
            Some((out, k, ok))
        },
        None => None,
    }
}

fn parse_number(ts: &Vec<Token>, i: usize) -> (r: Option<(Expr, usize, bool)>)
    requires
        i <= ts@.len(),
        ts@.len() + 8 <= usize::MAX,
    ensures
        matches_parse(r, p_number(toks(ts@), i as int)),
        r matches Some((_e, q, _b)) ==> q <= ts@.len(),
{
    if tok_is(ts, i, &Token::RedOpen) && tok_is(ts, i + 2, &Token::RedClose) {
        match num_at(ts, i + 1) {
            Some(n) => {
                let inner = Expr::Num(n);
                proof {
                    assert(models(inner, Ex::Num(n@)));
                }
                return Some((Expr::Anti(Box::new(inner)), i + 3, true));
            },
            None => {},
        }
    }
    match num_at(ts, i) {
        Some(n) => Some((Expr::Num(n), i + 1, true)),
        None => None,
    }
}

fn parse_empty(ts: &Vec<Token>, i: usize) -> (r: Option<(Expr, usize, bool)>)
    requires
        i <= ts@.len(),
        ts@.len() + 8 <= usize::MAX,
    ensures
        matches_parse(r, p_empty(toks(ts@), i as int)),
        r matches Some((_e, q, _b)) ==> q <= ts@.len(),
{
    match colored_exec(ts, i, &Token::Empty) {
        Some((c, j)) => Some((with_color_exec(c, Expr::Empty, Ghost(Ex::Empty)), j, true)),
        None => None,
    }
}

fn parse_var(ts: &Vec<Token>, i: usize) -> (r: Option<(Expr, usize, bool)>)
    requires
        i <= ts@.len(),
        ts@.len() + 8 <= usize::MAX,
    ensures
        matches_parse(r, p_var(toks(ts@), i as int)),
        r matches Some((_e, q, _b)) ==> q <= ts@.len(),
{
    let ghost t = toks(ts@);
    let mut base: Option<(Expr, usize)> = None;
    let ghost mut gx: Ex = Ex::Empty;
    if tok_is(ts, i, &Token::RedOpen) && tok_is(ts, i + 2, &Token::RedClose) {
        match var_at(ts, i + 1) {
            Some(n) => {
                proof {
                    gx = Ex::Anti(Box::new(Ex::Var(n@)));
                }
                let inner = Expr::Var(n);
                proof {
                    assert(models(inner, Ex::Var(n@)));
                }
                let outer = Expr::Anti(Box::new(inner));
                proof {
                    assert(models(outer, gx));
                }
                base = Some((outer, i + 3));
            },
            None => {},
        }
    }
    if base.is_none() {
        match var_at(ts, i) {
            Some(n) => {
                proof {
                    gx = Ex::Var(n@);
                }
                let inner = Expr::Var(n);
                proof {
                    assert(models(inner, gx));
                }
                base = Some((inner, i + 1));
            },
            None => {},
        }
    }
    match base {
        Some((x, j)) => {
            proof {
                assert(models(x, gx));
            }
            match subscript_at(ts, j) {
                Some(n) => Some((Expr::Subscript { pos: IndexPos::Post, expr: Box::new(x), index: n }, j + 1, true)),
                None => Some((x, j, true)),
            }
        },
        None => None,
    }
}

fn parse_base(ts: &Vec<Token>, i: usize) -> (r: Option<(Expr, usize, bool)>)
    requires
        i <= ts@.len(),
        ts@.len() + 8 <= usize::MAX,
    ensures
        matches_parse(r, p_base(toks(ts@), i as int)),
        r matches Some((_e, q, _b)) ==> q <= ts@.len(),
    decreases ts@.len() - i, 13int,
{
    match parse_number(ts, i) {
        Some(r) => return Some(r),
        None => {},
    }
    match parse_empty(ts, i) {
        Some(r) => return Some(r),
        None => {},
    }
    match parse_var(ts, i) {
        Some(r) => return Some(r),
        None => {},
    }
    match parse_bracketed(ts, i, Shape::BoxShape, Item::UnixelItem) {
        Some(r) => return Some(r),
        None => {},
    }
    match parse_bracketed(ts, i, Shape::BoxShape, Item::PixelItem) {
        Some(r) => return Some(r),
        None => {},
    }
    match parse_bracketed(ts, i, Shape::ListShape, Item::Plain) {
        Some(r) => return Some(r),
        None => {},
    }
    match parse_bracketed(ts, i, Shape::BoxShape, Item::Plain) {
        Some(r) => return Some(r),
        None => {},
    }
    parse_paren(ts, i)
}

fn parse_paren(ts: &Vec<Token>, i: usize) -> (r: Option<(Expr, usize, bool)>)
    requires
        i <= ts@.len(),
        ts@.len() + 8 <= usize::MAX,
    ensures
        matches_parse(r, p_paren(toks(ts@), i as int)),
        r matches Some((_e, q, _b)) ==> q <= ts@.len(),
    decreases ts@.len() - i, 12int,
{
    if i >= ts.len() || !tok_is(ts, i, &Token::OpenGroup) {
        return None;
    }
    match parse_expr(ts, i + 1) {
        Some((e, k, ok)) => {
            if tok_is(ts, k, &Token::CloseGroup) {
                Some((e, k + 1, ok))
            } else {
                None
            }
        },
        None => None,
    }
}

#[verifier::spinoff_prover]
#[verifier::rlimit(40)]
fn parse_der(ts: &Vec<Token>, i: usize) -> (r: Option<(Expr, usize, bool)>)
    requires
        i <= ts@.len(),
        ts@.len() + 8 <= usize::MAX,
    ensures
        matches_parse(r, p_der(toks(ts@), i as int)),
        r matches Some((_e, q, _b)) ==> q <= ts@.len(),
    decreases ts@.len() - i, 12int,
{
    if i >= ts.len() || !tok_is(ts, i, &Token::Der) || !tok_is(ts, i + 1, &Token::OpenGroup) {
        return None;
    }
    match parse_sum(ts, i + 2) {
        Some((e, k, ok)) => {
            if tok_is(ts, k, &Token::CloseGroup) {
                Some((Expr::Der(Box::new(e)), k + 1, ok))
            } else {
                None
            }
        },
        None => None,
    }
}

fn parse_der_multi(ts: &Vec<Token>, i: usize) -> (r: Option<(Expr, usize, bool)>)
    requires
        i <= ts@.len(),
        ts@.len() + 8 <= usize::MAX,
    ensures
        matches_parse(r, p_der_multi(toks(ts@), i as int)),
        r matches Some((_e, q, _b)) ==> q <= ts@.len(),
    decreases ts@.len() - i, 12int,
{
    if i >= ts.len() || !tok_is(ts, i, &Token::Der) || !tok_is(ts, i + 1, &Token::OpenGroup) {
        return None;
    }
    match parse_sum(ts, i + 2) {
        Some((e, k, ok)) => {
            if tok_is(ts, k, &Token::Comma) && k < ts.len() && tok_is(ts, k + 2, &Token::CloseGroup) {
                match num_at(ts, k + 1) {
                    Some(n) => Some((Expr::DerMulti(Box::new(e), n), k + 3, ok)),
                    None => None,
                }
            } else {
                None
            }
        },
        None => None,
    }
}

fn parse_bracketed(ts: &Vec<Token>, i: usize, s: Shape, it: Item) -> (r: Option<(Expr, usize, bool)>)
    requires
        i <= ts@.len(),
        ts@.len() + 8 <= usize::MAX,
    ensures
        matches_parse(r, p_bracketed(toks(ts@), i as int, s, it)),
        r matches Some((_e, q, _b)) ==> q <= ts@.len(),
    decreases ts@.len() - i, 11int,
{
    let ghost t = toks(ts@);
    let (sub, a) = match subscript_at(ts, i) {
        Some(n) => (Some(n), i + 1),
        None => (None, i),
    };
    let ghost gsub: Option<nat> = match &sub {
        Some(n) => Some(n@),
        None => None,
    };
    proof {
        assert(sub_opt(t, i as int) == (gsub, a as int));
    }
    let open = open_exec(s);
    match colored_exec(ts, a, &open) {
        Some((oc, b)) => match parse_items(ts, b, it) {
            Some((v, c, ok)) => {
                let ghost xs = match p_items(t, b as int, it) {
                    Some((q, _, _)) => q,
                    None => Seq::empty(),
                };
                let close = close_exec(s);
                match colored_exec(ts, c, &close) {
                    Some((cc, d)) => {
                        let e0 = shaped_exec(s, v, Ghost(xs));
                        let e1 = with_color_exec(oc, e0, Ghost(shaped_ex(s, xs)));
                        let e2 = with_pre_exec(sub, e1, Ghost(with_color(oc, shaped_ex(s, xs))));
                        Some((e2, d, ok && oc == cc))
                    },
                    None => None,
                }
            },
            None => None,
        },
        None => None,
    }
}

fn parse_items(ts: &Vec<Token>, j: usize, it: Item) -> (r: Option<(Vec<Expr>, usize, bool)>)
    requires
        j <= ts@.len(),
        ts@.len() + 8 <= usize::MAX,
    ensures
        matches_items(r, p_items(toks(ts@), j as int, it)),
        r matches Some((_v, q, _b)) ==> q <= ts@.len(),
    decreases ts@.len() - j + 1, 10int,
{
    let ghost t = toks(ts@);
    match parse_item(ts, j, it) {
        Some((e, k, ok)) => {
            let ghost x = p_item(t, j as int, it)->0.ex;
            if k > j && k <= ts.len() {
                let mut v: Vec<Expr> = Vec::new();
                v.push(e);
                let ghost one = seq![x];
                proof {
                    assert(v@.len() == one.len());
                    assert forall|m: int| 0 <= m < one.len() implies #[trigger] models(v@[m], one[m]) by {}
                }
                items_tail_exec(ts, k, it, v, Ghost(one), ok)
            } else {
                None
            }
        },
        None => Some((Vec::new(), j, true)),
    }
}

fn items_tail_exec(ts: &Vec<Token>, k: usize, it: Item, acc: Vec<Expr>, Ghost(ax): Ghost<Seq<Ex>>, ok: bool) -> (r: Option<
    (Vec<Expr>, usize, bool),
>)
    requires
        k <= ts@.len(),
        ts@.len() + 8 <= usize::MAX,
        acc@.len() == ax.len(),
        forall|m: int| 0 <= m < ax.len() ==> #[trigger] models(acc@[m], ax[m]),
    ensures
        matches_items(r, items_tail(toks(ts@), k as int, it, ax, ok)),
        r matches Some((_v, q, _b)) ==> q <= ts@.len(),
    decreases ts@.len() - k + 1, 9int,
{
    let ghost t = toks(ts@);
    if tok_is(ts, k, &Token::Comma) {
        match parse_item(ts, k + 1, it) {
            Some((e, m, ok2)) => {
                let ghost x = p_item(t, k + 1, it)->0.ex;
                if m > k && m <= ts.len() {
                    let mut v = acc;
                    let ghost old_v = v@;
                    v.push(e);
                    proof {
                        assert forall|q: int| 0 <= q < ax.push(x).len() implies #[trigger] models(v@[q], ax.push(x)[q]) by {
                            if q < ax.len() {
                                assert(v@[q] == old_v[q]);
                            }
                        }
                    }
                    items_tail_exec(ts, m, it, v, Ghost(ax.push(x)), ok && ok2)
                } else {
                    None
                }
            },
            None => Some((acc, k, ok)),
        }
    } else {
        Some((acc, k, ok))
    }
}

fn parse_item(ts: &Vec<Token>, j: usize, it: Item) -> (r: Option<(Expr, usize, bool)>)
    requires
        j <= ts@.len(),
        ts@.len() + 8 <= usize::MAX,
    ensures
        matches_parse(r, p_item(toks(ts@), j as int, it)),
        r matches Some((_e, q, _b)) ==> q <= ts@.len(),
    decreases ts@.len() - j, 21int,
{
    match it {
        Item::Plain => parse_expr(ts, j),
        Item::UnixelItem => parse_unixel(ts, j),
        Item::PixelItem => parse_pixel(ts, j),
    }
}

fn parse_unixel(ts: &Vec<Token>, i: usize) -> (r: Option<(Expr, usize, bool)>)
    requires
        i <= ts@.len(),
        ts@.len() + 8 <= usize::MAX,
    ensures
        matches_parse(r, p_unixel(toks(ts@), i as int)),
        r matches Some((_e, q, _b)) ==> q <= ts@.len(),
    decreases ts@.len() - i, 20int,
{
    let ghost t = toks(ts@);
    let (sub, a) = match subscript_at(ts, i) {
        Some(n) => (Some(n), i + 1),
        None => (None, i),
    };
    let ghost gsub: Option<nat> = match &sub {
        Some(n) => Some(n@),
        None => None,
    };
    proof {
        assert(sub_opt(t, i as int) == (gsub, a as int));
    }
    match colored_exec(ts, a, &Token::OpenList) {
        Some((oc, b)) => match parse_expr(ts, b) {
            Some((e, k, ok)) => {
                let ghost x = p_expr(t, b as int)->0.ex;
                if k > ts.len() {
                    return None;
                }
                match colored_exec(ts, k, &Token::CloseList) {
                    Some((cc, d)) => {
                        let e0 = Expr::Unixel(Box::new(e));
                        let e1 = with_color_exec(oc, e0, Ghost(Ex::Unixel(Box::new(x))));
                        let e2 = with_pre_exec(sub, e1, Ghost(with_color(oc, Ex::Unixel(Box::new(x)))));
                        Some((e2, d, ok && oc == cc))
                    },
                    None => None,
                }
            },
            None => None,
        },
        None => None,
    }
}

#[verifier::spinoff_prover]
#[verifier::rlimit(40)]
fn parse_pixel(ts: &Vec<Token>, i: usize) -> (r: Option<(Expr, usize, bool)>)
    requires
        i <= ts@.len(),
        ts@.len() + 8 <= usize::MAX,
    ensures
        matches_parse(r, p_pixel(toks(ts@), i as int)),
        r matches Some((_e, q, _b)) ==> q <= ts@.len(),
    decreases ts@.len() - i, 20int,
{
    let ghost t = toks(ts@);
    let (sub, a) = match subscript_at(ts, i) {
        Some(n) => (Some(n), i + 1),
        None => (None, i),
    };
    let ghost gsub: Option<nat> = match &sub {
        Some(n) => Some(n@),
        None => None,
    };
    proof {
        assert(sub_opt(t, i as int) == (gsub, a as int));
    }
    match colored_exec(ts, a, &Token::OpenList) {
        Some((oc, b)) => match parse_expr(ts, b) {
            Some((e1, k1, ok1)) => {
                let ghost x1 = p_expr(t, b as int)->0.ex;
                if tok_is(ts, k1, &Token::Comma) && k1 >= b && k1 < ts.len() {
                    match parse_expr(ts, k1 + 1) {
                        Some((e2, k2, ok2)) => {
                            let ghost x2 = p_expr(t, k1 + 1)->0.ex;
                            if k2 > ts.len() {
                                return None;
                            }
                            match colored_exec(ts, k2, &Token::CloseList) {
                                Some((cc, d)) => {
                                    let p0 = Expr::Pixel(Box::new(e1), Box::new(e2));
                                    let ghost px = Ex::Pixel(Box::new(x1), Box::new(x2));
                                    let p1 = with_color_exec(oc, p0, Ghost(px));
                                    let p2 = with_pre_exec(sub, p1, Ghost(with_color(oc, px)));
                                    Some((p2, d, ok1 && ok2 && oc == cc))
                                },
                                None => None,
                            }
                        },
                        None => None,
                    }
                } else {
                    None
                }
            },
            None => None,
        },
        None => None,
    }
}

/// Parses the tokens as one expression whose brackets match in color.
pub fn parser(ts: &Vec<Token>) -> (r: Option<Expr>)
    requires
        ts@.len() + 8 <= usize::MAX,
    ensures
        match parse_spec(toks(ts@)) {
            Some(x) => r matches Some(e) && models(e, x),
            None => r is None,
        },
{
    match parse_expr(ts, 0) {
        Some((e, k, ok)) => {
            if k == ts.len() && ok {
                Some(e)
            } else {
                None
            }
        },
        None => None,
    }
}

} // verus!
