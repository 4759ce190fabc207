//! Evaluation of expressions against the boxes bound to names in a store.
//!
//! Operands are evaluated left to right, and the first failure is the result.
//! A box written `⌊…⌋` gets its kind from its children: empty boxes make a
//! number, numbers a polynumber, polynumbers a multinumber, unixels a vexel
//! and pixels a maxel; anything else stays a plain box.
use crate::derivative::{multi_derivative, multi_terms_readable, poly_derivative, poly_terms_readable};
use crate::div::{can_div, variant_div_defined, variant_quotient, variant_remainder};
use crate::maxel::{all_pixels, all_unixels, pixel_rows, unixel_rows};
use crate::canon::{all_inv, child_boxes, views};
use crate::model::{all_trees, children, flatten, is_tree, lemma_tree_split, mk_box, Row};
use crate::parser::{Expr, IndexPos};
use crate::natural::Natural;
use crate::store::BoxStore;
use crate::set::{lemma_meet_determined, lemma_union_determined, meet_post, union_post};
use crate::value::{head_row, int_rows, leaf_rows, one_rows, row_with_color, row_with_mult};
use crate::variant::{
    add_fits, can_add, can_mul, mul_fits, mul_shapes, variant_product, variant_product_tag, variant_sum,
    variant_sum_tag,
};
use crate::value::BoxValue;
use crate::variant::BoxVariant;
use crate::{color_flip, AnyBox, BoxKind, Color, NumBox, PixelBox, UnixelBox};
use vstd::prelude::*;

verus! {

/// Why an expression has no value.
#[derive(Debug, Clone, Copy, PartialEq, Eq, Structural)]
pub enum EvalError {
    /// An operation on boxes of kinds that it does not take.
    TypeMismatch,
    /// A result with more rows than a row length can count.
    TooLarge,
    /// An operation that the box at hand does not allow.
    Unsupported,
}

/// Why an evaluation has no value: an error that is reported, a division that does not
/// finish (or whose intermediate boxes outgrow the row lengths), a name that no box is bound
/// to, or a name bound to rows that do not form a box (stored by hand through the public
/// fields), which can be handed back but not computed with.
pub enum Failure {
    Error(EvalError),
    DivisionOutOfReach,
    Unbound,
    NotABox((BoxKind, Seq<Row>, bool)),
}

/// The value bound to a name.
pub open spec fn var_value(env: Map<Seq<char>, (BoxKind, Seq<Row>, bool)>, name: Seq<char>) -> Result<
    (BoxKind, Seq<Row>),
    Failure,
> {
    if !env.dom().contains(name) {
        Err(Failure::Unbound)
    } else if !(env[name].2 && is_tree(env[name].1)) {
        Err(Failure::NotABox(env[name]))
    } else {
        Ok((env[name].0, env[name].1))
    }
}

/// The anti-box: the outer color flipped.
pub open spec fn anti_value(v: (BoxKind, Seq<Row>)) -> (BoxKind, Seq<Row>) {
    (v.0, v.1.update(0, row_with_color(v.1[0], color_flip(v.1[0].color))))
}

/// A subscript before a box sets its multiplicity; one after a multinumber sets the
/// multiplicity of its fourth row, the index of its variable.
pub open spec fn subscripted(v: (BoxKind, Seq<Row>), pos: IndexPos, index: nat) -> Result<
    (BoxKind, Seq<Row>),
    Failure,
> {
    match pos {
        IndexPos::Pre => Ok((v.0, v.1.update(0, row_with_mult(v.1[0], index)))),
        IndexPos::Post => if v.1[0].kind == BoxKind::Multinum {
            if v.1.len() > 3 {
                Ok((v.0, v.1.update(3, row_with_mult(v.1[3], index))))
            } else {
                Err(Failure::Error(EvalError::Unsupported))
            }
        } else {
            Ok(v)
        },
    }
}

/// The sum of two values.
pub open spec fn sum_value(l: (BoxKind, Seq<Row>), r: (BoxKind, Seq<Row>)) -> Result<(BoxKind, Seq<Row>), Failure> {
    if !can_add(l.0, r.0) {
        Err(Failure::Error(EvalError::TypeMismatch))
    } else if !add_fits(l.1, r.1) {
        Err(Failure::Error(EvalError::TooLarge))
    } else {
        let rows = variant_sum(l.1, l.0, r.1, r.0);
        Ok((variant_sum_tag(l.0, r.0, rows), rows))
    }
}

/// The product of two values.
pub open spec fn product_value(l: (BoxKind, Seq<Row>), r: (BoxKind, Seq<Row>)) -> Result<
    (BoxKind, Seq<Row>),
    Failure,
> {
    if !(can_mul(l.0, r.0) && mul_shapes(l.1, l.0, r.1, r.0)) {
        Err(Failure::Error(EvalError::TypeMismatch))
    } else if !(l.0 == BoxKind::Empty || r.0 == BoxKind::Empty || mul_fits(l.1, r.1)) {
        Err(Failure::Error(EvalError::TooLarge))
    } else {
        let rows = variant_product(l.1, l.0, r.1, r.0);
        Ok((variant_product_tag(l.0, r.0, rows), rows))
    }
}

/// The number minus one.
pub open spec fn minus_one() -> (BoxKind, Seq<Row>) {
    (BoxKind::Num, int_rows(-1))
}

/// The variant of a quotient or remainder.
pub open spec fn division_tag(lt: BoxKind, rows: Seq<Row>) -> BoxKind {
    if lt == BoxKind::Empty {
        BoxKind::Empty
    } else {
        rows[0].kind
    }
}

/// The quotient of two values.
pub open spec fn quotient_value(l: (BoxKind, Seq<Row>), r: (BoxKind, Seq<Row>)) -> Result<
    (BoxKind, Seq<Row>),
    Failure,
> {
    if !can_div(l.0, r.0) {
        Err(Failure::Error(EvalError::TypeMismatch))
    } else if !variant_div_defined(l.1, l.0, r.1, r.0) {
        Err(Failure::DivisionOutOfReach)
    } else {
        let rows = variant_quotient(l.1, l.0, r.1);
        Ok((division_tag(l.0, rows), rows))
    }
}

/// The remainder of two values.
pub open spec fn remainder_value(l: (BoxKind, Seq<Row>), r: (BoxKind, Seq<Row>)) -> Result<
    (BoxKind, Seq<Row>),
    Failure,
> {
    if !can_div(l.0, r.0) {
        Err(Failure::Error(EvalError::TypeMismatch))
    } else if !variant_div_defined(l.1, l.0, r.1, r.0) {
        Err(Failure::DivisionOutOfReach)
    } else {
        let rows = variant_remainder(l.1, l.0, r.1);
        Ok((division_tag(l.0, rows), rows))
    }
}

/// The value to the power `n`: one for zero, otherwise the value multiplied by itself
/// from the left, `n - 1` times.
pub open spec fn power_value(v: (BoxKind, Seq<Row>), n: nat) -> Result<(BoxKind, Seq<Row>), Failure>
    decreases n,
{
    if n == 0 {
        Ok((BoxKind::Num, one_rows(Color::Black)))
    } else if n == 1 {
        Ok(v)
    } else {
        match power_value(v, (n - 1) as nat) {
            Ok(acc) => product_value(acc, v),
            Err(f) => Err(f),
        }
    }
}

/// The set union of two values.
pub open spec fn union_value(l: (BoxKind, Seq<Row>), r: (BoxKind, Seq<Row>)) -> Result<
    (BoxKind, Seq<Row>),
    Failure,
> {
    if !(l.0 == BoxKind::SetBox && r.0 == BoxKind::SetBox) {
        Err(Failure::Error(EvalError::TypeMismatch))
    } else if l.1.len() + r.1.len() > u32::MAX {
        Err(Failure::Error(EvalError::TooLarge))
    } else {
        Ok((BoxKind::SetBox, choose|x: Seq<Row>| union_post(l.1, r.1, x)))
    }
}

/// The set intersection of two values.
pub open spec fn intersection_value(l: (BoxKind, Seq<Row>), r: (BoxKind, Seq<Row>)) -> Result<
    (BoxKind, Seq<Row>),
    Failure,
> {
    if !(l.0 == BoxKind::SetBox && r.0 == BoxKind::SetBox) {
        Err(Failure::Error(EvalError::TypeMismatch))
    } else {
        Ok((BoxKind::SetBox, choose|x: Seq<Row>| meet_post(l.1, r.1, x)))
    }
}

/// The unixel holding a value.
pub open spec fn unixel_value(v: (BoxKind, Seq<Row>)) -> Result<(BoxKind, Seq<Row>), Failure> {
    if v.1.len() >= u32::MAX {
        Err(Failure::Error(EvalError::TooLarge))
    } else {
        Ok((BoxKind::Unixel, unixel_rows(v.1)))
    }
}

/// The pixel holding two values.
pub open spec fn pixel_value(x: (BoxKind, Seq<Row>), y: (BoxKind, Seq<Row>)) -> Result<
    (BoxKind, Seq<Row>),
    Failure,
> {
    if x.1.len() + y.1.len() >= u32::MAX {
        Err(Failure::Error(EvalError::TooLarge))
    } else {
        Ok((BoxKind::Pixel, pixel_rows(x.1, y.1)))
    }
}

/// The rows of each value.
pub open spec fn rows_of(vs: Seq<(BoxKind, Seq<Row>)>) -> Seq<Seq<Row>> {
    Seq::new(vs.len(), |i: int| vs[i].1)
}

/// The box of the given kind, black and of multiplicity one, holding the values in order.
pub open spec fn gathered_value(kind: BoxKind, vs: Seq<(BoxKind, Seq<Row>)>) -> Result<
    (BoxKind, Seq<Row>),
    Failure,
> {
    if 1 + flatten(rows_of(vs)).len() > u32::MAX {
        Err(Failure::Error(EvalError::TooLarge))
    } else {
        Ok((kind, mk_box(head_row(kind, Color::Black, 1), rows_of(vs))))
    }
}

/// Every value has the variant.
pub open spec fn all_tagged(vs: Seq<(BoxKind, Seq<Row>)>, kind: BoxKind) -> bool {
    forall|i: int| 0 <= i < vs.len() ==> (#[trigger] vs[i]).0 == kind
}

/// The first row of every value has one of the three kinds.
pub open spec fn all_headed(vs: Seq<(BoxKind, Seq<Row>)>, a: BoxKind, b: BoxKind, c: BoxKind) -> bool {
    forall|i: int|
        0 <= i < vs.len() ==> {
            let k = (#[trigger] vs[i]).1[0].kind;
            k == a || k == b || k == c
        }
}

/// The number of black values less the number of red ones, by their first rows.
pub open spec fn signed_count(vs: Seq<(BoxKind, Seq<Row>)>) -> int
    decreases vs.len(),
{
    if vs.len() == 0 {
        0
    } else {
        signed_count(vs.drop_last()) + if vs.last().1[0].color == Color::Red {
            -1int
        } else {
            1int
        }
    }
}

/// The value of a box written with the given children.
pub open spec fn boxed_value(vs: Seq<(BoxKind, Seq<Row>)>) -> Result<(BoxKind, Seq<Row>), Failure> {
    if all_headed(vs, BoxKind::Empty, BoxKind::Empty, BoxKind::Empty) {
        if vs.len() == 1 {
            let m = vs[0].1[0].mult;
            if vs[0].1[0].color == Color::Red {
                if m == 0 {
                    Err(Failure::Error(EvalError::Unsupported))
                } else {
                    Ok((BoxKind::Num, int_rows(-(m as int))))
                }
            } else {
                Ok((BoxKind::Num, int_rows(m as int)))
            }
        } else {
            Ok((BoxKind::Num, int_rows(signed_count(vs))))
        }
    } else if all_headed(vs, BoxKind::Num, BoxKind::Empty, BoxKind::Empty) {
        gathered_value(BoxKind::Polynum, vs)
    } else if all_headed(vs, BoxKind::Polynum, BoxKind::Num, BoxKind::Empty) {
        gathered_value(BoxKind::Multinum, vs)
    } else if all_headed(vs, BoxKind::Unixel, BoxKind::Unixel, BoxKind::Unixel) {
        gathered_value(BoxKind::Vexel, vs)
    } else if all_headed(vs, BoxKind::Pixel, BoxKind::Pixel, BoxKind::Pixel) {
        gathered_value(BoxKind::Maxel, vs)
    } else {
        gathered_value(BoxKind::Any, vs)
    }
}

/// The derivative of a polynumber.
pub open spec fn derivative_value(v: (BoxKind, Seq<Row>)) -> Result<(BoxKind, Seq<Row>), Failure> {
    if v.0 != BoxKind::Polynum {
        Err(Failure::Error(EvalError::TypeMismatch))
    } else if !(poly_terms_readable(children(v.1)) && is_tree(poly_derivative(v.1))) {
        Err(Failure::Error(EvalError::Unsupported))
    } else {
        Ok((BoxKind::Polynum, poly_derivative(v.1)))
    }
}

/// The derivative of a multinumber along the variable of the index.
pub open spec fn multi_derivative_value(v: (BoxKind, Seq<Row>), index: nat) -> Result<
    (BoxKind, Seq<Row>),
    Failure,
> {
    if v.0 != BoxKind::Multinum {
        Err(Failure::Error(EvalError::TypeMismatch))
    } else if !(multi_terms_readable(children(v.1)) && is_tree(multi_derivative(v.1, index))) {
        Err(Failure::Error(EvalError::Unsupported))
    } else {
        Ok((BoxKind::Multinum, multi_derivative(v.1, index)))
    }
}

/// The values of a list of expressions, evaluated in order; the first failure ends it.
pub open spec fn eval_items(
    items: Seq<Expr>,
    env: Map<Seq<char>, (BoxKind, Seq<Row>, bool)>,
) -> Result<Seq<(BoxKind, Seq<Row>)>, Failure>
    decreases items, 0int,
{
    if items.len() == 0 {
        Ok(Seq::empty())
    } else {
        match eval_items(items.subrange(0, items.len() - 1), env) {
            Err(f) => Err(f),
            Ok(vs) => match eval_expr(items[items.len() - 1], env) {
                Err(f) => Err(f),
                Ok(v) => Ok(vs.push(v)),
            },
        }
    }
}

/// Applies `f` to the values of both operands, evaluated left to right.
pub open spec fn both(
    l: Result<(BoxKind, Seq<Row>), Failure>,
    r: Result<(BoxKind, Seq<Row>), Failure>,
) -> Result<((BoxKind, Seq<Row>), (BoxKind, Seq<Row>)), Failure> {
    match l {
        Err(f) => Err(f),
        Ok(a) => match r {
            Err(f) => Err(f),
            Ok(b) => Ok((a, b)),
        },
    }
}

/// The value of an expression, with the names bound as in `env`.
pub open spec fn eval_expr(e: Expr, env: Map<Seq<char>, (BoxKind, Seq<Row>, bool)>) -> Result<
    (BoxKind, Seq<Row>),
    Failure,
>
    decreases e, 1int,
{
    match e {
        Expr::Empty => Ok((BoxKind::Empty, leaf_rows(BoxKind::Empty, Color::Black))),
        Expr::Num(n) => Ok((BoxKind::Num, int_rows(n@ as int))),
        Expr::Var(s) => var_value(env, s@),
        Expr::Anti(a) => match eval_expr(*a, env) {
            Ok(v) => Ok(anti_value(v)),
            Err(f) => Err(f),
        },
        Expr::Subscript { pos, expr, index } => match eval_expr(*expr, env) {
            Ok(v) => subscripted(v, pos, index@),
            Err(f) => Err(f),
        },
        Expr::Neg(a) => match eval_expr(*a, env) {
            Ok(v) => product_value(minus_one(), v),
            Err(f) => Err(f),
        },
        Expr::Add(a, b) => match both(eval_expr(*a, env), eval_expr(*b, env)) {
            Ok((x, y)) => sum_value(x, y),
            Err(f) => Err(f),
        },
        Expr::Sub(a, b) => match both(eval_expr(*a, env), eval_expr(*b, env)) {
            Ok((x, y)) => match product_value(minus_one(), y) {
                Ok(z) => sum_value(x, z),
                Err(f) => Err(f),
            },
            Err(f) => Err(f),
        },
        Expr::Mul(a, b) => match both(eval_expr(*a, env), eval_expr(*b, env)) {
            Ok((x, y)) => product_value(x, y),
            Err(f) => Err(f),
        },
        Expr::Div(a, b) => match both(eval_expr(*a, env), eval_expr(*b, env)) {
            Ok((x, y)) => quotient_value(x, y),
            Err(f) => Err(f),
        },
        Expr::Rem(a, b) => match both(eval_expr(*a, env), eval_expr(*b, env)) {
            Ok((x, y)) => remainder_value(x, y),
            Err(f) => Err(f),
        },
        Expr::Caret(a, n) => match eval_expr(*a, env) {
            Ok(v) => power_value(v, n@),
            Err(f) => Err(f),
        },
        Expr::Intersection(a, b) => match both(eval_expr(*a, env), eval_expr(*b, env)) {
            Ok((x, y)) => intersection_value(x, y),
            Err(f) => Err(f),
        },
        Expr::Union(a, b) => match both(eval_expr(*a, env), eval_expr(*b, env)) {
            Ok((x, y)) => union_value(x, y),
            Err(f) => Err(f),
        },
        Expr::Unixel(a) => match eval_expr(*a, env) {
            Ok(v) => unixel_value(v),
            Err(f) => Err(f),
        },
        Expr::Pixel(a, b) => match both(eval_expr(*a, env), eval_expr(*b, env)) {
            Ok((x, y)) => pixel_value(x, y),
            Err(f) => Err(f),
        },
        Expr::Vexel(items) => match eval_items(items@, env) {
            Ok(vs) => if all_tagged(vs, BoxKind::Unixel) {
                gathered_value(BoxKind::Vexel, vs)
            } else {
                Err(Failure::Error(EvalError::TypeMismatch))
            },
            Err(f) => Err(f),
        },
        Expr::Maxel(items) => match eval_items(items@, env) {
            Ok(vs) => if all_tagged(vs, BoxKind::Pixel) {
                gathered_value(BoxKind::Maxel, vs)
            } else {
                Err(Failure::Error(EvalError::TypeMismatch))
            },
            Err(f) => Err(f),
        },
        Expr::Box(items) => match eval_items(items@, env) {
            Ok(vs) => boxed_value(vs),
            Err(f) => Err(f),
        },
        Expr::SetOf(items) => match eval_items(items@, env) {
            Ok(vs) => gathered_value(BoxKind::SetBox, vs),
            Err(f) => Err(f),
        },
        Expr::List(items) => match eval_items(items@, env) {
            Ok(vs) => gathered_value(BoxKind::List, vs),
            Err(f) => Err(f),
        },
        Expr::Der(a) => match eval_expr(*a, env) {
            Ok(v) => derivative_value(v),
            Err(f) => Err(f),
        },
        Expr::DerMulti(a, n) => match eval_expr(*a, env) {
            Ok(v) => multi_derivative_value(v, n@),
            Err(f) => Err(f),
        },
    }
}

/// Every name in the expression is bound in `env`.
pub open spec fn names_in(e: Expr, env: Map<Seq<char>, (BoxKind, Seq<Row>, bool)>) -> bool
    decreases e, 1int,
{
    match e {
        Expr::Empty => true,
        Expr::Num(_) => true,
        Expr::Var(s) => env.dom().contains(s@),
        Expr::Neg(a) => names_in(*a, env),
        Expr::Anti(a) => names_in(*a, env),
        Expr::Subscript { pos, expr, index } => names_in(*expr, env),
        Expr::Caret(a, _) => names_in(*a, env),
        Expr::Unixel(a) => names_in(*a, env),
        Expr::Der(a) => names_in(*a, env),
        Expr::DerMulti(a, _) => names_in(*a, env),
        Expr::Add(a, b) => names_in(*a, env) && names_in(*b, env),
        Expr::Sub(a, b) => names_in(*a, env) && names_in(*b, env),
        Expr::Mul(a, b) => names_in(*a, env) && names_in(*b, env),
        Expr::Div(a, b) => names_in(*a, env) && names_in(*b, env),
        Expr::Rem(a, b) => names_in(*a, env) && names_in(*b, env),
        Expr::Intersection(a, b) => names_in(*a, env) && names_in(*b, env),
        Expr::Union(a, b) => names_in(*a, env) && names_in(*b, env),
        Expr::Pixel(a, b) => names_in(*a, env) && names_in(*b, env),
        Expr::Box(items) => names_in_items(items@, env),
        Expr::SetOf(items) => names_in_items(items@, env),
        Expr::List(items) => names_in_items(items@, env),
        Expr::Vexel(items) => names_in_items(items@, env),
        Expr::Maxel(items) => names_in_items(items@, env),
    }
}

/// Every name in the expressions of the list is bound in `env`.
pub open spec fn names_in_items(items: Seq<Expr>, env: Map<Seq<char>, (BoxKind, Seq<Row>, bool)>) -> bool
    decreases items, 0int,
{
    if items.len() == 0 {
        true
    } else {
        names_in_items(items.subrange(0, items.len() - 1), env) && names_in(items[items.len() - 1], env)
    }
}

/// The result `r` reports the outcome `s`: the same value, or the same error.  Nothing is
/// claimed of a division out of reach, which the callers exclude.
pub open spec fn reports(r: Result<BoxVariant, EvalError>, s: Result<(BoxKind, Seq<Row>), Failure>) -> bool {
    match s {
        Ok(v) => r matches Ok(b) && b.wf() && b.tag() == v.0 && b@ == v.1,
        Err(Failure::Error(x)) => r == Err::<BoxVariant, EvalError>(x),
        Err(Failure::DivisionOutOfReach) => true,
        Err(Failure::Unbound) => true,
        Err(Failure::NotABox(v)) => r matches Ok(b) && b.tag() == v.0 && b@ == v.1 && b.inv() == v.2,
    }
}

/// The evaluation reaches neither a division out of reach, nor a name that no box is bound
/// to, nor a name bound to rows that are not a box.
pub open spec fn within_reach<T>(s: Result<T, Failure>) -> bool {
    &&& !(s matches Err(Failure::DivisionOutOfReach))
    &&& !(s matches Err(Failure::Unbound))
    &&& !(s matches Err(Failure::NotABox(_)))
}

/// The variant and rows of a box.
pub open spec fn value_of(b: BoxVariant) -> (BoxKind, Seq<Row>) {
    (b.tag(), b@)
}

/// The variant of a box.
fn tag_of(v: &BoxVariant) -> (k: BoxKind)
    ensures
        k == v.tag(),
{
    match v {
        BoxVariant::Any(_) => BoxKind::Any,
        BoxVariant::Empty(_) => BoxKind::Empty,
        BoxVariant::Num(_) => BoxKind::Num,
        BoxVariant::Polynum(_) => BoxKind::Polynum,
        BoxVariant::Multinum(_) => BoxKind::Multinum,
        BoxVariant::Unixel(_) => BoxKind::Unixel,
        BoxVariant::Vexel(_) => BoxKind::Vexel,
        BoxVariant::Pixel(_) => BoxKind::Pixel,
        BoxVariant::Maxel(_) => BoxKind::Maxel,
        BoxVariant::SetBox(_) => BoxKind::SetBox,
        BoxVariant::List(_) => BoxKind::List,
    }
}

fn numeric(k: BoxKind) -> (r: bool)
    ensures
        r == (k == BoxKind::Num || k == BoxKind::Polynum || k == BoxKind::Multinum),
{
    k == BoxKind::Num || k == BoxKind::Polynum || k == BoxKind::Multinum
}

/// Every child of the box is a box with at least `m` children.
pub open spec fn children_have(p: Seq<Row>, m: nat) -> bool {
    forall|i: int|
        0 <= i < children(p).len() ==> is_tree(#[trigger] children(p)[i]) && children(children(p)[i]).len() >= m
}

fn check_children(v: &BoxVariant, m: usize) -> (r: bool)
    requires
        v.wf(),
    ensures
        r == children_have(v@, m as nat),
{
    let raw = v.duplicate().into_any_raw();
    let cs = child_boxes(&raw);
    proof {
        lemma_tree_split(v@);
    }
    let mut i: usize = 0;
    while i < cs.len()
        invariant
            0 <= i <= cs@.len(),
            views(cs@) == children(v@),
            all_inv(cs@),
            all_trees(children(v@)),
            forall|j: int| 0 <= j < i ==> #[trigger] children(children(v@)[j]).len() >= m,
        decreases cs.len() - i,
    {
        proof {
            assert(views(cs@)[i as int] == cs@[i as int]@);
            assert(cs@[i as int].inv());
        }
        let gs = child_boxes(&cs[i]);
        if gs.len() < m {
            proof {
                assert(views(gs@).len() == gs@.len());
            }
            return false;
        }
        proof {
            assert(views(gs@).len() == gs@.len());
        }
        i = i + 1;
    }
    true
}

fn check_mul_shapes(l: &BoxVariant, r: &BoxVariant, lt: BoxKind, rt: BoxKind) -> (ok: bool)
    requires
        l.wf(),
        r.wf(),
        lt == l.tag(),
        rt == r.tag(),
    ensures
        ok == mul_shapes(l@, lt, r@, rt),
{
    proof {
        assert(all_pixels(l@) == children_have(l@, 2));
        assert(all_pixels(r@) == children_have(r@, 2));
        assert(all_unixels(r@) == children_have(r@, 1));
    }
    if lt == BoxKind::Maxel && rt == BoxKind::Maxel {
        check_children(l, 2) && check_children(r, 2)
    } else if lt == BoxKind::Maxel && rt == BoxKind::Vexel {
        check_children(l, 2) && check_children(r, 1)
    } else {
        true
    }
}

fn check_mul_fits(ln: usize, rn: usize) -> (ok: bool)
    ensures
        ok == (ln * rn * (ln + rn) < u32::MAX),
{
    if ln == 0 || rn == 0 {
        proof {
            assert(ln * rn == 0) by (nonlinear_arith)
                requires
                    ln == 0 || rn == 0,
            ;
        }
        return true;
    }
    if ln as u64 > 0xffff_ffff || rn as u64 > 0xffff_ffff {
        proof {
            assert(ln * rn * (ln + rn) >= 0x1_0000_0000) by (nonlinear_arith)
                requires
                    ln >= 1,
                    rn >= 1,
                    ln > 0xffff_ffff || rn > 0xffff_ffff,
            ;
        }
        return false;
    }
    let a = ln as u128;
    let b = rn as u128;
    proof {
        assert(a * b <= 0xffff_ffff * 0xffff_ffff) by (nonlinear_arith)
            requires
                a <= 0xffff_ffff,
                b <= 0xffff_ffff,
        ;
        assert(a * b * (a + b) <= 0xffff_ffff * 0xffff_ffff * 0x1_ffff_fffe) by (nonlinear_arith)
            requires
                a * b <= 0xffff_ffff * 0xffff_ffff,
                a + b <= 0x1_ffff_fffe,
        ;
    }
    a * b * (a + b) < 0xffff_ffff
}

fn sum_exec(l: BoxVariant, r: BoxVariant) -> (out: Result<BoxVariant, EvalError>)
    requires
        l.wf(),
        r.wf(),
    ensures
        reports(out, sum_value(value_of(l), value_of(r))),
{
    let lt = tag_of(&l);
    let rt = tag_of(&r);
    let addable = lt == BoxKind::Empty || rt == BoxKind::Empty || (numeric(lt) && numeric(rt)) || (lt
        == BoxKind::Vexel && rt == BoxKind::Vexel) || (lt == BoxKind::Maxel && rt == BoxKind::Maxel);
    if !addable {
        return Err(EvalError::TypeMismatch);
    }
    let ln = l.rows() as u64;
    let rn = r.rows() as u64;
    if ln + rn >= 0xffff_ffff {
        return Err(EvalError::TooLarge);
    }
    Ok(l.add(r))
}

fn product_exec(l: BoxVariant, r: BoxVariant) -> (out: Result<BoxVariant, EvalError>)
    requires
        l.wf(),
        r.wf(),
    ensures
        reports(out, product_value(value_of(l), value_of(r))),
{
    let lt = tag_of(&l);
    let rt = tag_of(&r);
    let multipliable = lt == BoxKind::Empty || rt == BoxKind::Empty || (numeric(lt) && numeric(rt)) || (lt
        == BoxKind::Maxel && (rt == BoxKind::Maxel || rt == BoxKind::Vexel));
    if !(multipliable && check_mul_shapes(&l, &r, lt, rt)) {
        return Err(EvalError::TypeMismatch);
    }
    if !(lt == BoxKind::Empty || rt == BoxKind::Empty || check_mul_fits(l.rows(), r.rows())) {
        return Err(EvalError::TooLarge);
    }
    Ok(l.mul(r))
}

fn minus_one_exec() -> (r: BoxVariant)
    ensures
        r.wf(),
        value_of(r) == minus_one(),
{
    BoxVariant::Num(BoxValue::<NumBox>::from_i32(-1))
}

fn quotient_exec(l: BoxVariant, r: BoxVariant, rem: bool) -> (out: Result<BoxVariant, EvalError>)
    requires
        l.wf(),
        r.wf(),
        !rem ==> within_reach(quotient_value(value_of(l), value_of(r))),
        rem ==> within_reach(remainder_value(value_of(l), value_of(r))),
    ensures
        !rem ==> reports(out, quotient_value(value_of(l), value_of(r))),
        rem ==> reports(out, remainder_value(value_of(l), value_of(r))),
{
    let lt = tag_of(&l);
    let rt = tag_of(&r);
    let divisible = lt == BoxKind::Empty || (rt != BoxKind::Empty && ((lt == BoxKind::Any && rt
        == BoxKind::Any) || (numeric(lt) && numeric(rt))));
    if !divisible {
        return Err(EvalError::TypeMismatch);
    }
    if rem {
        Ok(l.rem(r))
    } else {
        Ok(l.div(r))
    }
}

/// Once a power fails, every higher power fails the same way.
proof fn lemma_power_failure(v: (BoxKind, Seq<Row>), k: nat, m: nat)
    requires
        1 <= k <= m,
        power_value(v, k) is Err,
    ensures
        power_value(v, m) == power_value(v, k),
    decreases m - k,
{
    if m > k {
        lemma_power_failure(v, k, (m - 1) as nat);
    }
}

fn power_exec(v: BoxVariant, n: &Natural) -> (out: Result<BoxVariant, EvalError>)
    requires
        v.wf(),
    ensures
        reports(out, power_value(value_of(v), n@)),
{
    if n.is_zero() {
        return Ok(BoxVariant::one());
    }
    let ghost x = value_of(v);
    let one = Natural::one();
    let mut acc = v.duplicate();
    let mut i = n.copy();
    while one.lt(&i)
        invariant
            v.wf(),
            x == value_of(v),
            one@ == 1,
            1 <= i@ <= n@,
            acc.wf(),
            power_value(x, (n@ - i@ + 1) as nat) == Ok::<(BoxKind, Seq<Row>), Failure>(value_of(acc)),
        decreases i@,
    {
        let ghost k = (n@ - i@ + 1) as nat;
        let d = v.duplicate();
        match product_exec(acc, d) {
            Ok(b) => {
                acc = b;
            },
            Err(e) => {
                proof {
                    assert(power_value(x, k + 1) is Err);
                    lemma_power_failure(x, k + 1, n@);
                }
                return Err(e);
            },
        }
        i = i.saturating_sub(&one);
    }
    Ok(acc)
}

fn union_exec(l: BoxVariant, r: BoxVariant, meet: bool) -> (out: Result<BoxVariant, EvalError>)
    requires
        l.wf(),
        r.wf(),
    ensures
        !meet ==> reports(out, union_value(value_of(l), value_of(r))),
        meet ==> reports(out, intersection_value(value_of(l), value_of(r))),
{
    let lt = tag_of(&l);
    let rt = tag_of(&r);
    if !(lt == BoxKind::SetBox && rt == BoxKind::SetBox) {
        return Err(EvalError::TypeMismatch);
    }
    let ghost lv = l@;
    let ghost rv = r@;
    if meet {
        let m = l.intersection(r);
        proof {
            let x = choose|x: Seq<Row>| meet_post(lv, rv, x);
            lemma_meet_determined(lv, rv, m@, x);
        }
        Ok(m)
    } else {
        let ln = l.rows() as u64;
        let rn = r.rows() as u64;
        if ln + rn > 0xffff_ffff {
            return Err(EvalError::TooLarge);
        }
        let u = l.union(r);
        proof {
            let x = choose|x: Seq<Row>| union_post(lv, rv, x);
            lemma_union_determined(lv, rv, u@, x);
        }
        Ok(u)
    }
}

fn unixel_exec(v: BoxVariant) -> (out: Result<BoxVariant, EvalError>)
    requires
        v.wf(),
    ensures
        reports(out, unixel_value(value_of(v))),
{
    let n = v.rows() as u64;
    if n >= 0xffff_ffff {
        return Err(EvalError::TooLarge);
    }
    Ok(BoxVariant::Unixel(BoxValue::<UnixelBox>::unixel(v.into_any_raw())))
}

fn pixel_exec(x: BoxVariant, y: BoxVariant) -> (out: Result<BoxVariant, EvalError>)
    requires
        x.wf(),
        y.wf(),
    ensures
        reports(out, pixel_value(value_of(x), value_of(y))),
{
    let xn = x.rows() as u64;
    let yn = y.rows() as u64;
    if xn + yn >= 0xffff_ffff {
        return Err(EvalError::TooLarge);
    }
    Ok(BoxVariant::Pixel(BoxValue::<PixelBox>::pixel(x.into_any_raw(), y.into_any_raw())))
}

/// The variant and rows of each box.
pub open spec fn values_of(v: Seq<BoxVariant>) -> Seq<(BoxKind, Seq<Row>)> {
    Seq::new(v.len(), |i: int| value_of(v[i]))
}

/// Every box is well formed.
pub open spec fn all_wf(v: Seq<BoxVariant>) -> bool {
    forall|i: int| 0 <= i < v.len() ==> (#[trigger] v[i]).wf()
}

/// The number of rows of all the boxes, or `None` when it passes the largest row length.
fn total_rows(vs: &Vec<BoxVariant>) -> (r: Option<u64>)
    requires
        all_wf(vs@),
    ensures
        r matches Some(n) ==> n == flatten(rows_of(values_of(vs@))).len() && n <= u32::MAX,
        r is None ==> flatten(rows_of(values_of(vs@))).len() > u32::MAX,
{
    let ghost rs = rows_of(values_of(vs@));
    let mut acc: u64 = 0;
    let mut i: usize = 0;
    while i < vs.len()
        invariant
            0 <= i <= vs@.len(),
            all_wf(vs@),
            rs == rows_of(values_of(vs@)),
            acc == flatten(rs.take(i as int)).len(),
            acc <= u32::MAX,
        decreases vs.len() - i,
    {
        proof {
            assert(vs@[i as int].inv());
            assert(rs.take(i + 1) =~= rs.take(i as int).push(rs[i as int]));
            crate::model::lemma_flatten_push(rs.take(i as int), rs[i as int]);
        }
        let n = vs[i].rows() as u64;
        if acc + n > 0xffff_ffff {
            proof {
                assert(rs =~= rs.take(i + 1) + rs.skip(i + 1));
                crate::model::lemma_flatten_append(rs.take(i + 1), rs.skip(i + 1));
            }
            return None;
        }
        acc = acc + n;
        i = i + 1;
    }
    proof {
        assert(rs.take(i as int) =~= rs);
    }
    Some(acc)
}

fn gathered_exec(kind: BoxKind, vs: Vec<BoxVariant>) -> (out: Result<BoxVariant, EvalError>)
    requires
        all_wf(vs@),
    ensures
        reports(out, gathered_value(kind, values_of(vs@))),
{
    let ghost vals = values_of(vs@);
    match total_rows(&vs) {
        None => {
            return Err(EvalError::TooLarge);
        },
        Some(n) => {
            if n + 1 > 0xffff_ffff {
                return Err(EvalError::TooLarge);
            }
        },
    }
    let mut raws: Vec<BoxValue<AnyBox>> = Vec::new();
    let mut vs = vs;
    let ghost orig = vs@;
    let mut rest: Vec<BoxVariant> = Vec::new();
    while vs.len() > 0
        invariant
            vs@.len() + rest@.len() == orig.len(),
            vs@ == orig.take(vs@.len() as int),
            rest@ == orig.skip(vs@.len() as int).reverse(),
        decreases vs.len(),
    {
        let ghost before = vs@;
        let b = vs.pop().unwrap();
        rest.push(b);
        proof {
            assert(vs@ =~= orig.take(vs@.len() as int));
            assert(rest@ =~= orig.skip(vs@.len() as int).reverse()) by {
                assert forall|j: int| 0 <= j < rest@.len() implies rest@[j] == orig.skip(vs@.len() as int).reverse()[j] by {
                    if j < rest@.len() - 1 {
                        assert(rest@[j] == orig.skip(before.len() as int).reverse()[j]);
                    }
                }
            }
        }
    }
    while rest.len() > 0
        invariant
            raws@.len() + rest@.len() == orig.len(),
            rest@ == orig.skip(raws@.len() as int).reverse(),
            all_wf(orig),
            forall|j: int| 0 <= j < raws@.len() ==> (#[trigger] raws@[j]).inv() && raws@[j]@ == orig[j]@,
        decreases rest.len(),
    {
        let ghost k = raws@.len() as int;
        let b = rest.pop().unwrap();
        proof {
            assert(b == orig[k]);
            assert(orig[k].wf());
        }
        raws.push(b.into_any_raw());
        proof {
            assert(rest@ =~= orig.skip(raws@.len() as int).reverse());
        }
    }
    proof {
        assert(crate::maxel::views_of(raws@) =~= rows_of(vals));
        assert forall|j: int| 0 <= j < rows_of(vals).len() implies is_tree(#[trigger] rows_of(vals)[j]) by {
            assert(orig[j].wf());
        }
    }
    let g = crate::maxel::gather::<AnyBox, AnyBox>(kind, raws);
    proof {
        crate::model::lemma_mk_box(head_row(kind, Color::Black, 1), rows_of(vals));
    }
    Ok(BoxVariant::repack_raw(g))
}

fn heads_in(vs: &Vec<BoxVariant>, a: BoxKind, b: BoxKind, c: BoxKind) -> (r: bool)
    requires
        all_wf(vs@),
    ensures
        r == all_headed(values_of(vs@), a, b, c),
{
    let mut i: usize = 0;
    while i < vs.len()
        invariant
            0 <= i <= vs@.len(),
            all_wf(vs@),
            all_headed(values_of(vs@).take(i as int), a, b, c),
        decreases vs.len() - i,
    {
        proof {
            assert(vs@[i as int].wf());
            crate::model::lemma_tree_basics(vs@[i as int]@);
        }
        let k = vs[i].get_kind(0);
        if !(k == a || k == b || k == c) {
            proof {
                assert(values_of(vs@)[i as int].1[0].kind == k);
            }
            return false;
        }
        proof {
            assert forall|j: int| 0 <= j < i + 1 implies {
                let h = (#[trigger] values_of(vs@).take(i + 1)[j]).1[0].kind;
                h == a || h == b || h == c
            } by {
                if j < i {
                    assert(values_of(vs@).take(i + 1)[j] == values_of(vs@).take(i as int)[j]);
                }
            }
        }
        i = i + 1;
    }
    proof {
        assert(values_of(vs@).take(i as int) =~= values_of(vs@));
    }
    true
}

/// The blacks less the reds, counted in two parts.
proof fn lemma_signed_count(vs: Seq<(BoxKind, Seq<Row>)>, i: int, blacks: nat, reds: nat)
    requires
        0 <= i < vs.len(),
        signed_count(vs.take(i)) == blacks - reds,
    ensures
        signed_count(vs.take(i + 1)) == blacks - reds + if vs[i].1[0].color == Color::Red {
            -1int
        } else {
            1int
        },
{
    assert(vs.take(i + 1).drop_last() =~= vs.take(i));
}

fn count_signs(vs: &Vec<BoxVariant>) -> (r: (usize, usize))
    requires
        all_wf(vs@),
    ensures
        r.0 + r.1 == vs@.len(),
        signed_count(values_of(vs@)) == r.0 - r.1,
{
    let mut blacks: usize = 0;
    let mut reds: usize = 0;
    let mut i: usize = 0;
    while i < vs.len()
        invariant
            0 <= i <= vs@.len(),
            blacks + reds == i,
            all_wf(vs@),
            signed_count(values_of(vs@).take(i as int)) == blacks - reds,
        decreases vs.len() - i,
    {
        proof {
            assert(vs@[i as int].wf());
            crate::model::lemma_tree_basics(vs@[i as int]@);
            lemma_signed_count(values_of(vs@), i as int, blacks as nat, reds as nat);
        }
        if vs[i].get_color(0) == Color::Red {
            reds = reds + 1;
        } else {
            blacks = blacks + 1;
        }
        i = i + 1;
    }
    proof {
        assert(values_of(vs@).take(i as int) =~= values_of(vs@));
    }
    (blacks, reds)
}

fn boxed_exec(vs: Vec<BoxVariant>) -> (out: Result<BoxVariant, EvalError>)
    requires
        all_wf(vs@),
    ensures
        reports(out, boxed_value(values_of(vs@))),
{
    let ghost vals = values_of(vs@);
    if heads_in(&vs, BoxKind::Empty, BoxKind::Empty, BoxKind::Empty) {
        if vs.len() == 1 {
            proof {
                assert(vs@[0].wf());
                crate::model::lemma_tree_basics(vs@[0]@);
            }
            let m = vs[0].get_multiplicity(0);
            if vs[0].get_color(0) == Color::Red {
                if m.is_zero() {
                    return Err(EvalError::Unsupported);
                }
                return Ok(BoxVariant::Num(BoxValue::<NumBox>::from_sign_abs(true, m)));
            }
            return Ok(BoxVariant::Num(BoxValue::<NumBox>::from_natural(m)));
        }
        let (blacks, reds) = count_signs(&vs);
        let b = BoxValue::<NumBox>::from_sign_abs(reds > blacks, if reds > blacks {
            Natural::from_u64((reds - blacks) as u64)
        } else {
            Natural::from_u64((blacks - reds) as u64)
        });
        return Ok(BoxVariant::Num(b));
    }
    if heads_in(&vs, BoxKind::Num, BoxKind::Empty, BoxKind::Empty) {
        return gathered_exec(BoxKind::Polynum, vs);
    }
    if heads_in(&vs, BoxKind::Polynum, BoxKind::Num, BoxKind::Empty) {
        return gathered_exec(BoxKind::Multinum, vs);
    }
    if heads_in(&vs, BoxKind::Unixel, BoxKind::Unixel, BoxKind::Unixel) {
        return gathered_exec(BoxKind::Vexel, vs);
    }
    if heads_in(&vs, BoxKind::Pixel, BoxKind::Pixel, BoxKind::Pixel) {
        return gathered_exec(BoxKind::Maxel, vs);
    }
    gathered_exec(BoxKind::Any, vs)
}

/// Whether every child of the box whose first row has the kind has at least `min` rows.
fn terms_have_rows(v: &BoxVariant, kind: BoxKind, min: usize) -> (r: bool)
    requires
        v.wf(),
    ensures
        r == forall|i: int|
            0 <= i < children(v@).len() && (#[trigger] children(v@)[i])[0].kind == kind ==> children(v@)[i].len() >= min,
{
    let raw = v.duplicate().into_any_raw();
    let cs = child_boxes(&raw);
    proof {
        lemma_tree_split(v@);
    }
    let mut i: usize = 0;
    while i < cs.len()
        invariant
            0 <= i <= cs@.len(),
            views(cs@) == children(v@),
            all_inv(cs@),
            all_trees(children(v@)),
            forall|j: int|
                0 <= j < i && (#[trigger] children(v@)[j])[0].kind == kind ==> children(v@)[j].len() >= min,
        decreases cs.len() - i,
    {
        proof {
            assert(views(cs@)[i as int] == cs@[i as int]@);
            assert(cs@[i as int].inv());
            assert(is_tree(children(v@)[i as int]));
            crate::model::lemma_tree_basics(children(v@)[i as int]);
        }
        if cs[i].get_kind(0) == kind && cs[i].rows() < min {
            return false;
        }
        i = i + 1;
    }
    true
}

fn derivative_exec(v: BoxVariant) -> (out: Result<BoxVariant, EvalError>)
    requires
        v.wf(),
    ensures
        reports(out, derivative_value(value_of(v))),
{
    if !terms_have_rows(&v, BoxKind::Num, 2) {
        if tag_of(&v) != BoxKind::Polynum {
            return Err(EvalError::TypeMismatch);
        }
        return Err(EvalError::Unsupported);
    }
    match v {
        BoxVariant::Polynum(p) => {
            let d = p.derivative();
            if d.is_box() {
                Ok(BoxVariant::Polynum(d))
            } else {
                Err(EvalError::Unsupported)
            }
        },
        _ => Err(EvalError::TypeMismatch),
    }
}

fn multi_derivative_exec(v: BoxVariant, index: &Natural) -> (out: Result<BoxVariant, EvalError>)
    requires
        v.wf(),
    ensures
        reports(out, multi_derivative_value(value_of(v), index@)),
{
    if !terms_have_rows(&v, BoxKind::Polynum, 3) {
        if tag_of(&v) != BoxKind::Multinum {
            return Err(EvalError::TypeMismatch);
        }
        return Err(EvalError::Unsupported);
    }
    match v {
        BoxVariant::Multinum(p) => {
            let d = p.derivative(index.copy());
            if d.is_box() {
                Ok(BoxVariant::Multinum(d))
            } else {
                Err(EvalError::Unsupported)
            }
        },
        _ => Err(EvalError::TypeMismatch),
    }
}

fn anti_exec(v: BoxVariant) -> (out: BoxVariant)
    requires
        v.wf(),
    ensures
        out.wf(),
        value_of(out) == anti_value(value_of(v)),
{
    proof {
        crate::model::lemma_tree_basics(v@);
    }
    let ghost before = v@;
    let r = v.into_anti();
    proof {
        assert(crate::model::same_lens(before, r@));
        crate::model::lemma_same_lens_tree(before, r@);
    }
    r
}

fn subscript_exec(v: BoxVariant, pos: IndexPos, index: &Natural) -> (out: Result<BoxVariant, EvalError>)
    requires
        v.wf(),
    ensures
        reports(out, subscripted(value_of(v), pos, index@)),
{
    proof {
        crate::model::lemma_tree_basics(v@);
    }
    let ghost before = v@;
    let mut v = v;
    let at: usize = match pos {
        IndexPos::Pre => 0,
        IndexPos::Post => {
            if v.get_kind(0) != BoxKind::Multinum {
                return Ok(v);
            }
            if v.rows() <= 3 {
                return Err(EvalError::Unsupported);
            }
            3
        },
    };
    v.set_multiplicity(at, index.copy());
    proof {
        assert(crate::model::same_lens(before, v@));
        crate::model::lemma_same_lens_tree(before, v@);
    }
    Ok(v)
}

fn var_exec(store: &BoxStore, name: &String) -> (out: Result<BoxVariant, EvalError>)
    requires
        store.env().dom().contains(name@),
    ensures
        reports(out, var_value(store.env(), name@)),
{
    Ok(store.fetch_box_by_name(name.as_str()).unwrap())
}

pub(crate) fn variant_is_box(v: &BoxVariant) -> (r: bool)
    ensures
        r == v.wf(),
{
    match v {
        BoxVariant::Any(b) => b.is_box(),
        BoxVariant::Empty(b) => b.is_box(),
        BoxVariant::Num(b) => b.is_box(),
        BoxVariant::Polynum(b) => b.is_box(),
        BoxVariant::Multinum(b) => b.is_box(),
        BoxVariant::Unixel(b) => b.is_box(),
        BoxVariant::Vexel(b) => b.is_box(),
        BoxVariant::Pixel(b) => b.is_box(),
        BoxVariant::Maxel(b) => b.is_box(),
        BoxVariant::SetBox(b) => b.is_box(),
        BoxVariant::List(b) => b.is_box(),
    }
}

/// A failure among the first items is the failure of the whole list.
proof fn lemma_items_failure(items: Seq<Expr>, env: Map<Seq<char>, (BoxKind, Seq<Row>, bool)>, k: int)
    requires
        0 <= k <= items.len(),
        eval_items(items.take(k), env) is Err,
    ensures
        eval_items(items, env) == eval_items(items.take(k), env),
    decreases items.len() - k,
{
    if k < items.len() {
        assert(items.take(k + 1).subrange(0, k) =~= items.take(k));
        assert(eval_items(items.take(k + 1), env) == eval_items(items.take(k), env));
        lemma_items_failure(items, env, k + 1);
    } else {
        assert(items.take(k) =~= items);
    }
}

/// The results `r` report the outcome `s` of a list.
pub open spec fn reports_items(r: Result<Vec<BoxVariant>, EvalError>, s: Result<Seq<(BoxKind, Seq<Row>)>, Failure>) -> bool {
    match s {
        Ok(vs) => r matches Ok(bs) && all_wf(bs@) && values_of(bs@) == vs,
        Err(Failure::Error(x)) => r == Err::<Vec<BoxVariant>, EvalError>(x),
        _ => true,
    }
}

/// A power fails only as a product does: never for want of a name.
proof fn lemma_power_named(v: (BoxKind, Seq<Row>), n: nat)
    ensures
        !(power_value(v, n) matches Err(Failure::Unbound)),
    decreases n,
{
    if n > 1 {
        lemma_power_named(v, (n - 1) as nat);
    }
}

/// Where every name is bound, the evaluation reaches no name without a box.
pub proof fn lemma_names_bound(e: Expr, env: Map<Seq<char>, (BoxKind, Seq<Row>, bool)>)
    requires
        names_in(e, env),
    ensures
        !(eval_expr(e, env) matches Err(Failure::Unbound)),
    decreases e, 1int,
{
    match e {
        Expr::Neg(a) => lemma_names_bound(*a, env),
        Expr::Anti(a) => lemma_names_bound(*a, env),
        Expr::Subscript { pos, expr, index } => lemma_names_bound(*expr, env),
        Expr::Caret(a, n) => {
            lemma_names_bound(*a, env);
            match eval_expr(*a, env) {
                Ok(v) => lemma_power_named(v, n@),
                Err(f) => {},
            }
        },
        Expr::Unixel(a) => lemma_names_bound(*a, env),
        Expr::Der(a) => lemma_names_bound(*a, env),
        Expr::DerMulti(a, _) => lemma_names_bound(*a, env),
        Expr::Add(a, b) => {
            lemma_names_bound(*a, env);
            lemma_names_bound(*b, env);
        },
        Expr::Sub(a, b) => {
            lemma_names_bound(*a, env);
            lemma_names_bound(*b, env);
        },
        Expr::Mul(a, b) => {
            lemma_names_bound(*a, env);
            lemma_names_bound(*b, env);
        },
        Expr::Div(a, b) => {
            lemma_names_bound(*a, env);
            lemma_names_bound(*b, env);
        },
        Expr::Rem(a, b) => {
            lemma_names_bound(*a, env);
            lemma_names_bound(*b, env);
        },
        Expr::Intersection(a, b) => {
            lemma_names_bound(*a, env);
            lemma_names_bound(*b, env);
        },
        Expr::Union(a, b) => {
            lemma_names_bound(*a, env);
            lemma_names_bound(*b, env);
        },
        Expr::Pixel(a, b) => {
            lemma_names_bound(*a, env);
            lemma_names_bound(*b, env);
        },
        Expr::Box(items) => lemma_items_named(items@, env),
        Expr::SetOf(items) => lemma_items_named(items@, env),
        Expr::List(items) => lemma_items_named(items@, env),
        Expr::Vexel(items) => lemma_items_named(items@, env),
        Expr::Maxel(items) => lemma_items_named(items@, env),
        _ => {},
    }
}

proof fn lemma_items_named(items: Seq<Expr>, env: Map<Seq<char>, (BoxKind, Seq<Row>, bool)>)
    requires
        names_in_items(items, env),
    ensures
        !(eval_items(items, env) matches Err(Failure::Unbound)),
    decreases items, 0int,
{
    if items.len() > 0 {
        lemma_items_named(items.subrange(0, items.len() - 1), env);
        lemma_names_bound(items[items.len() - 1], env);
    }
}

fn names_bound_all(items: &Vec<Expr>, store: &BoxStore) -> (r: bool)
    ensures
        r == names_in_items(items@, store.env()),
    decreases items@, 0int,
{
    let mut i: usize = 0;
    proof {
        assert(items@.take(0).len() == 0);
    }
    while i < items.len()
        invariant
            0 <= i <= items@.len(),
            names_in_items(items@.take(i as int), store.env()),
        decreases items@.len() - i,
    {
        let ghost t = items@.take(i + 1);
        proof {
            assert(t.subrange(0, i as int) =~= items@.take(i as int));
            assert(t[i as int] == items@[i as int]);
        }
        if !items[i].names_bound(store) {
            proof {
                lemma_names_prefix(items@, store.env(), i + 1);
            }
            return false;
        }
        i = i + 1;
    }
    proof {
        assert(items@.take(i as int) =~= items@);
    }
    true
}

/// A list whose names are bound has its names bound in each prefix.
proof fn lemma_names_prefix(items: Seq<Expr>, env: Map<Seq<char>, (BoxKind, Seq<Row>, bool)>, k: int)
    requires
        0 <= k <= items.len(),
        !names_in_items(items.take(k), env),
    ensures
        !names_in_items(items, env),
    decreases items.len() - k,
{
    if k < items.len() {
        assert(items.take(k + 1).subrange(0, k) =~= items.take(k));
        lemma_names_prefix(items, env, k + 1);
    } else {
        assert(items.take(k) =~= items);
    }
}

fn eval_all(items: &Vec<Expr>, store: &BoxStore) -> (r: Result<Vec<BoxVariant>, EvalError>)
    requires
        within_reach(eval_items(items@, store.env())),
    ensures
        reports_items(r, eval_items(items@, store.env())),
    decreases items@, 0int,
{
    let ghost env = store.env();
    let mut out: Vec<BoxVariant> = Vec::new();
    let mut i: usize = 0;
    proof {
        assert(items@.take(0).len() == 0);
        assert(values_of(out@) =~= Seq::<(BoxKind, Seq<Row>)>::empty());
    }
    while i < items.len()
        invariant
            0 <= i <= items@.len(),
            env == store.env(),
            within_reach(eval_items(items@, env)),
            all_wf(out@),
            eval_items(items@.take(i as int), env) == Ok::<Seq<(BoxKind, Seq<Row>)>, Failure>(values_of(out@)),
        decreases items@.len() - i,
    {
        let ghost t = items@.take(i + 1);
        proof {
            assert(t.subrange(0, i as int) =~= items@.take(i as int));
            assert(t[i as int] == items@[i as int]);
            if !within_reach(eval_expr(items@[i as int], env)) {
                lemma_items_failure(items@, env, i + 1);
            }
        }
        let ghost old_out = out@;
        match items[i].eval(store) {
            Ok(b) => {
                out.push(b);
                proof {
                    assert(out@ == old_out.push(b));
                    assert(values_of(out@) =~= values_of(old_out).push(value_of(b)));
                }
            },
            Err(e) => {
                proof {
                    lemma_items_failure(items@, env, i + 1);
                }
                return Err(e);
            },
        }
        i = i + 1;
    }
    proof {
        assert(items@.take(i as int) =~= items@);
    }
    Ok(out)
}

/// The expression applies an operation to two operands.
pub open spec fn binary_form(e: Expr) -> bool {
    match e {
        Expr::Add(..) | Expr::Sub(..) | Expr::Mul(..) | Expr::Div(..) | Expr::Rem(..) | Expr::Intersection(..)
        | Expr::Union(..) | Expr::Pixel(..) => true,
        _ => false,
    }
}

/// The expression is written with a list of operands.
pub open spec fn list_form(e: Expr) -> bool {
    match e {
        Expr::Vexel(..) | Expr::Maxel(..) | Expr::Box(..) | Expr::SetOf(..) | Expr::List(..) => true,
        _ => false,
    }
}

/// The left operand of an expression with two operands.
pub open spec fn left_of(e: Expr) -> Expr {
    match e {
        Expr::Add(a, _) | Expr::Sub(a, _) | Expr::Mul(a, _) | Expr::Div(a, _) | Expr::Rem(a, _)
        | Expr::Intersection(a, _) | Expr::Union(a, _) | Expr::Pixel(a, _) => *a,
        _ => e,
    }
}

/// The right operand of an expression with two operands.
pub open spec fn right_of(e: Expr) -> Expr {
    match e {
        Expr::Add(_, b) | Expr::Sub(_, b) | Expr::Mul(_, b) | Expr::Div(_, b) | Expr::Rem(_, b)
        | Expr::Intersection(_, b) | Expr::Union(_, b) | Expr::Pixel(_, b) => *b,
        _ => e,
    }
}

impl Expr {
    /// The value of the expression, with names bound as in the store.  The evaluation must
    /// not reach a division that does not finish, nor a name that the store does not bind.
    /// A name alone gives the box bound to it as it is stored; inside an operation it must be
    /// bound to a box.  The other failures give their own errors.
    #[verifier::spinoff_prover]
    #[verifier::rlimit(40)]
    pub fn eval(&self, store: &BoxStore) -> (r: Result<BoxVariant, EvalError>)
        requires
            within_reach(eval_expr(*self, store.env())) || (*self matches Expr::Var(s)
                && store.env().dom().contains(s@)),
        ensures
            reports(r, eval_expr(*self, store.env())),
        decreases self, 2int,
    {
        match self {
            Expr::Empty => Ok(BoxVariant::zero()),
            Expr::Num(n) => Ok(BoxVariant::Num(BoxValue::<NumBox>::from_natural(n.copy()))),
            Expr::Var(s) => var_exec(store, s),
            Expr::Anti(a) => match a.eval(store) {
                Ok(v) => Ok(anti_exec(v)),
                Err(e) => Err(e),
            },
            Expr::Subscript { pos, expr, index } => match expr.eval(store) {
                Ok(v) => subscript_exec(v, *pos, index),
                Err(e) => Err(e),
            },
            Expr::Neg(a) => match a.eval(store) {
                Ok(v) => product_exec(minus_one_exec(), v),
                Err(e) => Err(e),
            },
            Expr::Caret(a, n) => match a.eval(store) {
                Ok(v) => power_exec(v, n),
                Err(e) => Err(e),
            },
            Expr::Unixel(a) => match a.eval(store) {
                Ok(v) => unixel_exec(v),
                Err(e) => Err(e),
            },
            Expr::Der(a) => match a.eval(store) {
                Ok(v) => derivative_exec(v),
                Err(e) => Err(e),
            },
            Expr::DerMulti(a, n) => match a.eval(store) {
                Ok(v) => multi_derivative_exec(v, n),
                Err(e) => Err(e),
            },
            Expr::Add(..) | Expr::Sub(..) | Expr::Mul(..) | Expr::Div(..) | Expr::Rem(..)
            | Expr::Intersection(..) | Expr::Union(..) | Expr::Pixel(..) => self.eval_binary(store),
            _ => self.eval_list(store),
        }
    }

    /// Every name in the expression is bound in the store: evaluating it reaches no name
    /// without a box.
    pub fn names_bound(&self, store: &BoxStore) -> (r: bool)
        ensures
            r == names_in(*self, store.env()),
        decreases self, 1int,
    {
        match self {
            Expr::Empty => true,
            Expr::Num(_) => true,
            Expr::Var(s) => store.fetch_box_by_name(s.as_str()).is_some(),
            Expr::Neg(a) => a.names_bound(store),
            Expr::Anti(a) => a.names_bound(store),
            Expr::Subscript { pos, expr, index } => expr.names_bound(store),
            Expr::Caret(a, _) => a.names_bound(store),
            Expr::Unixel(a) => a.names_bound(store),
            Expr::Der(a) => a.names_bound(store),
            Expr::DerMulti(a, _) => a.names_bound(store),
            Expr::Add(a, b) => a.names_bound(store) && b.names_bound(store),
            Expr::Sub(a, b) => a.names_bound(store) && b.names_bound(store),
            Expr::Mul(a, b) => a.names_bound(store) && b.names_bound(store),
            Expr::Div(a, b) => a.names_bound(store) && b.names_bound(store),
            Expr::Rem(a, b) => a.names_bound(store) && b.names_bound(store),
            Expr::Intersection(a, b) => a.names_bound(store) && b.names_bound(store),
            Expr::Union(a, b) => a.names_bound(store) && b.names_bound(store),
            Expr::Pixel(a, b) => a.names_bound(store) && b.names_bound(store),
            Expr::Box(items) => names_bound_all(items, store),
            Expr::SetOf(items) => names_bound_all(items, store),
            Expr::List(items) => names_bound_all(items, store),
            Expr::Vexel(items) => names_bound_all(items, store),
            Expr::Maxel(items) => names_bound_all(items, store),
        }
    }

    /// The values of the two operands, evaluated left to right.
    #[verifier::spinoff_prover]
    fn operands(&self, store: &BoxStore) -> (r: Result<(BoxVariant, BoxVariant), EvalError>)
        requires
            binary_form(*self),
            within_reach(both(eval_expr(left_of(*self), store.env()), eval_expr(right_of(*self), store.env()))),
        ensures
            match both(eval_expr(left_of(*self), store.env()), eval_expr(right_of(*self), store.env())) {
                Ok((x, y)) => r matches Ok((a, b)) && a.wf() && b.wf() && value_of(a) == x && value_of(b) == y,
                Err(Failure::Error(e)) => r == Err::<(BoxVariant, BoxVariant), EvalError>(e),
                _ => true,
            },
        decreases self, 0int,
    {
        let (a, b) = match self {
            Expr::Add(a, b) => (a, b),
            Expr::Sub(a, b) => (a, b),
            Expr::Mul(a, b) => (a, b),
            Expr::Div(a, b) => (a, b),
            Expr::Rem(a, b) => (a, b),
            Expr::Intersection(a, b) => (a, b),
            Expr::Union(a, b) => (a, b),
            Expr::Pixel(a, b) => (a, b),
            _ => {
                proof {
                    assert(false);
                }
                return Err(EvalError::Unsupported);
            },
        };
        match a.eval(store) {
            Err(e) => Err(e),
            Ok(x) => match b.eval(store) {
                Err(e) => Err(e),
                Ok(y) => Ok((x, y)),
            },
        }
    }

    /// The value of an expression with two operands.
    #[verifier::spinoff_prover]
    fn eval_binary(&self, store: &BoxStore) -> (r: Result<BoxVariant, EvalError>)
        requires
            binary_form(*self),
            within_reach(eval_expr(*self, store.env())),
        ensures
            reports(r, eval_expr(*self, store.env())),
        decreases self, 1int,
    {
        let (x, y) = match self.operands(store) {
            Err(e) => {
                return Err(e);
            },
            Ok(p) => p,
        };
        match self {
            Expr::Add(..) => sum_exec(x, y),
            Expr::Sub(..) => match product_exec(minus_one_exec(), y) {
                Err(e) => Err(e),
                Ok(z) => sum_exec(x, z),
            },
            Expr::Mul(..) => product_exec(x, y),
            Expr::Div(..) => quotient_exec(x, y, false),
            Expr::Rem(..) => quotient_exec(x, y, true),
            Expr::Intersection(..) => union_exec(x, y, true),
            Expr::Union(..) => union_exec(x, y, false),
            Expr::Pixel(..) => pixel_exec(x, y),
            _ => {
                proof {
                    assert(false);
                }
                Err(EvalError::Unsupported)
            },
        }
    }

    /// The value of an expression with a list of operands.
    #[verifier::spinoff_prover]
    #[verifier::rlimit(40)]
    fn eval_list(&self, store: &BoxStore) -> (r: Result<BoxVariant, EvalError>)
        requires
            list_form(*self),
            within_reach(eval_expr(*self, store.env())),
        ensures
            reports(r, eval_expr(*self, store.env())),
        decreases self, 1int,
    {
        match self {
            Expr::Vexel(items) => match eval_all(items, store) {
                Err(e) => Err(e),
                Ok(vs) => {
                    if heads_tagged(&vs, BoxKind::Unixel) {
                        gathered_exec(BoxKind::Vexel, vs)
                    } else {
                        Err(EvalError::TypeMismatch)
                    }
                },
            },
            Expr::Maxel(items) => match eval_all(items, store) {
                Err(e) => Err(e),
                Ok(vs) => {
                    if heads_tagged(&vs, BoxKind::Pixel) {
                        gathered_exec(BoxKind::Maxel, vs)
                    } else {
                        Err(EvalError::TypeMismatch)
                    }
                },
            },
            Expr::Box(items) => match eval_all(items, store) {
                Err(e) => Err(e),
                Ok(vs) => boxed_exec(vs),
            },
            Expr::SetOf(items) => match eval_all(items, store) {
                Err(e) => Err(e),
                Ok(vs) => gathered_exec(BoxKind::SetBox, vs),
            },
            Expr::List(items) => match eval_all(items, store) {
                Err(e) => Err(e),
                Ok(vs) => gathered_exec(BoxKind::List, vs),
            },
            _ => {
                proof {
                    assert(false);
                }
                Err(EvalError::Unsupported)
            },
        }
    }
}

fn heads_tagged(vs: &Vec<BoxVariant>, kind: BoxKind) -> (r: bool)
    ensures
        r == all_tagged(values_of(vs@), kind),
{
    let mut i: usize = 0;
    while i < vs.len()
        invariant
            0 <= i <= vs@.len(),
            forall|j: int| 0 <= j < i ==> (#[trigger] vs@[j]).tag() == kind,
        decreases vs.len() - i,
    {
        if tag_of(&vs[i]) != kind {
            proof {
                assert(values_of(vs@)[i as int].0 != kind);
            }
            return false;
        }
        i = i + 1;
    }
    proof {
        assert forall|j: int| 0 <= j < values_of(vs@).len() implies (#[trigger] values_of(vs@)[j]).0 == kind by {
            assert(vs@[j].tag() == kind);
        }
    }
    true
}

} // verus!
