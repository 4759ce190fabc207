//! Multiplication of boxes: every child of the left box is added to every child
//! of the right box, with the product of their multiplicities, and the results
//! are combined like the children of a sum.
use crate::add::{box_sum, kind_add, sum_post, add_kinds, BoxAdd};
use crate::canon::{
    all_inv, canonical, canonicalize, child_boxes, distinct_contents, merge_into, share, tally,
    views,
};
use crate::model::{all_trees, children, flatten, is_tree, lemma_tree_split, mk_box, Row};
use crate::natural::Natural;
use crate::value::{head_row, row_with_mult, BoxValue};
use crate::{color_xor, AnyBox, BoxKind, BoxType, Color, MultinumBox, NumBox, PolynumBox};
use core::ops::Mul;
use vstd::prelude::*;

verus! {

/// Trait for the output type of box multiplication
pub trait BoxMul<Rhs = Self> {
    type Output: BoxType;
}

impl<T: BoxType> BoxMul for T {
    type Output = Self;
}

impl BoxMul<PolynumBox> for NumBox {
    type Output = PolynumBox;
}

impl BoxMul<NumBox> for PolynumBox {
    type Output = PolynumBox;
}

impl BoxMul<MultinumBox> for NumBox {
    type Output = MultinumBox;
}

impl BoxMul<NumBox> for MultinumBox {
    type Output = MultinumBox;
}

impl BoxMul<MultinumBox> for PolynumBox {
    type Output = MultinumBox;
}

impl BoxMul<PolynumBox> for MultinumBox {
    type Output = MultinumBox;
}

impl Mul<Color> for Color {
    type Output = Color;

    fn mul(self, rhs: Color) -> (r: Self::Output) {
        match (self, rhs) {
            (Color::Black, Color::Black) => Color::Black,
            (Color::Black, Color::Red) => Color::Red,
            (Color::Red, Color::Black) => Color::Red,
            (Color::Red, Color::Red) => Color::Black,
        }
    }
}

impl vstd::std_specs::ops::MulSpecImpl<Color> for Color {
    open spec fn obeys_mul_spec() -> bool {
        true
    }

    open spec fn mul_req(self, rhs: Color) -> bool {
        true
    }

    open spec fn mul_spec(self, rhs: Color) -> Color {
        color_xor(self, rhs)
    }
}

/// The term contributed by a pair of children: their sum, with the product of their
/// multiplicities.
pub open spec fn term(x: Seq<Row>, y: Seq<Row>) -> Seq<Row> {
    let s = box_sum(x, y, BoxKind::Any);
    s.update(0, row_with_mult(s[0], x[0].mult * y[0].mult))
}

/// The terms of one child of the left box with all children of the right box.
pub open spec fn terms_with(x: Seq<Row>, ys: Seq<Seq<Row>>) -> Seq<Seq<Row>> {
    Seq::new(ys.len(), |j: int| term(x, ys[j]))
}

/// The terms of all pairs of children, row by row.
pub open spec fn terms(xs: Seq<Seq<Row>>, ys: Seq<Seq<Row>>) -> Seq<Seq<Row>>
    decreases xs.len(),
{
    if xs.len() == 0 {
        Seq::empty()
    } else {
        terms(xs.drop_last(), ys) + terms_with(xs.last(), ys)
    }
}

/// The product of two boxes fits in the rows' lengths: within the bound on the largest
/// possible product, or, with the sums of their children fitting, as it actually is.
pub open spec fn product_fits(a: Seq<Row>, b: Seq<Row>) -> bool {
    a.len() * b.len() * (a.len() + b.len()) < u32::MAX || (a.len() + b.len() < u32::MAX && box_product(
        a,
        b,
    ).len() <= u32::MAX)
}

/// `r` is the product of `a` and `b`.
pub open spec fn product_post(a: Seq<Row>, b: Seq<Row>, r: Seq<Row>) -> bool {
    &&& is_tree(r)
    &&& r.len() <= 1 + a.len() * b.len() * (a.len() + b.len())
    &&& r[0].color == color_xor(a[0].color, b[0].color)
    &&& r[0].mult == 1
    &&& r[0].kind == kind_add(a[0].kind, b[0].kind)
    &&& canonical(children(r))
    &&& forall|c: Seq<Row>| #[trigger]
        tally(children(r), c) == tally(terms(children(a), children(b)), c)
}

/// The product of two boxes.
pub open spec fn box_product(a: Seq<Row>, b: Seq<Row>) -> Seq<Row> {
    choose|r: Seq<Row>| product_post(a, b, r)
}

/// The description of a product determines it.
pub proof fn lemma_product_is(a: Seq<Row>, b: Seq<Row>, r: Seq<Row>)
    requires
        product_post(a, b, r),
    ensures
        box_product(a, b) == r,
{
    let s = box_product(a, b);
    assert(product_post(a, b, s));
    assert forall|c: Seq<Row>| tally(children(r), c) == tally(children(s), c) by {
        assert(tally(children(r), c) == tally(terms(children(a), children(b)), c));
        assert(tally(children(s), c) == tally(terms(children(a), children(b)), c));
    }
    crate::canon::lemma_canonical_unique(children(r), children(s));
    lemma_tree_split(r);
    lemma_tree_split(s);
    assert(crate::model::row_with_len(r[0], 1 + flatten(children(r)).len())
        == crate::model::row_with_len(s[0], 1 + flatten(children(r)).len()));
}

/// The signed multiplicity of a term is the product of the signed multiplicities.
pub proof fn lemma_term_signed(x: Seq<Row>, y: Seq<Row>)
    requires
        is_tree(x),
        is_tree(y),
        x.len() + y.len() < u32::MAX,
        sum_post(x, y, BoxKind::Any, box_sum(x, y, BoxKind::Any)),
    ensures
        crate::canon::signed(term(x, y)) == crate::canon::signed(x) * crate::canon::signed(y),
        crate::canon::content(term(x, y)) == crate::canon::content(box_sum(x, y, BoxKind::Any)),
{
    let s = box_sum(x, y, BoxKind::Any);
    let t = term(x, y);
    assert(crate::canon::content(t) =~= crate::canon::content(s));
    let mx = x[0].mult as int;
    let my = y[0].mult as int;
    assert(mx * my >= 0) by (nonlinear_arith)
        requires
            mx >= 0,
            my >= 0,
    ;
    assert((-mx) * my == -(mx * my)) by (nonlinear_arith);
    assert(mx * (-my) == -(mx * my)) by (nonlinear_arith);
    assert((-mx) * (-my) == mx * my) by (nonlinear_arith);
}

impl<T: BoxType> BoxValue<T> {
    /// Multiply two boxes
    #[verifier::rlimit(50)]
    pub fn mul_boxes<R: BoxType>(self, rhs: BoxValue<R>) -> (r: BoxValue<<T as BoxMul<R>>::Output>) where
        T: BoxMul<R>,
        requires
            self.wf(),
            rhs.wf(),
            product_fits(self@, rhs@),
        ensures
            r.wf(),
            r@.len() <= 1 + self@.len() * rhs@.len() * (self@.len() + rhs@.len()),
            product_post(self@, rhs@, r@),
            r@ == box_product(self@, rhs@),
    {
        let lhs_col = self.get_color(0);
        let rhs_col = rhs.get_color(0);
        let lhs_kind = self.get_kind(0);
        let rhs_kind = rhs.get_kind(0);
        let la = self.kinds.len();
        let lb = rhs.kinds.len();
        proof {
            assert(la + lb <= la * lb * (la + lb)) by (nonlinear_arith)
                requires
                    la >= 1,
                    lb >= 1,
            ;
            assert(la + lb < u32::MAX);
            lemma_tree_split(self@);
            lemma_tree_split(rhs@);
        }
        let ca = child_boxes(&self);
        let cb = child_boxes(&rhs);
        let ghost xs = views(ca@);
        let ghost ys = views(cb@);
        proof {
            assert(flatten(xs).len() == la - 1);
            assert(flatten(ys).len() == lb - 1);
            crate::mul::lemma_child_lens(xs);
            crate::mul::lemma_child_lens(ys);
            crate::mul::lemma_count_le_len(xs);
            crate::mul::lemma_count_le_len(ys);
        }
        let mut u: Vec<BoxValue<AnyBox>> = Vec::new();
        let ghost mut count: int = 0;
        proof {
            assert(views(u@) =~= Seq::<Seq<Row>>::empty());
            assert(xs.take(0) =~= Seq::<Seq<Row>>::empty());
            assert(flatten(Seq::<Seq<Row>>::empty()).len() == 0);
        }
        let mut i: usize = 0;
        while i < ca.len()
            invariant
                self.wf(),
                rhs.wf(),
                la == self@.len(),
                lb == rhs@.len(),
                la + lb < u32::MAX,
                i <= ca@.len(),
                xs == views(ca@),
                ys == views(cb@),
                xs.len() < la,
                ys.len() < lb,
                all_inv(ca@),
                all_inv(cb@),
                all_trees(xs),
                all_trees(ys),
                forall|k: int| 0 <= k < xs.len() ==> (#[trigger] xs[k]).len() < la,
                forall|k: int| 0 <= k < ys.len() ==> (#[trigger] ys[k]).len() < lb,
                all_inv(u@),
                all_trees(views(u@)),
                distinct_contents(views(u@)),
                forall|c: Seq<Row>| tally(views(u@), c) == tally(terms(xs.take(i as int), ys), c),
                0 <= count <= i * ys.len(),
                flatten(views(u@)).len() <= count * (la + lb),
            decreases ca.len() - i,
        {
            let ghost xi = xs[i as int];
            let ghost before = views(u@);
            let mut j: usize = 0;
            proof {
                assert(ca@[i as int].inv());
                assert(is_tree(xi));
            }
            while j < cb.len()
                invariant
                    self.wf(),
                    rhs.wf(),
                    la == self@.len(),
                    lb == rhs@.len(),
                    la + lb < u32::MAX,
                    i < ca@.len(),
                    j <= cb@.len(),
                    xs == views(ca@),
                    ys == views(cb@),
                    xs.len() < la,
                    ys.len() < lb,
                    xi == xs[i as int],
                    is_tree(xi),
                    xi.len() < la,
                    all_inv(ca@),
                    all_inv(cb@),
                    all_trees(xs),
                    all_trees(ys),
                    forall|k: int| 0 <= k < xs.len() ==> (#[trigger] xs[k]).len() < la,
                    forall|k: int| 0 <= k < ys.len() ==> (#[trigger] ys[k]).len() < lb,
                    all_inv(u@),
                    all_trees(views(u@)),
                    distinct_contents(views(u@)),
                    forall|c: Seq<Row>| tally(views(u@), c) == tally(before, c) + tally(
                        terms_with(xi, ys).take(j as int),
                        c,
                    ),
                    0 <= count <= i * ys.len() + j,
                    flatten(views(u@)).len() <= count * (la + lb),
                decreases cb.len() - j,
            {
                proof {
                    assert(cb@[j as int].inv());
                    assert(is_tree(ys[j as int]));
                }
                let left = ca[i].duplicate();
                let right = cb[j].duplicate();
                let lm = left.get_multiplicity(0);
                let rm = right.get_multiplicity(0);
                let m = lm.mul(&rm);
                let ghost yj = ys[j as int];
                let mut s: BoxValue<AnyBox> = left.add_boxes(right);
                s.set_multiplicity(0, m);
                proof {
                    let t = term(xi, yj);
                    assert(s@ =~= t);
                    assert(terms_with(xi, ys).take(j + 1) =~= terms_with(xi, ys).take(j as int).push(t));
                    assert(terms_with(xi, ys).take(j + 1).drop_last() =~= terms_with(xi, ys).take(j as int));
                    assert(is_tree(s@)) by {
                        assert(s@.drop_first() =~= box_sum(xi, yj, BoxKind::Any).drop_first());
                    }
                    assert(s@.len() <= la + lb);
                }
                let ghost prev = views(u@);
                merge_into(&mut u, s);
                proof {
                    assert forall|c: Seq<Row>| tally(views(u@), c) == tally(before, c) + tally(
                        terms_with(xi, ys).take(j + 1),
                        c,
                    ) by {
                        assert(tally(views(u@), c) == tally(prev, c) + share(term(xi, yj), c));
                    }
                    let cnt = count;
                    assert((cnt + 1) * (la + lb) == cnt * (la + lb) + (la + lb)) by (nonlinear_arith);
                    count = count + 1;
                    assert(count <= i * ys.len() + j + 1);
                }
                j = j + 1;
            }
            proof {
                assert(terms_with(xi, ys).take(j as int) =~= terms_with(xi, ys));
                assert(xs.take(i + 1).drop_last() =~= xs.take(i as int));
                assert(xs.take(i + 1).last() == xi);
                assert forall|c: Seq<Row>| tally(views(u@), c) == tally(terms(xs.take(i + 1), ys), c) by {
                    crate::canon::lemma_tally_append(terms(xs.take(i as int), ys), terms_with(xi, ys), c);
                }
                assert(count <= (i + 1) * ys.len()) by (nonlinear_arith)
                    requires
                        count <= i * ys.len() + ys.len(),
                ;
            }
            i = i + 1;
        }
        let ghost vu = views(u@);
        proof {
            assert(xs.take(i as int) =~= xs);
            let nx = xs.len() as int;
            let ny = ys.len() as int;
            assert(count * (la + lb) <= la * lb * (la + lb)) by (nonlinear_arith)
                requires
                    0 <= count <= nx * ny,
                    0 <= nx < la,
                    0 <= ny < lb,
            ;
        }
        let cs = canonicalize(u);
        let ghost vs = views(cs@);
        let kind = add_kinds(lhs_kind, rhs_kind);
        let col = lhs_col * rhs_col;
        let ghost m = mk_box(head_row(kind, col, 1), vs);
        proof {
            assert(all_trees(vs)) by {
                assert forall|k: int| 0 <= k < vs.len() implies is_tree(#[trigger] vs[k]) by {
                    assert(vu.contains(vs[k]));
                }
            }
            crate::model::lemma_mk_box(head_row(kind, col, 1), vs);
            assert forall|c: Seq<Row>| #[trigger] tally(children(m), c) == tally(terms(xs, ys), c) by {
                assert(tally(vs, c) == tally(vu, c));
            }
            assert(product_post(self@, rhs@, m));
            lemma_product_is(self@, rhs@, m);
        }
        let r = crate::canon::assemble::<<T as BoxMul<R>>::Output>(kind, col, Natural::one(), cs);
        proof {
            assert(r@ == m);
        }
        r
    }
}

/// Every child has fewer rows than the whole list of children plus one.
pub proof fn lemma_child_lens(cs: Seq<Seq<Row>>)
    ensures
        forall|k: int| 0 <= k < cs.len() ==> (#[trigger] cs[k]).len() <= flatten(cs).len(),
{
    assert forall|k: int| 0 <= k < cs.len() implies (#[trigger] cs[k]).len() <= flatten(cs).len() by {
        assert(cs =~= cs.take(k) + seq![cs[k]] + cs.skip(k + 1));
        crate::model::lemma_flatten_append(cs.take(k) + seq![cs[k]], cs.skip(k + 1));
        crate::model::lemma_flatten_append(cs.take(k), seq![cs[k]]);
        crate::canon::lemma_flatten_single(cs[k]);
    }
}

/// There are no more boxes than rows.
pub proof fn lemma_count_le_len(cs: Seq<Seq<Row>>)
    requires
        all_trees(cs),
    ensures
        cs.len() <= flatten(cs).len(),
    decreases cs.len(),
{
    if cs.len() > 0 {
        assert(all_trees(cs.drop_last())) by {
            assert forall|k: int| 0 <= k < cs.drop_last().len() implies is_tree(#[trigger] cs.drop_last()[k]) by {
                assert(cs.drop_last()[k] == cs[k]);
            }
        }
        lemma_count_le_len(cs.drop_last());
        assert(is_tree(cs[cs.len() - 1]));
    }
}

} // verus!
