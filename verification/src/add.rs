//! Addition of boxes: the children of both boxes are pooled, children with the
//! same content are combined by their signed multiplicities, and children that
//! cancel out disappear.
use crate::canon::{
    all_inv, canonical, canonicalize, child_boxes, distinct_contents, lemma_canonical_unique, merge_into,
    share, tally, views, lemma_tally_append,
};
use crate::model::{all_trees, children, flatten, is_tree, lemma_flatten_append, lemma_flatten_push,
    lemma_mk_box, lemma_tree_split, mk_box, row_with_len, forest_depth, Row};
use crate::natural::Natural;
use crate::value::{head_row, BoxValue};
use crate::{
    color_xor, kind_of_depth, AnyBox, BoxKind, BoxType, Color, MultinumBox, NumBox, PolynumBox,
};
use core::ops::Add;
use vstd::prelude::*;

verus! {

/// Trait for the output type of box addition
pub trait BoxAdd<Rhs = Self> {
    type Output: BoxType;
}

impl<T: BoxType> BoxAdd for T {
    type Output = Self;
}

impl BoxAdd<PolynumBox> for NumBox {
    type Output = PolynumBox;
}

impl BoxAdd<NumBox> for PolynumBox {
    type Output = PolynumBox;
}

impl BoxAdd<MultinumBox> for NumBox {
    type Output = MultinumBox;
}

impl BoxAdd<NumBox> for MultinumBox {
    type Output = MultinumBox;
}

impl BoxAdd<MultinumBox> for PolynumBox {
    type Output = MultinumBox;
}

impl BoxAdd<PolynumBox> for MultinumBox {
    type Output = MultinumBox;
}

/// The kind of a sum of boxes of the given kinds: number-like kinds join to the larger
/// one, as the types of their boxes do.
pub open spec fn kind_add(l: BoxKind, r: BoxKind) -> BoxKind {
    if l == BoxKind::Empty {
        r
    } else if r == BoxKind::Empty {
        l
    } else if l == BoxKind::Num && r == BoxKind::Num {
        BoxKind::Num
    } else if (l == BoxKind::Num && r == BoxKind::Polynum) || (l == BoxKind::Polynum && r
        == BoxKind::Num) || (l == BoxKind::Polynum && r == BoxKind::Polynum) {
        BoxKind::Polynum
    } else if (l == BoxKind::Polynum && r == BoxKind::Multinum) || (l == BoxKind::Multinum && r
        == BoxKind::Polynum) || (l == BoxKind::Multinum && r == BoxKind::Multinum) || (l == BoxKind::Num
        && r == BoxKind::Multinum) || (l == BoxKind::Multinum && r == BoxKind::Num) {
        BoxKind::Multinum
    } else if l == BoxKind::Vexel && r == BoxKind::Vexel {
        BoxKind::Vexel
    } else if l == BoxKind::Maxel && r == BoxKind::Maxel {
        BoxKind::Maxel
    } else {
        BoxKind::Any
    }
}

impl Add for BoxKind {
    type Output = Self;

    fn add(self, rhs: Self) -> (r: Self::Output) {
        match (self, rhs) {
            (BoxKind::Empty, r) => r,
            (l, BoxKind::Empty) => l,
            (BoxKind::Num, BoxKind::Num) => BoxKind::Num,
            (BoxKind::Num, BoxKind::Polynum) => BoxKind::Polynum,
            (BoxKind::Polynum, BoxKind::Num) => BoxKind::Polynum,
            (BoxKind::Polynum, BoxKind::Polynum) => BoxKind::Polynum,
            (BoxKind::Num, BoxKind::Multinum) => BoxKind::Multinum,
            (BoxKind::Multinum, BoxKind::Num) => BoxKind::Multinum,
            (BoxKind::Polynum, BoxKind::Multinum) => BoxKind::Multinum,
            (BoxKind::Multinum, BoxKind::Polynum) => BoxKind::Multinum,
            (BoxKind::Multinum, BoxKind::Multinum) => BoxKind::Multinum,
            (BoxKind::Vexel, BoxKind::Vexel) => BoxKind::Vexel,
            (BoxKind::Maxel, BoxKind::Maxel) => BoxKind::Maxel,
            (_, _) => BoxKind::Any,
        }
    }
}

impl vstd::std_specs::ops::AddSpecImpl for BoxKind {
    open spec fn obeys_add_spec() -> bool {
        true
    }

    open spec fn add_req(self, rhs: Self) -> bool {
        true
    }

    open spec fn add_spec(self, rhs: Self) -> Self {
        kind_add(self, rhs)
    }
}

impl Add<Color> for Color {
    type Output = Color;

    fn add(self, rhs: Color) -> (r: Self::Output) {
        match (self, rhs) {
            (Color::Black, Color::Black) => Color::Black,
            (Color::Black, Color::Red) => Color::Red,
            (Color::Red, Color::Black) => Color::Red,
            (Color::Red, Color::Red) => Color::Black,
        }
    }
}

impl vstd::std_specs::ops::AddSpecImpl<Color> for Color {
    open spec fn obeys_add_spec() -> bool {
        true
    }

    open spec fn add_req(self, rhs: Color) -> bool {
        true
    }

    open spec fn add_spec(self, rhs: Color) -> Color {
        color_xor(self, rhs)
    }
}

/// The kinds whose sums take their kind from the depth of their children.
pub open spec fn is_numeric(k: BoxKind) -> bool {
    k == BoxKind::Num || k == BoxKind::Polynum || k == BoxKind::Multinum
}

/// `r` is the sum of `a` and `b` computed with output kind `out`.
pub open spec fn sum_post(a: Seq<Row>, b: Seq<Row>, out: BoxKind, r: Seq<Row>) -> bool {
    &&& is_tree(r)
    &&& r.len() < a.len() + b.len()
    &&& r[0].color == color_xor(a[0].color, b[0].color)
    &&& r[0].mult == 1
    &&& r[0].kind == (if is_numeric(out) {
        kind_of_depth(forest_depth(r.drop_first()))
    } else {
        kind_add(a[0].kind, b[0].kind)
    })
    &&& canonical(children(r))
    &&& forall|c: Seq<Row>| #[trigger]
        tally(children(r), c) == tally(children(a), c) + tally(children(b), c)
}

/// The sum of two boxes with output kind `out`.
pub open spec fn box_sum(a: Seq<Row>, b: Seq<Row>, out: BoxKind) -> Seq<Row> {
    choose|r: Seq<Row>| sum_post(a, b, out, r)
}

/// A box is its first row and its children.
proof fn lemma_post_shape(r: Seq<Row>)
    requires
        is_tree(r),
    ensures
        r == mk_box(r[0], children(r)),
{
    lemma_tree_split(r);
}

/// The description of a sum determines it.
pub proof fn lemma_sum_unique(a: Seq<Row>, b: Seq<Row>, out: BoxKind, r1: Seq<Row>, r2: Seq<Row>)
    requires
        sum_post(a, b, out, r1),
        sum_post(a, b, out, r2),
    ensures
        r1 == r2,
{
    assert forall|c: Seq<Row>| tally(children(r1), c) == tally(children(r2), c) by {
        assert(tally(children(r1), c) == tally(children(a), c) + tally(children(b), c));
        assert(tally(children(r2), c) == tally(children(a), c) + tally(children(b), c));
    }
    lemma_canonical_unique(children(r1), children(r2));
    lemma_post_shape(r1);
    lemma_post_shape(r2);
    let cs = children(r1);
    lemma_tree_split(r1);
    lemma_tree_split(r2);
    assert(r1.drop_first() == r2.drop_first());
    assert(row_with_len(r1[0], 1 + flatten(cs).len()) == row_with_len(r2[0], 1 + flatten(cs).len()));
}

/// A box satisfying the description of a sum is the sum.
pub proof fn lemma_sum_is(a: Seq<Row>, b: Seq<Row>, out: BoxKind, r: Seq<Row>)
    requires
        sum_post(a, b, out, r),
    ensures
        box_sum(a, b, out) == r,
{
    let s = box_sum(a, b, out);
    assert(sum_post(a, b, out, s));
    lemma_sum_unique(a, b, out, r, s);
}

/// Exec: the depth of the boxes in the rows `start..end`.
pub fn depth_of<U: BoxType>(v: &BoxValue<U>, start: usize, end: usize) -> (r: u32)
    requires
        v.inv(),
        start <= end <= v@.len(),
        v@.len() <= u32::MAX,
    ensures
        r as nat == forest_depth(v@.subrange(start as int, end as int)),
    decreases end - start,
{
    let ghost s = v@.subrange(start as int, end as int);
    if start == end {
        return 0;
    }
    let k = v.lengths[start] as usize;
    proof {
        assert(s[0] == v@[start as int]);
    }
    if k < 1 || k > end - start {
        return 0;
    }
    let inner = depth_of(v, start + 1, start + k);
    let rest = depth_of(v, start + k, end);
    proof {
        assert(s.subrange(1, k as int) =~= v@.subrange(start + 1, (start + k) as int));
        assert(s.subrange(k as int, s.len() as int) =~= v@.subrange((start + k) as int, end as int));
        crate::model::lemma_forest_depth_len(v@.subrange(start + 1, (start + k) as int));
    }
    if inner + 1 >= rest {
        inner + 1
    } else {
        rest
    }
}

/// Exec: merges every box of a list into a list of boxes with distinct contents.
pub fn merge_all(u: &mut Vec<BoxValue<AnyBox>>, xs: Vec<BoxValue<AnyBox>>)
    requires
        all_inv(old(u)@),
        all_trees(views(old(u)@)),
        distinct_contents(views(old(u)@)),
        all_inv(xs@),
        all_trees(views(xs@)),
    ensures
        all_inv(final(u)@),
        all_trees(views(final(u)@)),
        distinct_contents(views(final(u)@)),
        forall|c: Seq<Row>| tally(views(final(u)@), c) == tally(views(old(u)@), c) + tally(views(xs@), c),
        flatten(views(final(u)@)).len() <= flatten(views(old(u)@)).len() + flatten(views(xs@)).len(),
{
    let mut xs = xs;
    let ghost vx = views(xs@);
    let ghost u0 = views(u@);
    proof {
        assert(vx.take(xs@.len() as int) =~= vx);
    }
    while xs.len() > 0
        invariant
            all_inv(u@),
            all_trees(views(u@)),
            distinct_contents(views(u@)),
            all_inv(xs@),
            xs@.len() <= vx.len(),
            views(xs@) == vx.take(xs@.len() as int),
            all_trees(vx),
            forall|c: Seq<Row>| tally(views(u@), c) + tally(vx.take(xs@.len() as int), c) == tally(u0, c)
                + tally(vx, c),
            flatten(views(u@)).len() + flatten(vx.take(xs@.len() as int)).len() <= flatten(u0).len()
                + flatten(vx).len(),
        decreases xs.len(),
    {
        let ghost old_xs = xs@;
        let ghost old_u = views(u@);
        let x = xs.pop().unwrap();
        let ghost m = xs@.len() as int;
        proof {
            assert(x@ == vx[m]) by {
                assert(views(old_xs)[m] == vx.take(m + 1)[m]);
            }
            assert(vx.take(m + 1).drop_last() =~= vx.take(m));
            assert(vx.take(m + 1).last() == x@);
            lemma_flatten_push(vx.take(m), x@);
            assert(vx.take(m + 1) =~= vx.take(m).push(x@));
            assert(views(xs@) =~= vx.take(m)) by {
                assert forall|i: int| 0 <= i < m implies views(xs@)[i] == vx.take(m)[i] by {
                    assert(xs@[i] == old_xs[i]);
                    assert(views(old_xs)[i] == vx.take(m + 1)[i]);
                }
            }
            assert forall|i: int| 0 <= i < xs@.len() implies (#[trigger] xs@[i]).inv() by {
                assert(xs@[i] == old_xs[i]);
            }
            assert(is_tree(vx[m]));
        }
        merge_into(u, x);
        proof {
            assert forall|c: Seq<Row>| tally(views(u@), c) + tally(vx.take(m), c) == tally(u0, c) + tally(
                vx,
                c,
            ) by {
                assert(tally(views(u@), c) == tally(old_u, c) + share(vx[m], c));
                assert(tally(vx.take(m + 1), c) == tally(vx.take(m), c) + share(vx[m], c));
            }
        }
    }
    proof {
        assert(vx.take(0) =~= Seq::<Seq<Row>>::empty());
        assert(flatten(Seq::<Seq<Row>>::empty()).len() == 0);
        assert forall|c: Seq<Row>| tally(views(u@), c) == tally(u0, c) + tally(vx, c) by {
            assert(tally(vx.take(0), c) == 0);
        }
    }
}

/// Exec: the kind of a sum of boxes of the given kinds.
pub fn add_kinds(l: BoxKind, r: BoxKind) -> (k: BoxKind)
    ensures
        k == kind_add(l, r),
{
    l + r
}

impl<T: BoxType> BoxValue<T> {
    /// Adds two boxes.
    pub fn add_boxes<R: BoxType>(self, rhs: BoxValue<R>) -> (r: BoxValue<<T as BoxAdd<R>>::Output>) where
        T: BoxAdd<R>,
        requires
            self.wf(),
            rhs.wf(),
            self@.len() + rhs@.len() < u32::MAX,
        ensures
            r.wf(),
            r@.len() < self@.len() + rhs@.len(),
            sum_post(self@, rhs@, <T as BoxAdd<R>>::Output::KIND, r@),
            r@ == box_sum(self@, rhs@, <T as BoxAdd<R>>::Output::KIND),
    {
        let lhs_col = self.get_color(0);
        let rhs_col = rhs.get_color(0);
        let lhs_kind = self.get_kind(0);
        let rhs_kind = rhs.get_kind(0);
        let mut u: Vec<BoxValue<AnyBox>> = Vec::new();
        proof {
            assert(views(u@) =~= Seq::<Seq<Row>>::empty());
            lemma_tree_split(self@);
            lemma_tree_split(rhs@);
        }
        let ca = child_boxes(&self);
        let cb = child_boxes(&rhs);
        merge_all(&mut u, ca);
        merge_all(&mut u, cb);
        let ghost vu = views(u@);
        let cs = canonicalize(u);
        let ghost vs = views(cs@);
        proof {
            assert(flatten(Seq::<Seq<Row>>::empty()).len() == 0);
            assert forall|i: int| 0 <= i < cs@.len() implies (#[trigger] vs[i]).len() <= u32::MAX by {
                assert(vs =~= vs.take(i) + seq![vs[i]] + vs.skip(i + 1));
                lemma_flatten_append(vs.take(i) + seq![vs[i]], vs.skip(i + 1));
                lemma_flatten_append(vs.take(i), seq![vs[i]]);
                crate::canon::lemma_flatten_single(vs[i]);
            }
        }
        let out = <T as BoxAdd<R>>::Output::KIND;
        let mut r = crate::canon::assemble::<<T as BoxAdd<R>>::Output>(
            add_kinds(lhs_kind, rhs_kind),
            lhs_col + rhs_col,
            Natural::one(),
            cs,
        );
        let ghost r0 = r@;
        let n = r.rows();
        proof {
            lemma_tree_split(r0);
            assert(r0.subrange(1, n as int) =~= r0.drop_first());
        }
        let depth = depth_of(&r, 1, n);
        let kind = if out == BoxKind::Num || out == BoxKind::Polynum || out == BoxKind::Multinum {
            BoxKind::get_kind_from_depth(depth)
        } else {
            add_kinds(lhs_kind, rhs_kind)
        };
        r.set_kind(0, kind);
        proof {
            crate::div::lemma_retop(r0, crate::value::row_with_kind(r0[0], kind));
            assert(r@.drop_first() =~= r0.drop_first());
            assert(children(r@) == vs);
            assert(r@[0] == row_with_len(head_row(kind, color_xor(lhs_col, rhs_col), 1), 1 + flatten(vs).len()));
            assert forall|c: Seq<Row>| #[trigger] tally(children(r@), c) == tally(children(self@), c) + tally(
                children(rhs@),
                c,
            ) by {
                assert(tally(vs, c) == tally(vu, c));
            }
            assert(sum_post(self@, rhs@, out, r@));
            lemma_sum_is(self@, rhs@, out, r@);
        }
        r
    }
}

} // verus!
