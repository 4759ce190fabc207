//! Maxel is an extension of matrices into the world of boxes
//!
//! A pixel holds two boxes `x` and `y`, a unixel one box `x`.  A maxel is a box
//! of pixels, a vexel a box of unixels.  Pixels multiply like matrix units:
//! `[x, y] * [y, z] = [x, z]`.
use crate::canon::{
    all_inv, all_nonzero, canonical, canonicalize, child_boxes, content, distinct_contents, eq_content,
    lemma_tally_distinct, signed, tally, views,
};
use crate::model::{
    all_trees, children, flatten, is_forest, is_tree, items, lemma_flatten_push, lemma_flatten_trees, lemma_mk_box,
    lemma_tree_split, mk_box, Row,
};
use crate::add::merge_all;
use crate::natural::Natural;
use crate::value::{head_row, mk_row, row_with_color, row_with_mult, BoxValue};
use crate::variant::BoxVariant;
use crate::{color_xor, AnyBox, BoxKind, BoxType, Color, MaxelBox, PixelBox, UnixelBox, VexelBox};
use vstd::prelude::*;

verus! {

/// The rows of a unixel holding `x`.
pub open spec fn unixel_rows(x: Seq<Row>) -> Seq<Row> {
    seq![mk_row(BoxKind::Unixel, Color::Black, 1, 1 + x.len())] + x
}

/// The rows of a pixel holding `x` and `y`.
pub open spec fn pixel_rows(x: Seq<Row>, y: Seq<Row>) -> Seq<Row> {
    seq![mk_row(BoxKind::Pixel, Color::Black, 1, 1 + x.len() + y.len())] + x + y
}

/// A box with at least two children, read as a pixel.
pub open spec fn pixel_like(p: Seq<Row>) -> bool {
    is_tree(p) && children(p).len() >= 2
}

/// A box with at least one child, read as a unixel.
pub open spec fn unixel_like(p: Seq<Row>) -> bool {
    is_tree(p) && children(p).len() >= 1
}

/// The first child.
pub open spec fn first_of(p: Seq<Row>) -> Seq<Row> {
    children(p)[0]
}

/// The second child.
pub open spec fn second_of(p: Seq<Row>) -> Seq<Row> {
    children(p)[1]
}

/// One contribution to a product of maxels: the resulting box, the color of the left
/// factor, and the multiplicities of the left and right factors.
pub struct Term {
    pub rows: Seq<Row>,
    pub color: Color,
    pub left: nat,
    pub right: nat,
}

/// The contributions of one left pixel with all right pixels.
pub open spec fn pixel_terms_with(lp: Seq<Row>, rs: Seq<Seq<Row>>) -> Seq<Term>
    decreases rs.len(),
{
    if rs.len() == 0 {
        Seq::empty()
    } else {
        let prev = pixel_terms_with(lp, rs.drop_last());
        let rp = rs.last();
        if second_of(lp) == first_of(rp) {
            prev.push(
                Term {
                    rows: pixel_rows(first_of(lp), second_of(rp)),
                    color: lp[0].color,
                    left: lp[0].mult,
                    right: rp[0].mult,
                },
            )
        } else {
            prev
        }
    }
}

/// The contributions of all pairs of pixels, left pixel by left pixel.
pub open spec fn pixel_terms(ls: Seq<Seq<Row>>, rs: Seq<Seq<Row>>) -> Seq<Term>
    decreases ls.len(),
{
    if ls.len() == 0 {
        Seq::empty()
    } else {
        pixel_terms(ls.drop_last(), rs) + pixel_terms_with(ls.last(), rs)
    }
}

/// The contributions of one left pixel with all right unixels.
pub open spec fn unixel_terms_with(lp: Seq<Row>, rs: Seq<Seq<Row>>) -> Seq<Term>
    decreases rs.len(),
{
    if rs.len() == 0 {
        Seq::empty()
    } else {
        let prev = unixel_terms_with(lp, rs.drop_last());
        let ru = rs.last();
        if second_of(lp) == first_of(ru) {
            prev.push(
                Term {
                    rows: unixel_rows(first_of(lp)),
                    color: lp[0].color,
                    left: lp[0].mult,
                    right: ru[0].mult,
                },
            )
        } else {
            prev
        }
    }
}

/// The contributions of all pixels with all unixels, pixel by pixel.
pub open spec fn unixel_terms(ls: Seq<Seq<Row>>, rs: Seq<Seq<Row>>) -> Seq<Term>
    decreases ls.len(),
{
    if ls.len() == 0 {
        Seq::empty()
    } else {
        unixel_terms(ls.drop_last(), rs) + unixel_terms_with(ls.last(), rs)
    }
}

/// Adds one contribution: a new content enters with the product of the multiplicities;
/// a content already present takes that product on top, as entries of a matrix product
/// sum up, and its color is combined with the left color.
pub open spec fn term_step(u: Seq<Seq<Row>>, t: Term) -> Seq<Seq<Row>> {
    if exists|j: int| 0 <= j < u.len() && content(#[trigger] u[j]) == content(t.rows) {
        let j = choose|j: int| 0 <= j < u.len() && content(#[trigger] u[j]) == content(t.rows);
        let o = u[j];
        u.update(
            j,
            o.update(0, mk_row(o[0].kind, color_xor(t.color, o[0].color), o[0].mult + t.left * t.right, o[0].len)),
        )
    } else {
        u.push(t.rows.update(0, row_with_mult(t.rows[0], t.left * t.right)))
    }
}

/// All contributions added in order.
pub open spec fn term_fold(ts: Seq<Term>) -> Seq<Seq<Row>>
    decreases ts.len(),
{
    if ts.len() == 0 {
        Seq::empty()
    } else {
        term_step(term_fold(ts.drop_last()), ts.last())
    }
}

/// `r` is a box with the given kind, black and of multiplicity one, whose children are the
/// non-zero boxes of `u`, in canonical order.
pub open spec fn arranged(kind: BoxKind, u: Seq<Seq<Row>>, r: Seq<Row>) -> bool {
    &&& is_tree(r)
    &&& r[0].kind == kind
    &&& r[0].color == Color::Black
    &&& r[0].mult == 1
    &&& canonical(children(r))
    &&& forall|x: Seq<Row>| #[trigger] children(r).contains(x) <==> (u.contains(x) && x[0].mult > 0)
}

/// Exec: the two boxes have the same rows.
pub fn rows_eq<U: BoxType, V: BoxType>(a: &BoxValue<U>, b: &BoxValue<V>) -> (r: bool)
    requires
        a.inv(),
        b.inv(),
    ensures
        r == (a@ == b@),
{
    let n = a.kinds.len();
    if n != b.kinds.len() {
        return false;
    }
    let mut i: usize = 0;
    while i < n
        invariant
            a.inv(),
            b.inv(),
            n == a@.len(),
            n == b@.len(),
            i <= n,
            forall|k: int| 0 <= k < i ==> a@[k] == b@[k],
        decreases n - i,
    {
        if a.kinds[i] != b.kinds[i] || a.colors[i] != b.colors[i] || a.lengths[i] != b.lengths[i]
            || !a.multiplicities[i].eq(&b.multiplicities[i]) {
            proof {
                assert(a@[i as int].kind == a.kinds@[i as int]);
                assert(b@[i as int].kind == b.kinds@[i as int]);
                assert(a@[i as int].mult == a.multiplicities@[i as int]@);
                assert(b@[i as int].mult == b.multiplicities@[i as int]@);
                assert(a@[i as int] != b@[i as int]);
            }
            return false;
        }
        i = i + 1;
    }
    proof {
        assert(a@ =~= b@);
    }
    true
}

/// The first two children of a box are at rows `1..1+len` and after.
proof fn lemma_first_children(p: Seq<Row>)
    requires
        is_tree(p),
    ensures
        children(p).len() >= 1 ==> p.len() >= 2 && 1 + p[1].len <= p.len() && first_of(p) == p.subrange(
            1,
            1 + p[1].len as int,
        ),
        children(p).len() >= 2 ==> ({
            let k = 1 + p[1].len as int;
            &&& k < p.len()
            &&& k + p[k].len <= p.len()
            &&& second_of(p) == p.subrange(k, k + p[k].len as int)
        }),
{
    let d = p.drop_first();
    if children(p).len() >= 1 {
        assert(d.len() > 0);
        assert(d[0] == p[1]);
        assert(items(d)[0] == d.take(d[0].len as int));
        assert(d.take(d[0].len as int) =~= p.subrange(1, 1 + p[1].len as int));
        if children(p).len() >= 2 {
            let e = d.skip(d[0].len as int);
            assert(items(d) == seq![d.take(d[0].len as int)] + items(e));
            assert(items(d)[1] == items(e)[0]);
            assert(e.len() > 0);
            let k = 1 + p[1].len as int;
            assert(e[0] == p[k]);
            assert(e.take(e[0].len as int) =~= p.subrange(k, k + p[k].len as int));
        }
    }
}

impl BoxValue<UnixelBox> {
    /// Create a unixel out of a box
    pub fn unixel<T: BoxType>(value: BoxValue<T>) -> (r: Self)
        requires
            value.inv(),
            value@.len() > 0,
            value@.len() < u32::MAX,
        ensures
            r.inv(),
            r@ == unixel_rows(value@),
            is_tree(value@) ==> r.wf() && children(r@) == seq![value@],
    {
        let len = value.kinds.len() as u32;
        let mut result = BoxValue::<UnixelBox>::new();
        result.push_row(BoxKind::Unixel, Color::Black, Natural::one(), 1 + len);
        let ghost v = value@;
        result.append_rows(value);
        proof {
            assert(result@ =~= unixel_rows(v));
            if is_tree(v) {
                assert(all_trees(seq![v]));
                lemma_mk_box(head_row(BoxKind::Unixel, Color::Black, 1), seq![v]);
                crate::canon::lemma_flatten_single(v);
                assert(mk_box(head_row(BoxKind::Unixel, Color::Black, 1), seq![v]) =~= result@);
            }
        }
        result
    }

    /// Return the box inside the unixel
    pub fn x(&self) -> (r: BoxValue<AnyBox>)
        requires
            self.wf(),
            unixel_like(self@),
        ensures
            r.inv(),
            r@ == first_of(self@),
    {
        proof {
            lemma_first_children(self@);
        }
        let x_len = self.lengths[1] as usize;
        self.slice(1, 1 + x_len)
    }
}

impl BoxValue<PixelBox> {
    /// Create a pixel from two boxes
    pub fn pixel<X: BoxType, Y: BoxType>(x: BoxValue<X>, y: BoxValue<Y>) -> (r: Self)
        requires
            x.inv(),
            y.inv(),
            x@.len() + y@.len() < u32::MAX,
        ensures
            r.inv(),
            r@ == pixel_rows(x@, y@),
            is_tree(x@) && is_tree(y@) ==> r.wf() && children(r@) == seq![x@, y@],
    {
        let x_len = x.kinds.len() as u32;
        let y_len = y.kinds.len() as u32;
        let mut result = BoxValue::<PixelBox>::new();
        result.push_row(BoxKind::Pixel, Color::Black, Natural::one(), 1 + x_len + y_len);
        let ghost xv = x@;
        let ghost yv = y@;
        result.append_rows(x);
        result.append_rows(y);
        proof {
            assert(result@ =~= pixel_rows(xv, yv));
            if is_tree(xv) && is_tree(yv) {
                let cs = seq![xv, yv];
                assert(all_trees(cs));
                lemma_mk_box(head_row(BoxKind::Pixel, Color::Black, 1), cs);
                assert(cs =~= seq![xv].push(yv));
                lemma_flatten_push(seq![xv], yv);
                crate::canon::lemma_flatten_single(xv);
                assert(mk_box(head_row(BoxKind::Pixel, Color::Black, 1), cs) =~= result@);
            }
        }
        result
    }

    /// Return the first child of a pixel
    pub fn x(&self) -> (r: BoxValue<AnyBox>)
        requires
            self.wf(),
            unixel_like(self@),
        ensures
            r.inv(),
            r@ == first_of(self@),
    {
        proof {
            lemma_first_children(self@);
        }
        let x_len = self.lengths[1] as usize;
        self.slice(1, 1 + x_len)
    }

    /// Return the second child of a pixel
    pub fn y(&self) -> (r: BoxValue<AnyBox>)
        requires
            self.wf(),
            pixel_like(self@),
        ensures
            r.inv(),
            r@ == second_of(self@),
    {
        proof {
            lemma_first_children(self@);
        }
        let x_len = self.lengths[1] as usize;
        let y_idx = 1 + x_len;
        let y_len = self.lengths[y_idx] as usize;
        self.slice(y_idx, y_idx + y_len)
    }

    /// Multiplies two pixels
    pub fn mul_pix(left: Self, right: Self) -> (r: Option<Self>)
        requires
            left.wf(),
            right.wf(),
            pixel_like(left@),
            pixel_like(right@),
            left@.len() + right@.len() < u32::MAX,
        ensures
            r is Some <==> second_of(left@) == first_of(right@),
            r matches Some(p) ==> p.wf() && p@ == pixel_rows(first_of(left@), second_of(right@)),
    {
        let left_y = left.y();
        let right_x = right.x();
        if rows_eq(&left_y, &right_x) {
            let left_x = left.x();
            let right_y = right.y();
            proof {
                crate::mul::lemma_child_lens(children(left@));
                crate::mul::lemma_child_lens(children(right@));
                lemma_tree_split(left@);
                lemma_tree_split(right@);
                assert(all_trees(children(left@)));
                assert(is_tree(children(left@)[0]));
                assert(is_tree(children(right@)[1]));
            }
            return Some(Self::pixel(left_x, right_y));
        }
        None
    }
}

/// Exec: adds one contribution to a list of boxes with distinct contents.
fn add_term(
    u: &mut Vec<BoxValue<AnyBox>>,
    x: BoxValue<AnyBox>,
    col: Color,
    lhs_mul: &Natural,
    rhs_mul: &Natural,
)
    requires
        all_inv(old(u)@),
        all_trees(views(old(u)@)),
        distinct_contents(views(old(u)@)),
        x.inv(),
        is_tree(x@),
    ensures
        all_inv(final(u)@),
        all_trees(views(final(u)@)),
        distinct_contents(views(final(u)@)),
        views(final(u)@) == term_step(
            views(old(u)@),
            Term { rows: x@, color: col, left: lhs_mul@, right: rhs_mul@ },
        ),
        flatten(views(final(u)@)).len() <= flatten(views(old(u)@)).len() + x@.len(),
{
    let ghost t = Term { rows: x@, color: col, left: lhs_mul@, right: rhs_mul@ };
    let ghost vo = views(u@);
    let n = u.len();
    let mut j: usize = 0;
    while j < n
        invariant
            u@ == old(u)@,
            n == u@.len(),
            j <= n,
            all_inv(u@),
            all_trees(views(u@)),
            x.inv(),
            is_tree(x@),
            forall|k: int| 0 <= k < j ==> content(#[trigger] views(u@)[k]) != content(x@),
        ensures
            j <= n,
            j < n ==> content(views(u@)[j as int]) == content(x@),
            forall|k: int| 0 <= k < j ==> content(#[trigger] views(u@)[k]) != content(x@),
        decreases n - j,
    {
        proof {
            assert(u@[j as int].inv());
            assert(is_tree(views(u@)[j as int]));
        }
        if eq_content(&u[j], &x) {
            break;
        }
        j = j + 1;
    }
    if j < n {
        proof {
            assert(u@[j as int].inv());
            assert(is_tree(vo[j as int]));
            let jj = choose|q: int| 0 <= q < vo.len() && content(#[trigger] vo[q]) == content(t.rows);
            if jj != j {
                assert(content(vo[jj]) != content(vo[j as int]));
            }
        }
        let mut other = u.remove(j);
        let other_col = other.get_color(0);
        let other_mul = other.get_multiplicity(0);
        other.set_color(0, col * other_col);
        other.set_multiplicity(0, other_mul.add(&lhs_mul.mul(rhs_mul)));
        let ghost y = other@;
        u.insert(j, other);
        proof {
            let vn = views(u@);
            assert(vn =~= vo.update(j as int, y)) by {
                assert forall|k: int| 0 <= k < vn.len() implies vn[k] == vo.update(j as int, y)[k] by {
                    if k != j {
                        assert(u@[k] == old(u)@[k]);
                    }
                }
            }
            let o = vo[j as int];
            assert(y =~= o.update(0, mk_row(o[0].kind, color_xor(col, o[0].color), o[0].mult + lhs_mul@ * rhs_mul@, o[0].len)));
            assert forall|k: int| 0 <= k < u@.len() implies (#[trigger] u@[k]).inv() by {
                if k != j {
                    assert(u@[k] == old(u)@[k]);
                }
            }
            assert(y.drop_first() =~= o.drop_first());
            assert(content(y) =~= content(o));
            assert(all_trees(vn)) by {
                assert forall|k: int| 0 <= k < vn.len() implies is_tree(#[trigger] vn[k]) by {
                    if k == j {
                        assert(y =~= seq![y[0]] + y.drop_first());
                        assert(o =~= seq![o[0]] + o.drop_first());
                    } else {
                        assert(vn[k] == vo[k]);
                    }
                }
            }
            assert(distinct_contents(vn)) by {
                assert forall|a: int, b: int|
                    0 <= a < vn.len() && 0 <= b < vn.len() && a != b implies content(#[trigger] vn[a])
                    != content(#[trigger] vn[b]) by {
                    assert(content(vn[a]) == content(vo[a]));
                    assert(content(vn[b]) == content(vo[b]));
                }
            }
            crate::canon::lemma_flatten_update_len(vo, j as int, y);
        }
    } else {
        let mut x = x;
        x.set_multiplicity(0, lhs_mul.mul(rhs_mul));
        let ghost xv = x@;
        u.push(x);
        proof {
            let vn = views(u@);
            assert(vn =~= vo.push(xv));
            assert(!exists|q: int| 0 <= q < vo.len() && content(#[trigger] vo[q]) == content(t.rows));
            assert(content(xv) =~= content(t.rows));
            assert forall|k: int| 0 <= k < u@.len() implies (#[trigger] u@[k]).inv() by {
                if k < n {
                    assert(u@[k] == old(u)@[k]);
                }
            }
            assert(all_trees(vn)) by {
                assert forall|k: int| 0 <= k < vn.len() implies is_tree(#[trigger] vn[k]) by {
                    if k < n {
                        assert(vn[k] == vo[k]);
                    } else {
                        assert(xv =~= seq![xv[0]] + xv.drop_first());
                        assert(t.rows =~= seq![t.rows[0]] + t.rows.drop_first());
                        assert(xv.drop_first() =~= t.rows.drop_first());
                    }
                }
            }
            assert(distinct_contents(vn)) by {
                assert forall|a: int, b: int|
                    0 <= a < vn.len() && 0 <= b < vn.len() && a != b implies content(#[trigger] vn[a])
                    != content(#[trigger] vn[b]) by {
                    if a < n && b < n {
                        assert(vn[a] == vo[a] && vn[b] == vo[b]);
                    } else if a < n {
                        assert(vn[a] == vo[a]);
                    } else {
                        assert(vn[b] == vo[b]);
                    }
                }
            }
            lemma_flatten_push(vo, xv);
        }
    }
}

/// Canonical arrangement keeps exactly the non-zero boxes of a list with distinct contents.
proof fn lemma_arranged_members(u: Seq<Seq<Row>>, r: Seq<Seq<Row>>)
    requires
        all_trees(u),
        distinct_contents(u),
        canonical(r),
        forall|c: Seq<Row>| tally(r, c) == tally(u, c),
        forall|i: int| 0 <= i < r.len() ==> u.contains(#[trigger] r[i]),
    ensures
        forall|x: Seq<Row>| #[trigger] r.contains(x) <==> (u.contains(x) && x[0].mult > 0),
{
    assert forall|x: Seq<Row>| #[trigger] r.contains(x) <==> (u.contains(x) && x[0].mult > 0) by {
        if r.contains(x) {
            let i = choose|i: int| 0 <= i < r.len() && r[i] == x;
            assert(u.contains(r[i]));
        }
        if u.contains(x) && x[0].mult > 0 {
            let i = choose|i: int| 0 <= i < u.len() && u[i] == x;
            let c = content(x);
            lemma_tally_distinct(u, c);
            lemma_tally_distinct(r, c);
            assert(is_tree(u[i]));
            assert(tally(u, c) == signed(x));
            assert(tally(r, c) != 0);
            let j = choose|j: int| 0 <= j < r.len() && content(#[trigger] r[j]) == c;
            assert(is_tree(r[j]));
            crate::canon::lemma_content_signed(x, r[j]);
            assert(r[j] == x);
        }
    }
}

/// `r` is the box of the given kind and color, of multiplicity one, whose children combine
/// the boxes `us` by content.
pub open spec fn combined(kind: BoxKind, color: Color, us: Seq<Seq<Row>>, r: Seq<Row>) -> bool {
    &&& is_tree(r)
    &&& r[0].kind == kind
    &&& r[0].color == color
    &&& r[0].mult == 1
    &&& canonical(children(r))
    &&& forall|c: Seq<Row>| #[trigger] tally(children(r), c) == tally(us, c)
}

/// The box described by `combined`.
pub open spec fn combination(kind: BoxKind, color: Color, us: Seq<Seq<Row>>) -> Seq<Row> {
    choose|r: Seq<Row>| combined(kind, color, us, r)
}

/// The box described by `arranged`.
pub open spec fn arrangement(kind: BoxKind, u: Seq<Seq<Row>>) -> Seq<Row> {
    choose|r: Seq<Row>| arranged(kind, u, r)
}

/// The product of two maxels.
pub open spec fn maxel_product(l: Seq<Row>, r: Seq<Row>) -> Seq<Row> {
    arrangement(BoxKind::Maxel, term_fold(pixel_terms(children(l), children(r))))
}

/// The product of a maxel with a vexel.
pub open spec fn maxel_vexel_product(l: Seq<Row>, r: Seq<Row>) -> Seq<Row> {
    arrangement(BoxKind::Vexel, term_fold(unixel_terms(children(l), children(r))))
}

/// Every child is read as a pixel.
pub open spec fn all_pixels(p: Seq<Row>) -> bool {
    forall|i: int| 0 <= i < children(p).len() ==> pixel_like(#[trigger] children(p)[i])
}

/// Every child is read as a unixel.
pub open spec fn all_unixels(p: Seq<Row>) -> bool {
    forall|i: int| 0 <= i < children(p).len() ==> unixel_like(#[trigger] children(p)[i])
}

pub proof fn lemma_combined_is(kind: BoxKind, color: Color, us: Seq<Seq<Row>>, r: Seq<Row>)
    requires
        combined(kind, color, us, r),
    ensures
        combination(kind, color, us) == r,
{
    let s = combination(kind, color, us);
    assert(combined(kind, color, us, s));
    assert forall|c: Seq<Row>| tally(children(r), c) == tally(children(s), c) by {
        assert(tally(children(r), c) == tally(us, c));
        assert(tally(children(s), c) == tally(us, c));
    }
    crate::canon::lemma_canonical_unique(children(r), children(s));
    lemma_tree_split(r);
    lemma_tree_split(s);
    assert(crate::model::row_with_len(r[0], 1 + flatten(children(r)).len())
        == crate::model::row_with_len(s[0], 1 + flatten(children(r)).len()));
}

pub proof fn lemma_arranged_is(kind: BoxKind, u: Seq<Seq<Row>>, r: Seq<Row>)
    requires
        arranged(kind, u, r),
    ensures
        arrangement(kind, u) == r,
{
    let s = arrangement(kind, u);
    assert(arranged(kind, u, s));
    assert forall|x: Seq<Row>| children(r).contains(x) <==> children(s).contains(x) by {
        assert(children(r).contains(x) <==> (u.contains(x) && x[0].mult > 0));
        assert(children(s).contains(x) <==> (u.contains(x) && x[0].mult > 0));
    }
    crate::canon::lemma_sorted_unique(children(r), children(s));
    lemma_tree_split(r);
    lemma_tree_split(s);
    assert(crate::model::row_with_len(r[0], 1 + flatten(children(r)).len())
        == crate::model::row_with_len(s[0], 1 + flatten(children(r)).len()));
}

proof fn lemma_term_fold_push(ts: Seq<Term>, t: Term)
    ensures
        term_fold(ts.push(t)) == term_step(term_fold(ts), t),
{
    assert(ts.push(t).drop_last() =~= ts);
}

impl BoxValue<PixelBox> {
    /// Multiply a pixel with a unixel
    fn mul_pix_unix(self, unix: BoxValue<UnixelBox>) -> (r: Option<BoxValue<UnixelBox>>)
        requires
            self.wf(),
            unix.wf(),
            pixel_like(self@),
            unixel_like(unix@),
        ensures
            r is Some <==> second_of(self@) == first_of(unix@),
            r matches Some(p) ==> p.wf() && p@ == unixel_rows(first_of(self@)),
    {
        let pix_y = self.y();
        let unix_x = unix.x();
        if rows_eq(&pix_y, &unix_x) {
            proof {
                crate::mul::lemma_child_lens(children(self@));
                lemma_tree_split(self@);
                assert(is_tree(children(self@)[0]));
            }
            return Some(BoxValue::<UnixelBox>::unixel(self.x()));
        }
        None
    }
}

/// Every child has at most as many rows as the parent minus one.
proof fn lemma_children_short(p: Seq<Row>)
    requires
        is_tree(p),
    ensures
        forall|k: int| 0 <= k < children(p).len() ==> (#[trigger] children(p)[k]).len() < p.len(),
        children(p).len() < p.len(),
        all_trees(children(p)),
{
    lemma_tree_split(p);
    crate::mul::lemma_child_lens(children(p));
    crate::mul::lemma_count_le_len(children(p));
}

impl BoxValue<MaxelBox> {
    /// Multiply two maxels
    #[verifier::rlimit(50)]
    pub fn mul_max(left: Self, right: Self) -> (r: Self)
        requires
            left.wf(),
            right.wf(),
            all_pixels(left@),
            all_pixels(right@),
            left@.len() * right@.len() * (left@.len() + right@.len()) < u32::MAX || (left@.len() + right@.len()
                < u32::MAX && maxel_product(left@, right@).len() <= u32::MAX),
        ensures
            r.wf(),
            arranged(BoxKind::Maxel, term_fold(pixel_terms(children(left@), children(right@))), r@),
            r@ == maxel_product(left@, right@),
    {
        let la = left.kinds.len();
        let lb = right.kinds.len();
        proof {
            assert(la + lb <= la * lb * (la + lb)) by (nonlinear_arith)
                requires
                    la >= 1,
                    lb >= 1,
            ;
            assert(la + lb < u32::MAX);
            lemma_children_short(left@);
            lemma_children_short(right@);
        }
        let ca = child_boxes(&left);
        let cb = child_boxes(&right);
        let ghost xs = views(ca@);
        let ghost ys = views(cb@);
        let mut u: Vec<BoxValue<AnyBox>> = Vec::new();
        let ghost mut count: int = 0;
        proof {
            assert(views(u@) =~= Seq::<Seq<Row>>::empty());
            assert(xs.take(0) =~= Seq::<Seq<Row>>::empty());
            assert(pixel_terms(xs.take(0), ys) =~= Seq::<Term>::empty());
            assert(term_fold(Seq::<Term>::empty()) =~= Seq::<Seq<Row>>::empty());
            assert(flatten(Seq::<Seq<Row>>::empty()).len() == 0);
        }
        let mut i: usize = 0;
        while i < ca.len()
            invariant
                la == left@.len(),
                lb == right@.len(),
                la + lb < u32::MAX,
                i <= ca@.len(),
                xs == views(ca@),
                ys == views(cb@),
                xs == children(left@),
                ys == children(right@),
                xs.len() < la,
                ys.len() < lb,
                all_inv(ca@),
                all_inv(cb@),
                all_trees(xs),
                all_trees(ys),
                all_pixels(left@),
                all_pixels(right@),
                forall|k: int| 0 <= k < xs.len() ==> (#[trigger] xs[k]).len() < la,
                forall|k: int| 0 <= k < ys.len() ==> (#[trigger] ys[k]).len() < lb,
                all_inv(u@),
                all_trees(views(u@)),
                distinct_contents(views(u@)),
                views(u@) == term_fold(pixel_terms(xs.take(i as int), ys)),
                0 <= count <= i * ys.len(),
                flatten(views(u@)).len() <= count * (la + lb),
            decreases ca.len() - i,
        {
            let ghost xi = xs[i as int];
            let ghost before = pixel_terms(xs.take(i as int), ys);
            let mut j: usize = 0;
            proof {
                assert(ca@[i as int].inv());
                assert(is_tree(xi));
                assert(pixel_like(xi));
                assert(ys.take(0) =~= Seq::<Seq<Row>>::empty());
                assert(before + pixel_terms_with(xi, ys.take(0)) =~= before);
            }
            while j < cb.len()
                invariant
                    la == left@.len(),
                    lb == right@.len(),
                    la + lb < u32::MAX,
                    i < ca@.len(),
                    j <= cb@.len(),
                    xs == views(ca@),
                    ys == views(cb@),
                    xs == children(left@),
                    ys == children(right@),
                    xs.len() < la,
                    ys.len() < lb,
                    xi == xs[i as int],
                    pixel_like(xi),
                    xi.len() < la,
                    all_inv(ca@),
                    all_inv(cb@),
                    all_trees(xs),
                    all_trees(ys),
                    all_pixels(right@),
                    forall|k: int| 0 <= k < ys.len() ==> (#[trigger] ys[k]).len() < lb,
                    all_inv(u@),
                    all_trees(views(u@)),
                    distinct_contents(views(u@)),
                    views(u@) == term_fold(before + pixel_terms_with(xi, ys.take(j as int))),
                    0 <= count <= i * ys.len() + j,
                    flatten(views(u@)).len() <= count * (la + lb),
                decreases cb.len() - j,
            {
                let ghost yj = ys[j as int];
                proof {
                    assert(cb@[j as int].inv());
                    assert(is_tree(yj));
                    assert(pixel_like(yj));
                    assert(ys.take(j + 1).drop_last() =~= ys.take(j as int));
                    assert(ys.take(j + 1).last() == yj);
                }
                let lp = ca[i].duplicate();
                let rp = cb[j].duplicate();
                let col = lp.get_color(0);
                let lhs_mul = lp.get_multiplicity(0);
                let rhs_mul = rp.get_multiplicity(0);
                let prod = BoxValue::<PixelBox>::mul_pix(lp.cast(), rp.cast());
                match prod {
                    Some(pixel) => {
                        let ghost t = Term {
                            rows: pixel@,
                            color: col,
                            left: lhs_mul@,
                            right: rhs_mul@,
                        };
                        proof {
                            assert(pixel_terms_with(xi, ys.take(j + 1)) == pixel_terms_with(xi, ys.take(j as int)).push(t));
                            assert(before + pixel_terms_with(xi, ys.take(j + 1)) =~= (before + pixel_terms_with(
                                xi,
                                ys.take(j as int),
                            )).push(t));
                            lemma_term_fold_push(before + pixel_terms_with(xi, ys.take(j as int)), t);
                            lemma_children_short(xi);
                            lemma_children_short(yj);
                            assert(pixel@.len() <= la + lb);
                        }
                        add_term(&mut u, pixel.cast(), col, &lhs_mul, &rhs_mul);
                        proof {
                            let cnt = count;
                            assert((cnt + 1) * (la + lb) == cnt * (la + lb) + (la + lb)) by (nonlinear_arith);
                            count = count + 1;
                        }
                    },
                    None => {
                        proof {
                            assert(pixel_terms_with(xi, ys.take(j + 1)) == pixel_terms_with(xi, ys.take(j as int)));
                        }
                    },
                }
                j = j + 1;
            }
            proof {
                assert(ys.take(j as int) =~= ys);
                assert(xs.take(i + 1).drop_last() =~= xs.take(i as int));
                assert(xs.take(i + 1).last() == xi);
                assert(count <= (i + 1) * ys.len()) by (nonlinear_arith)
                    requires
                        count <= i * ys.len() + ys.len(),
                ;
            }
            i = i + 1;
        }
        let ghost vu = views(u@);
        proof {
            assert(xs.take(i as int) =~= xs);
            let nx = xs.len() as int;
            let ny = ys.len() as int;
            assert(count * (la + lb) <= la * lb * (la + lb)) by (nonlinear_arith)
                requires
                    0 <= count <= nx * ny,
                    0 <= nx < la,
                    0 <= ny < lb,
            ;
        }
        let cs = canonicalize(u);
        let ghost vs = views(cs@);
        let ghost m = mk_box(head_row(BoxKind::Maxel, Color::Black, 1), vs);
        proof {
            lemma_arranged_members(vu, vs);
            assert(all_trees(vs)) by {
                assert forall|k: int| 0 <= k < vs.len() implies is_tree(#[trigger] vs[k]) by {
                    assert(vu.contains(vs[k]));
                }
            }
            crate::model::lemma_mk_box(head_row(BoxKind::Maxel, Color::Black, 1), vs);
            assert(arranged(BoxKind::Maxel, vu, m));
            lemma_arranged_is(BoxKind::Maxel, vu, m);
        }
        let r = crate::canon::assemble::<MaxelBox>(BoxKind::Maxel, Color::Black, Natural::one(), cs);
        proof {
            assert(r@ == m);
        }
        r
    }

    /// Multiply a maxel with a vexel
    #[verifier::rlimit(50)]
    pub fn mul_max_vex(self, vex: BoxValue<VexelBox>) -> (r: BoxValue<VexelBox>)
        requires
            self.wf(),
            vex.wf(),
            all_pixels(self@),
            all_unixels(vex@),
            self@.len() * vex@.len() * (self@.len() + vex@.len()) < u32::MAX || (self@.len() + vex@.len()
                < u32::MAX && maxel_vexel_product(self@, vex@).len() <= u32::MAX),
        ensures
            r.wf(),
            arranged(BoxKind::Vexel, term_fold(unixel_terms(children(self@), children(vex@))), r@),
            r@ == maxel_vexel_product(self@, vex@),
    {
        let la = self.kinds.len();
        let lb = vex.kinds.len();
        proof {
            assert(la + lb <= la * lb * (la + lb)) by (nonlinear_arith)
                requires
                    la >= 1,
                    lb >= 1,
            ;
            assert(la + lb < u32::MAX);
            lemma_children_short(self@);
            lemma_children_short(vex@);
        }
        let ca = child_boxes(&self);
        let cb = child_boxes(&vex);
        let ghost xs = views(ca@);
        let ghost ys = views(cb@);
        let mut u: Vec<BoxValue<AnyBox>> = Vec::new();
        let ghost mut count: int = 0;
        proof {
            assert(views(u@) =~= Seq::<Seq<Row>>::empty());
            assert(xs.take(0) =~= Seq::<Seq<Row>>::empty());
            assert(unixel_terms(xs.take(0), ys) =~= Seq::<Term>::empty());
            assert(term_fold(Seq::<Term>::empty()) =~= Seq::<Seq<Row>>::empty());
            assert(flatten(Seq::<Seq<Row>>::empty()).len() == 0);
        }
        let mut i: usize = 0;
        while i < ca.len()
            invariant
                la == self@.len(),
                lb == vex@.len(),
                la + lb < u32::MAX,
                i <= ca@.len(),
                xs == views(ca@),
                ys == views(cb@),
                xs == children(self@),
                ys == children(vex@),
                xs.len() < la,
                ys.len() < lb,
                all_inv(ca@),
                all_inv(cb@),
                all_trees(xs),
                all_trees(ys),
                all_pixels(self@),
                all_unixels(vex@),
                forall|k: int| 0 <= k < xs.len() ==> (#[trigger] xs[k]).len() < la,
                forall|k: int| 0 <= k < ys.len() ==> (#[trigger] ys[k]).len() < lb,
                all_inv(u@),
                all_trees(views(u@)),
                distinct_contents(views(u@)),
                views(u@) == term_fold(unixel_terms(xs.take(i as int), ys)),
                0 <= count <= i * ys.len(),
                flatten(views(u@)).len() <= count * (la + lb),
            decreases ca.len() - i,
        {
            let ghost xi = xs[i as int];
            let ghost before = unixel_terms(xs.take(i as int), ys);
            let mut j: usize = 0;
            proof {
                assert(ca@[i as int].inv());
                assert(is_tree(xi));
                assert(pixel_like(xi));
                assert(ys.take(0) =~= Seq::<Seq<Row>>::empty());
                assert(before + unixel_terms_with(xi, ys.take(0)) =~= before);
            }
            while j < cb.len()
                invariant
                    la == self@.len(),
                    lb == vex@.len(),
                    la + lb < u32::MAX,
                    i < ca@.len(),
                    j <= cb@.len(),
                    xs == views(ca@),
                    ys == views(cb@),
                    xs == children(self@),
                    ys == children(vex@),
                    xs.len() < la,
                    ys.len() < lb,
                    xi == xs[i as int],
                    pixel_like(xi),
                    xi.len() < la,
                    all_inv(ca@),
                    all_inv(cb@),
                    all_trees(xs),
                    all_trees(ys),
                    all_unixels(vex@),
                    forall|k: int| 0 <= k < ys.len() ==> (#[trigger] ys[k]).len() < lb,
                    all_inv(u@),
                    all_trees(views(u@)),
                    distinct_contents(views(u@)),
                    views(u@) == term_fold(before + unixel_terms_with(xi, ys.take(j as int))),
                    0 <= count <= i * ys.len() + j,
                    flatten(views(u@)).len() <= count * (la + lb),
                decreases cb.len() - j,
            {
                let ghost yj = ys[j as int];
                proof {
                    assert(cb@[j as int].inv());
                    assert(is_tree(yj));
                    assert(unixel_like(yj));
                    assert(ys.take(j + 1).drop_last() =~= ys.take(j as int));
                    assert(ys.take(j + 1).last() == yj);
                }
                let lp = ca[i].duplicate();
                let ru = cb[j].duplicate();
                let col = lp.get_color(0);
                let lhs_mul = lp.get_multiplicity(0);
                let rhs_mul = ru.get_multiplicity(0);
                let lpp: BoxValue<PixelBox> = lp.cast();
                let prod = lpp.mul_pix_unix(ru.cast());
                match prod {
                    Some(unixel) => {
                        let ghost t = Term {
                            rows: unixel@,
                            color: col,
                            left: lhs_mul@,
                            right: rhs_mul@,
                        };
                        proof {
                            assert(unixel_terms_with(xi, ys.take(j + 1)) == unixel_terms_with(xi, ys.take(j as int)).push(t));
                            assert(before + unixel_terms_with(xi, ys.take(j + 1)) =~= (before + unixel_terms_with(
                                xi,
                                ys.take(j as int),
                            )).push(t));
                            lemma_term_fold_push(before + unixel_terms_with(xi, ys.take(j as int)), t);
                            lemma_children_short(xi);
                            assert(unixel@.len() <= la + lb);
                        }
                        add_term(&mut u, unixel.cast(), col, &lhs_mul, &rhs_mul);
                        proof {
                            let cnt = count;
                            assert((cnt + 1) * (la + lb) == cnt * (la + lb) + (la + lb)) by (nonlinear_arith);
                            count = count + 1;
                        }
                    },
                    None => {
                        proof {
                            assert(unixel_terms_with(xi, ys.take(j + 1)) == unixel_terms_with(xi, ys.take(j as int)));
                        }
                    },
                }
                j = j + 1;
            }
            proof {
                assert(ys.take(j as int) =~= ys);
                assert(xs.take(i + 1).drop_last() =~= xs.take(i as int));
                assert(xs.take(i + 1).last() == xi);
                assert(count <= (i + 1) * ys.len()) by (nonlinear_arith)
                    requires
                        count <= i * ys.len() + ys.len(),
                ;
            }
            i = i + 1;
        }
        let ghost vu = views(u@);
        proof {
            assert(xs.take(i as int) =~= xs);
            let nx = xs.len() as int;
            let ny = ys.len() as int;
            assert(count * (la + lb) <= la * lb * (la + lb)) by (nonlinear_arith)
                requires
                    0 <= count <= nx * ny,
                    0 <= nx < la,
                    0 <= ny < lb,
            ;
        }
        let cs = canonicalize(u);
        let ghost vs = views(cs@);
        let ghost m = mk_box(head_row(BoxKind::Vexel, Color::Black, 1), vs);
        proof {
            lemma_arranged_members(vu, vs);
            assert(all_trees(vs)) by {
                assert forall|k: int| 0 <= k < vs.len() implies is_tree(#[trigger] vs[k]) by {
                    assert(vu.contains(vs[k]));
                }
            }
            crate::model::lemma_mk_box(head_row(BoxKind::Vexel, Color::Black, 1), vs);
            assert(arranged(BoxKind::Vexel, vu, m));
            lemma_arranged_is(BoxKind::Vexel, vu, m);
        }
        let r = crate::canon::assemble::<VexelBox>(BoxKind::Vexel, Color::Black, Natural::one(), cs);
        proof {
            assert(r@ == m);
        }
        r
    }
}

/// The views of a vector of boxes of any type.
pub open spec fn views_of<V: BoxType>(v: Seq<BoxValue<V>>) -> Seq<Seq<Row>> {
    Seq::new(v.len(), |i: int| v[i]@)
}

/// Exec: the box of the given kind, black and of multiplicity one, whose children are the
/// given boxes in the given order.
pub fn gather<U: BoxType, V: BoxType>(kind: BoxKind, items: Vec<BoxValue<V>>) -> (r: BoxValue<U>)
    requires
        forall|i: int| 0 <= i < items@.len() ==> (#[trigger] items@[i]).inv(),
        all_trees(views_of(items@)),
        1 + flatten(views_of(items@)).len() <= u32::MAX,
    ensures
        r.wf(),
        r@ == mk_box(head_row(kind, Color::Black, 1), views_of(items@)),
        children(r@) == views_of(items@),
{
    let ghost vs = views_of(items@);
    let mut r = BoxValue::<U>::new();
    r.push_row(kind, Color::Black, Natural::one(), 1);
    let mut k: usize = 0;
    let n = items.len();
    let mut items = items;
    let mut rev: Vec<BoxValue<V>> = Vec::new();
    while items.len() > 0
        invariant
            forall|i: int| 0 <= i < items@.len() ==> (#[trigger] items@[i]).inv(),
            forall|i: int| 0 <= i < rev@.len() ==> (#[trigger] rev@[i]).inv(),
            items@.len() + rev@.len() == n,
            vs.len() == n,
            views_of(items@) == vs.take(items@.len() as int),
            views_of(rev@) == vs.skip(items@.len() as int).reverse(),
        decreases items.len(),
    {
        let ghost old_items = items@;
        let ghost old_rev = rev@;
        let b = items.pop().unwrap();
        rev.push(b);
        proof {
            assert(views_of(items@) =~= vs.take(items@.len() as int)) by {
                assert forall|i: int| 0 <= i < items@.len() implies views_of(items@)[i] == vs.take(items@.len() as int)[i] by {
                    assert(items@[i] == old_items[i]);
                    assert(views_of(old_items)[i] == vs.take(old_items.len() as int)[i]);
                }
            }
            assert(views_of(rev@) =~= vs.skip(items@.len() as int).reverse()) by {
                assert forall|i: int| 0 <= i < rev@.len() implies views_of(rev@)[i] == vs.skip(items@.len() as int).reverse()[i] by {
                    if i < old_rev.len() {
                        assert(rev@[i] == old_rev[i]);
                        assert(views_of(old_rev)[i] == vs.skip(old_items.len() as int).reverse()[i]);
                    } else {
                        assert(views_of(old_items)[items@.len() as int] == vs.take(old_items.len() as int)[items@.len() as int]);
                    }
                }
            }
            assert forall|i: int| 0 <= i < items@.len() implies (#[trigger] items@[i]).inv() by {
                assert(items@[i] == old_items[i]);
            }
            assert forall|i: int| 0 <= i < rev@.len() implies (#[trigger] rev@[i]).inv() by {
                if i < old_rev.len() {
                    assert(rev@[i] == old_rev[i]);
                }
            }
        }
    }
    proof {
        assert(vs.skip(0) =~= vs);
        assert(vs.take(0) =~= Seq::<Seq<Row>>::empty());
        assert(r@ =~= mk_box(head_row(kind, Color::Black, 1), vs.take(0)));
    }
    while rev.len() > 0
        invariant
            forall|i: int| 0 <= i < rev@.len() ==> (#[trigger] rev@[i]).inv(),
            r.inv(),
            k + rev@.len() == n,
            vs.len() == n,
            views_of(rev@) == vs.skip(k as int).reverse(),
            r@ == mk_box(head_row(kind, Color::Black, 1), vs.take(k as int)),
            all_trees(vs),
            1 + flatten(vs).len() <= u32::MAX,
        decreases rev.len(),
    {
        let ghost old_rev = rev@;
        let c = rev.pop().unwrap();
        proof {
            assert(c@ == vs[k as int]) by {
                assert(views_of(old_rev)[old_rev.len() - 1] == vs.skip(k as int).reverse()[old_rev.len() - 1]);
            }
            assert(vs.take(k + 1) =~= vs.take(k as int).push(c@));
            lemma_flatten_push(vs.take(k as int), c@);
            assert(vs =~= vs.take(k + 1) + vs.skip(k + 1));
            crate::model::lemma_flatten_append(vs.take(k + 1), vs.skip(k + 1));
            assert(is_tree(vs[k as int]));
        }
        r.extend(c);
        proof {
            assert(r@ =~= mk_box(head_row(kind, Color::Black, 1), vs.take(k + 1)));
        }
        k = k + 1;
        proof {
            assert(views_of(rev@) =~= vs.skip(k as int).reverse()) by {
                assert forall|i: int| 0 <= i < rev@.len() implies views_of(rev@)[i] == vs.skip(k as int).reverse()[i] by {
                    assert(rev@[i] == old_rev[i]);
                    assert(views_of(old_rev)[i] == vs.skip(k - 1).reverse()[i]);
                }
            }
            assert forall|i: int| 0 <= i < rev@.len() implies (#[trigger] rev@[i]).inv() by {
                assert(rev@[i] == old_rev[i]);
            }
        }
    }
    proof {
        assert(vs.take(k as int) =~= vs);
        lemma_mk_box(head_row(kind, Color::Black, 1), vs);
    }
    r
}

impl BoxValue<VexelBox> {
    /// Create a vexel from unixels
    pub fn from_unixels(value: Vec<BoxValue<UnixelBox>>) -> (r: Self)
        requires
            forall|i: int| 0 <= i < value@.len() ==> (#[trigger] value@[i]).inv(),
            all_trees(views_of(value@)),
            1 + flatten(views_of(value@)).len() <= u32::MAX,
        ensures
            r.wf(),
            r@ == mk_box(head_row(BoxKind::Vexel, Color::Black, 1), views_of(value@)),
    {
        gather(BoxKind::Vexel, value)
    }
}

impl BoxValue<MaxelBox> {
    /// Create a maxel from pixels
    pub fn from_pixels(value: Vec<BoxValue<PixelBox>>) -> (r: Self)
        requires
            forall|i: int| 0 <= i < value@.len() ==> (#[trigger] value@[i]).inv(),
            all_trees(views_of(value@)),
            1 + flatten(views_of(value@)).len() <= u32::MAX,
        ensures
            r.wf(),
            r@ == mk_box(head_row(BoxKind::Maxel, Color::Black, 1), views_of(value@)),
    {
        gather(BoxKind::Maxel, value)
    }
}

/// The unixels holding each box.
pub open spec fn unixels_of(xs: Seq<Seq<Row>>) -> Seq<Seq<Row>> {
    Seq::new(xs.len(), |i: int| unixel_rows(xs[i]))
}

/// The pixels holding each pair of boxes.
pub open spec fn pixels_of(xs: Seq<Seq<Row>>, ys: Seq<Seq<Row>>) -> Seq<Seq<Row>> {
    Seq::new(xs.len(), |i: int| pixel_rows(xs[i], ys[i]))
}

/// Exec: the vexel of unixels holding the given boxes, equal unixels combined.
pub fn vexel(items: Vec<BoxValue<AnyBox>>) -> (r: BoxVariant)
    requires
        all_inv(items@),
        all_trees(views(items@)),
        1 + items@.len() + flatten(views(items@)).len() <= u32::MAX,
    ensures
        r.wf(),
        r.tag() == BoxKind::Vexel,
        combined(BoxKind::Vexel, Color::Black, unixels_of(views(items@)), r@),
        r@ == combination(BoxKind::Vexel, Color::Black, unixels_of(views(items@))),
{
    let ghost xs = views(items@);
    let ghost us = unixels_of(xs);
    let mut ws: Vec<BoxValue<AnyBox>> = Vec::new();
    let mut k: usize = 0;
    proof {
        assert(views(ws@) =~= us.take(0));
        assert(xs.take(0) =~= Seq::<Seq<Row>>::empty());
        assert(flatten(Seq::<Seq<Row>>::empty()).len() == 0);
    }
    while k < items.len()
        invariant
            k <= items@.len(),
            xs == views(items@),
            us == unixels_of(xs),
            all_inv(items@),
            all_trees(xs),
            1 + items@.len() + flatten(xs).len() <= u32::MAX,
            all_inv(ws@),
            ws@.len() == k,
            us.len() == items@.len(),
            views(ws@) == us.take(k as int),
            flatten(us.take(k as int)).len() == k + flatten(xs.take(k as int)).len(),
        decreases items.len() - k,
    {
        proof {
            assert(items@[k as int].inv());
            assert(is_tree(xs[k as int]));
            crate::mul::lemma_child_lens(xs);
            assert(xs =~= xs.take(k + 1) + xs.skip(k + 1));
            crate::model::lemma_flatten_append(xs.take(k + 1), xs.skip(k + 1));
            assert(xs.take(k + 1) =~= xs.take(k as int).push(xs[k as int]));
            lemma_flatten_push(xs.take(k as int), xs[k as int]);
            assert(us.take(k + 1) =~= us.take(k as int).push(us[k as int]));
            lemma_flatten_push(us.take(k as int), us[k as int]);
        }
        let x = items[k].duplicate();
        let w = BoxValue::<UnixelBox>::unixel(x);
        let ghost old_ws = ws@;
        ws.push(w.cast());
        proof {
            assert(views(ws@) =~= us.take(k + 1)) by {
                assert forall|i: int| 0 <= i < ws@.len() implies views(ws@)[i] == us.take(k + 1)[i] by {
                    if i < k {
                        assert(ws@[i] == old_ws[i]);
                        assert(views(old_ws)[i] == us.take(k as int)[i]);
                    }
                }
            }
            assert forall|i: int| 0 <= i < ws@.len() implies (#[trigger] ws@[i]).inv() by {
                if i < k {
                    assert(ws@[i] == old_ws[i]);
                }
            }
        }
        k = k + 1;
    }
    proof {
        assert(us.take(k as int) =~= us);
        assert(xs.take(k as int) =~= xs);
        assert forall|i: int| 0 <= i < us.len() implies is_tree(#[trigger] us[i]) by {
            assert(is_tree(xs[i]));
            assert(all_trees(seq![xs[i]]));
            lemma_mk_box(head_row(BoxKind::Unixel, Color::Black, 1), seq![xs[i]]);
            crate::canon::lemma_flatten_single(xs[i]);
            assert(mk_box(head_row(BoxKind::Unixel, Color::Black, 1), seq![xs[i]]) =~= us[i]);
        }
    }
    let r = combine_into::<VexelBox>(BoxKind::Vexel, ws);
    BoxVariant::Vexel(r)
}

/// Exec: the maxel of pixels holding the given pairs of boxes, equal pixels combined.
pub fn maxel(pairs: Vec<(BoxValue<AnyBox>, BoxValue<AnyBox>)>) -> (r: BoxVariant)
    requires
        forall|i: int| 0 <= i < pairs@.len() ==> (#[trigger] pairs@[i]).0.inv() && pairs@[i].1.inv(),
        forall|i: int| 0 <= i < pairs@.len() ==> is_tree((#[trigger] pairs@[i]).0@) && is_tree(pairs@[i].1@),
        1 + flatten(pixels_of(
            Seq::new(pairs@.len(), |i: int| pairs@[i].0@),
            Seq::new(pairs@.len(), |i: int| pairs@[i].1@),
        )).len() <= u32::MAX,
    ensures
        r.wf(),
        r.tag() == BoxKind::Maxel,
        combined(
            BoxKind::Maxel,
            Color::Black,
            pixels_of(
                Seq::new(pairs@.len(), |i: int| pairs@[i].0@),
                Seq::new(pairs@.len(), |i: int| pairs@[i].1@),
            ),
            r@,
        ),
{
    let ghost xs = Seq::new(pairs@.len(), |i: int| pairs@[i].0@);
    let ghost ys = Seq::new(pairs@.len(), |i: int| pairs@[i].1@);
    let ghost ps = pixels_of(xs, ys);
    let mut ws: Vec<BoxValue<AnyBox>> = Vec::new();
    let mut k: usize = 0;
    proof {
        assert(views(ws@) =~= ps.take(0));
    }
    while k < pairs.len()
        invariant
            k <= pairs@.len(),
            xs == Seq::new(pairs@.len(), |i: int| pairs@[i].0@),
            ys == Seq::new(pairs@.len(), |i: int| pairs@[i].1@),
            ps == pixels_of(xs, ys),
            forall|i: int| 0 <= i < pairs@.len() ==> (#[trigger] pairs@[i]).0.inv() && pairs@[i].1.inv(),
            forall|i: int| 0 <= i < pairs@.len() ==> is_tree((#[trigger] pairs@[i]).0@) && is_tree(pairs@[i].1@),
            1 + flatten(ps).len() <= u32::MAX,
            ps.len() == pairs@.len(),
            all_inv(ws@),
            ws@.len() == k,
            views(ws@) == ps.take(k as int),
        decreases pairs.len() - k,
    {
        proof {
            assert(pairs@[k as int].0.inv());
            crate::mul::lemma_child_lens(ps);
            assert(ps[k as int] == pixel_rows(xs[k as int], ys[k as int]));
        }
        let x = pairs[k].0.duplicate();
        let y = pairs[k].1.duplicate();
        let w = BoxValue::<PixelBox>::pixel(x, y);
        let ghost old_ws = ws@;
        ws.push(w.cast());
        proof {
            assert(views(ws@) =~= ps.take(k + 1)) by {
                assert forall|i: int| 0 <= i < ws@.len() implies views(ws@)[i] == ps.take(k + 1)[i] by {
                    if i < k {
                        assert(ws@[i] == old_ws[i]);
                        assert(views(old_ws)[i] == ps.take(k as int)[i]);
                    }
                }
            }
            assert forall|i: int| 0 <= i < ws@.len() implies (#[trigger] ws@[i]).inv() by {
                if i < k {
                    assert(ws@[i] == old_ws[i]);
                }
            }
        }
        k = k + 1;
    }
    proof {
        assert(ps.take(k as int) =~= ps);
        assert forall|i: int| 0 <= i < ps.len() implies is_tree(#[trigger] ps[i]) by {
            let cs = seq![xs[i], ys[i]];
            assert(is_tree(pairs@[i].0@) && is_tree(pairs@[i].1@));
            assert(all_trees(cs));
            lemma_mk_box(head_row(BoxKind::Pixel, Color::Black, 1), cs);
            assert(cs =~= seq![xs[i]].push(ys[i]));
            lemma_flatten_push(seq![xs[i]], ys[i]);
            crate::canon::lemma_flatten_single(xs[i]);
            assert(mk_box(head_row(BoxKind::Pixel, Color::Black, 1), cs) =~= ps[i]);
        }
    }
    let r = combine_into::<MaxelBox>(BoxKind::Maxel, ws);
    BoxVariant::Maxel(r)
}

/// Exec: the black box of the given kind whose children combine the given boxes by content.
pub fn combine_into<U: BoxType>(kind: BoxKind, ws: Vec<BoxValue<AnyBox>>) -> (r: BoxValue<U>)
    requires
        all_inv(ws@),
        all_trees(views(ws@)),
        1 + flatten(views(ws@)).len() <= u32::MAX,
    ensures
        r.wf(),
        combined(kind, Color::Black, views(ws@), r@),
        r@ == combination(kind, Color::Black, views(ws@)),
{
    let ghost vw = views(ws@);
    let mut u: Vec<BoxValue<AnyBox>> = Vec::new();
    proof {
        assert(views(u@) =~= Seq::<Seq<Row>>::empty());
        assert(flatten(Seq::<Seq<Row>>::empty()).len() == 0);
    }
    merge_all(&mut u, ws);
    let ghost vu = views(u@);
    let cs = canonicalize(u);
    let ghost vs = views(cs@);
    let r = crate::canon::assemble::<U>(kind, Color::Black, Natural::one(), cs);
    proof {
        assert(children(r@) == vs);
        assert forall|c: Seq<Row>| #[trigger] tally(children(r@), c) == tally(vw, c) by {
            assert(tally(vs, c) == tally(vu, c));
            assert(tally(Seq::<Seq<Row>>::empty(), c) == 0);
        }
        assert(combined(kind, Color::Black, vw, r@));
        lemma_combined_is(kind, Color::Black, vw, r@);
    }
    r
}

} // verus!
