//! The caret operation, one level above multiplication: the children of the two
//! boxes are multiplied pairwise, and the products are added up.
use crate::add::add_kinds;
use crate::canon::{all_inv, canonical, canonicalize, child_boxes, content, distinct_contents, eq_content, tally, views};
use crate::model::{all_trees, children, flatten, is_tree, lemma_tree_split, mk_box, Row};
use crate::mul::{box_product, product_fits, product_post, BoxMul};
use crate::natural::Natural;
use crate::set::has_content;
use crate::value::{head_row, leaf_rows, row_with_color, row_with_mult, BoxValue};
use crate::variant::{both_numeric, mul_shapes, variant_product, BoxVariant};
use crate::{color_xor, AnyBox, BoxKind, BoxType, Color};
use crate::add::kind_add;
use vstd::prelude::*;

verus! {

/// Caret operation is the next operation after multiplication, one level up the hierarchy
/// It is defined as multiplication of child boxes
pub trait Caret<Rhs = Self>: Sized {
    type Output;

    /// The arguments on which the operation is defined.
    spec fn caret_defined(&self, rhs: &Rhs) -> bool;

    fn caret(self, rhs: Rhs) -> (r: Self::Output)
        requires
            self.caret_defined(&rhs),
    ;
}

/// The term contributed by a pair of children: their product, with the product of their
/// multiplicities.
pub open spec fn caret_term(x: Seq<Row>, y: Seq<Row>) -> Seq<Row> {
    let p = box_product(x, y);
    p.update(0, row_with_mult(p[0], x[0].mult * y[0].mult))
}

/// The terms of one child of the left box with all children of the right box.
pub open spec fn caret_terms_with(x: Seq<Row>, ys: Seq<Seq<Row>>) -> Seq<Seq<Row>> {
    Seq::new(ys.len(), |j: int| caret_term(x, ys[j]))
}

/// The terms of all pairs of children, row by row.
pub open spec fn caret_terms(xs: Seq<Seq<Row>>, ys: Seq<Seq<Row>>) -> Seq<Seq<Row>>
    decreases xs.len(),
{
    if xs.len() == 0 {
        Seq::empty()
    } else {
        caret_terms(xs.drop_last(), ys) + caret_terms_with(xs.last(), ys)
    }
}

/// The largest number of rows of the product of two children of boxes with these numbers of rows.
pub open spec fn child_product_bound(la: nat, lb: nat) -> nat {
    1 + la * lb * (la + lb)
}

/// Boxes with these numbers of rows are small enough for the caret operation.
pub open spec fn caret_fits(la: nat, lb: nat) -> bool {
    la * lb * child_product_bound(la, lb) < u32::MAX
}

/// The caret of two boxes fits in the rows' lengths as it actually is: every product of a
/// child of one with a child of the other fits, and so does the result.
pub open spec fn caret_fits_actual(a: Seq<Row>, b: Seq<Row>) -> bool {
    &&& forall|i: int, j: int|
        0 <= i < children(a).len() && 0 <= j < children(b).len() ==> #[trigger] product_fits(
            children(a)[i],
            children(b)[j],
        )
    &&& box_caret(a, b).len() <= u32::MAX
}

/// The box kept when a term `t` meets the kept box `o` of the same content.  Equal colors add
/// the multiplicities.  Opposite colors take the smaller multiplicity from the larger: where
/// the term's is the smaller, from the kept box's; otherwise the difference becomes the
/// multiplicity of the second row, and the first row takes the term's color.
pub open spec fn caret_combine(o: Seq<Row>, t: Seq<Row>) -> Seq<Row> {
    if o[0].color == t[0].color {
        o.update(0, row_with_mult(o[0], o[0].mult + t[0].mult))
    } else if t[0].mult < o[0].mult {
        o.update(0, row_with_mult(o[0], (o[0].mult - t[0].mult) as nat))
    } else {
        o.update(1, row_with_mult(o[1], (t[0].mult - o[0].mult) as nat)).update(
            0,
            row_with_color(o[0], t[0].color),
        )
    }
}

/// A second row is there wherever the combination writes to it.
pub open spec fn caret_meet_ok(o: Seq<Row>, t: Seq<Row>) -> bool {
    o[0].color == t[0].color || t[0].mult < o[0].mult || o.len() >= 2
}

/// The position of a box with the content.
pub open spec fn content_index(s: Seq<Seq<Row>>, c: Seq<Row>) -> int {
    choose|k: int| 0 <= k < s.len() && content(s[k]) == c
}

/// The kept boxes, of distinct contents, after the term `t`: a term of a new content is
/// kept; one of a content already kept is combined with that box, which is kept unless its
/// content has become that of another kept box.
pub open spec fn caret_merge(s: Seq<Seq<Row>>, t: Seq<Row>) -> Seq<Seq<Row>> {
    if has_content(s, content(t)) {
        let k = content_index(s, content(t));
        let o = caret_combine(s[k], t);
        let rest = s.remove(k);
        if has_content(rest, content(o)) {
            rest
        } else {
            rest.push(o)
        }
    } else {
        s.push(t)
    }
}

/// The term can be merged into the kept boxes.
pub open spec fn caret_merge_ok(s: Seq<Seq<Row>>, t: Seq<Row>) -> bool {
    has_content(s, content(t)) ==> caret_meet_ok(s[content_index(s, content(t))], t)
}

/// The kept boxes after the terms, merged in turn.
pub open spec fn caret_fold(ts: Seq<Seq<Row>>) -> Seq<Seq<Row>>
    decreases ts.len(),
{
    if ts.len() == 0 {
        Seq::empty()
    } else {
        caret_merge(caret_fold(ts.drop_last()), ts.last())
    }
}

/// Every term can be merged in turn.
pub open spec fn caret_fold_ok(ts: Seq<Seq<Row>>) -> bool
    decreases ts.len(),
{
    ts.len() == 0 || (caret_fold_ok(ts.drop_last()) && caret_merge_ok(caret_fold(ts.drop_last()), ts.last()))
}

proof fn lemma_fold_ok_prefix(ts: Seq<Seq<Row>>, k: int)
    requires
        caret_fold_ok(ts),
        0 <= k <= ts.len(),
    ensures
        caret_fold_ok(ts.take(k)),
    decreases ts.len() - k,
{
    if k < ts.len() {
        assert(ts.drop_last() =~= ts.take(ts.len() - 1));
        lemma_fold_ok_prefix(ts.drop_last(), k);
        assert(ts.drop_last().take(k) =~= ts.take(k));
    } else {
        assert(ts.take(k) =~= ts);
    }
}

/// The terms of the pairs of children come row by row: the term of the `i`th child of the
/// left box with the `j`th child of the right box stands at `i * ys.len() + j`.
proof fn lemma_caret_terms_index(xs: Seq<Seq<Row>>, ys: Seq<Seq<Row>>)
    ensures
        caret_terms(xs, ys).len() == xs.len() * ys.len(),
        forall|i: int, j: int|
            0 <= i < xs.len() && 0 <= j < ys.len() ==> #[trigger] caret_terms(xs, ys)[i * ys.len() + j]
                == caret_term(xs[i], ys[j]),
    decreases xs.len(),
{
    let ny = ys.len() as int;
    if xs.len() == 0 {
        assert(xs.len() * ys.len() == 0);
    } else {
        let p = xs.drop_last();
        lemma_caret_terms_index(p, ys);
        let np = p.len() as int;
        assert(xs.len() * ys.len() == np * ny + ny) by (nonlinear_arith)
            requires
                xs.len() == np + 1,
                ny == ys.len(),
        ;
        assert forall|i: int, j: int| 0 <= i < xs.len() && 0 <= j < ys.len() implies #[trigger] caret_terms(
            xs,
            ys,
        )[i * ys.len() + j] == caret_term(xs[i], ys[j]) by {
            if i < np {
                assert(i * ny + j < np * ny) by (nonlinear_arith)
                    requires
                        0 <= i < np,
                        0 <= j < ny,
                ;
                assert(i * ny + j >= 0) by (nonlinear_arith)
                    requires
                        0 <= i,
                        0 <= j,
                        ny >= 0,
                ;
                assert(caret_terms(p, ys)[i * ny + j] == caret_term(p[i], ys[j]));
                assert(p[i] == xs[i]);
            } else {
                assert(i * ny + j == np * ny + j);
            }
        }
    }
}

/// Combining a term into the kept box.
fn caret_combine_exec(o: BoxValue<AnyBox>, t: &BoxValue<AnyBox>) -> (r: BoxValue<AnyBox>)
    requires
        o.inv(),
        t.inv(),
        o@.len() > 0,
        t@.len() > 0,
        caret_meet_ok(o@, t@),
    ensures
        r.inv(),
        r@ == caret_combine(o@, t@),
{
    let oc = o.get_color(0);
    let tc = t.get_color(0);
    let om = o.get_multiplicity(0);
    let tm = t.get_multiplicity(0);
    let mut r = o;
    if oc == tc {
        r.set_multiplicity(0, om.add(&tm));
    } else if tm.lt(&om) {
        r.set_multiplicity(0, om.saturating_sub(&tm));
    } else {
        r.set_multiplicity(1, tm.saturating_sub(&om));
        r.set_color(0, tc);
    }
    r
}

/// Merges one term into the kept boxes.
fn caret_merge_into(u: &mut Vec<BoxValue<AnyBox>>, t: BoxValue<AnyBox>)
    requires
        all_inv(old(u)@),
        all_trees(views(old(u)@)),
        distinct_contents(views(old(u)@)),
        t.inv(),
        is_tree(t@),
        caret_merge_ok(views(old(u)@), t@),
    ensures
        all_inv(final(u)@),
        all_trees(views(final(u)@)),
        distinct_contents(views(final(u)@)),
        views(final(u)@) == caret_merge(views(old(u)@), t@),
        flatten(views(final(u)@)).len() <= flatten(views(old(u)@)).len() + t@.len(),
{
    let ghost vo = views(u@);
    let n = u.len();
    let mut j: usize = 0;
    while j < n
        invariant
            views(u@) == vo,
            n == u@.len(),
            j <= n,
            all_inv(u@),
            all_trees(vo),
            t.inv(),
            is_tree(t@),
            forall|k: int| 0 <= k < j ==> content(#[trigger] vo[k]) != content(t@),
        ensures
            j <= n,
            j < n ==> content(vo[j as int]) == content(t@),
            forall|k: int| 0 <= k < j ==> content(#[trigger] vo[k]) != content(t@),
        decreases n - j,
    {
        proof {
            assert(u@[j as int].inv());
            assert(is_tree(vo[j as int]));
            assert(views(u@)[j as int] == u@[j as int]@);
        }
        if eq_content(&u[j], &t) {
            break;
        }
        j = j + 1;
    }
    if j < n {
        proof {
            assert(u@[j as int].inv());
            assert(is_tree(vo[j as int]));
            assert(views(u@)[j as int] == u@[j as int]@);
            assert(has_content(vo, content(t@)));
            let k = content_index(vo, content(t@));
            assert(content(vo[k]) == content(t@));
            if k != j {
                assert(content(vo[k]) != content(vo[j as int]));
            }
            crate::model::lemma_tree_basics(vo[j as int]);
            crate::model::lemma_tree_basics(t@);
        }
        let ghost old_u = u@;
        let other = u.remove(j);
        let ghost rest = views(u@);
        proof {
            assert(rest =~= vo.remove(j as int)) by {
                assert forall|k: int| 0 <= k < rest.len() implies rest[k] == vo.remove(j as int)[k] by {
                    if k < j {
                        assert(u@[k] == old_u[k]);
                    } else {
                        assert(u@[k] == old_u[k + 1]);
                    }
                }
            }
            assert forall|k: int| 0 <= k < u@.len() implies (#[trigger] u@[k]).inv() by {
                if k < j {
                    assert(u@[k] == old_u[k]);
                } else {
                    assert(u@[k] == old_u[k + 1]);
                }
            }
            assert(vo.remove(j as int).insert(j as int, vo[j as int]) =~= vo);
            crate::canon::lemma_flatten_insert_len(rest, j as int, vo[j as int]);
        }
        let o2 = caret_combine_exec(other, &t);
        let ghost ov = o2@;
        proof {
            let ow = vo[j as int];
            assert(crate::model::same_lens(ow, ov));
            crate::model::lemma_same_lens_tree(ow, ov);
            assert(ov.len() == ow.len());
        }
        let m = u.len();
        let mut k: usize = 0;
        let mut hit = false;
        while k < m
            invariant_except_break
                !hit,
            invariant
                views(u@) == rest,
                m == u@.len(),
                k <= m,
                all_inv(u@),
                all_trees(rest),
                o2.inv(),
                is_tree(ov),
                ov == o2@,
                forall|a: int| 0 <= a < k ==> content(#[trigger] rest[a]) != content(ov),
            ensures
                k <= m,
                hit ==> has_content(rest, content(ov)),
                !hit ==> forall|a: int| 0 <= a < m ==> content(#[trigger] rest[a]) != content(ov),
            decreases m - k,
        {
            proof {
                assert(u@[k as int].inv());
                assert(is_tree(rest[k as int]));
                assert(views(u@)[k as int] == u@[k as int]@);
            }
            if eq_content(&u[k], &o2) {
                hit = true;
                proof {
                    assert(content(rest[k as int]) == content(ov));
                }
                break;
            }
            k = k + 1;
        }
        if !hit {
            let ghost before = u@;
            u.push(o2);
            proof {
                assert(views(u@) =~= rest.push(ov)) by {
                    assert forall|a: int| 0 <= a < u@.len() implies views(u@)[a] == rest.push(ov)[a] by {
                        if a < before.len() {
                            assert(u@[a] == before[a]);
                        }
                    }
                }
                assert forall|a: int| 0 <= a < u@.len() implies (#[trigger] u@[a]).inv() by {
                    if a < before.len() {
                        assert(u@[a] == before[a]);
                    }
                }
                crate::model::lemma_flatten_push(rest, ov);
            }
        }
    } else {
        let ghost tv = t@;
        let ghost before = u@;
        u.push(t);
        proof {
            assert(!has_content(vo, content(tv)));
            assert(views(u@) =~= vo.push(tv)) by {
                assert forall|a: int| 0 <= a < u@.len() implies views(u@)[a] == vo.push(tv)[a] by {
                    if a < before.len() {
                        assert(u@[a] == before[a]);
                    }
                }
            }
            assert forall|a: int| 0 <= a < u@.len() implies (#[trigger] u@[a]).inv() by {
                if a < before.len() {
                    assert(u@[a] == before[a]);
                }
            }
            crate::model::lemma_flatten_push(vo, tv);
        }
    }
}

/// `r` is the caret of `a` and `b`.
pub open spec fn caret_post(a: Seq<Row>, b: Seq<Row>, r: Seq<Row>) -> bool {
    &&& is_tree(r)
    &&& r[0].color == color_xor(a[0].color, b[0].color)
    &&& r[0].mult == a[0].mult * b[0].mult
    &&& r[0].kind == kind_add(a[0].kind, b[0].kind)
    &&& canonical(children(r))
    &&& forall|c: Seq<Row>| #[trigger]
        tally(children(r), c) == tally(caret_fold(caret_terms(children(a), children(b))), c)
}

/// The caret of two boxes.
pub open spec fn box_caret(a: Seq<Row>, b: Seq<Row>) -> Seq<Row> {
    choose|r: Seq<Row>| caret_post(a, b, r)
}

/// The description of a caret determines it.
pub proof fn lemma_caret_is(a: Seq<Row>, b: Seq<Row>, r: Seq<Row>)
    requires
        caret_post(a, b, r),
    ensures
        box_caret(a, b) == r,
{
    let s = box_caret(a, b);
    assert(caret_post(a, b, s));
    assert forall|c: Seq<Row>| tally(children(r), c) == tally(children(s), c) by {
        assert(tally(children(r), c) == tally(caret_fold(caret_terms(children(a), children(b))), c));
        assert(tally(children(s), c) == tally(caret_fold(caret_terms(children(a), children(b))), c));
    }
    crate::canon::lemma_canonical_unique(children(r), children(s));
    lemma_tree_split(r);
    lemma_tree_split(s);
    assert(crate::model::row_with_len(r[0], 1 + flatten(children(r)).len()) == crate::model::row_with_len(
        s[0],
        1 + flatten(children(r)).len(),
    ));
}

impl<L: BoxType + BoxMul<R>, R: BoxType> Caret<BoxValue<R>> for BoxValue<L> {
    type Output = BoxValue<<L as BoxMul<R>>::Output>;

    open spec fn caret_defined(&self, rhs: &BoxValue<R>) -> bool {
        &&& self.wf()
        &&& rhs.wf()
        &&& caret_fits(self@.len(), rhs@.len()) || caret_fits_actual(self@, rhs@)
        &&& caret_fold_ok(caret_terms(children(self@), children(rhs@)))
    }

    /// Caret operation for two boxes
    #[verifier::rlimit(60)]
    fn caret(self, rhs: BoxValue<R>) -> (r: BoxValue<<L as BoxMul<R>>::Output>)
        ensures
            r.wf(),
            caret_post(self@, rhs@, r@),
            r@ == box_caret(self@, rhs@),
    {
        let lhs_col = self.get_color(0);
        let rhs_col = rhs.get_color(0);
        let lhs_kind = self.get_kind(0);
        let rhs_kind = rhs.get_kind(0);
        let lhs_mul = self.get_multiplicity(0);
        let rhs_mul = rhs.get_multiplicity(0);
        let la = self.kinds.len();
        let lb = rhs.kinds.len();
        let ghost pb = child_product_bound(la as nat, lb as nat);
        proof {
            lemma_tree_split(self@);
            lemma_tree_split(rhs@);
        }
        let ca = child_boxes(&self);
        let cb = child_boxes(&rhs);
        let ghost xs = views(ca@);
        let ghost ys = views(cb@);
        proof {
            assert(flatten(xs).len() == la - 1);
            assert(flatten(ys).len() == lb - 1);
            crate::mul::lemma_child_lens(xs);
            crate::mul::lemma_child_lens(ys);
            crate::mul::lemma_count_le_len(xs);
            crate::mul::lemma_count_le_len(ys);
            assert(pb >= 1);
            assert(la * lb * pb >= pb) by (nonlinear_arith)
                requires
                    la >= 1,
                    lb >= 1,
                    pb >= 1,
            ;
        }
        let mut u: Vec<BoxValue<AnyBox>> = Vec::new();
        let ghost mut count: int = 0;
        proof {
            assert(views(u@) =~= Seq::<Seq<Row>>::empty());
            assert(xs.take(0) =~= Seq::<Seq<Row>>::empty());
            assert(flatten(Seq::<Seq<Row>>::empty()).len() == 0);
        }
        let mut i: usize = 0;
        proof {
            lemma_caret_terms_index(xs, ys);
            assert(caret_terms(xs, ys).take(0) =~= Seq::<Seq<Row>>::empty());
        }
        while i < ca.len()
            invariant
                la == self@.len(),
                lb == rhs@.len(),
                pb == child_product_bound(la as nat, lb as nat),
                caret_fits(la as nat, lb as nat) || caret_fits_actual(self@, rhs@),
                pb <= la * lb * pb,
                xs == children(self@),
                ys == children(rhs@),
                i <= ca@.len(),
                xs == views(ca@),
                ys == views(cb@),
                xs.len() < la,
                ys.len() < lb,
                all_inv(ca@),
                all_inv(cb@),
                all_trees(xs),
                all_trees(ys),
                forall|k: int| 0 <= k < xs.len() ==> (#[trigger] xs[k]).len() < la,
                forall|k: int| 0 <= k < ys.len() ==> (#[trigger] ys[k]).len() < lb,
                all_inv(u@),
                all_trees(views(u@)),
                distinct_contents(views(u@)),
                caret_fold_ok(caret_terms(xs, ys)),
                caret_terms(xs, ys).len() == xs.len() * ys.len(),
                count == i * ys.len(),
                views(u@) == caret_fold(caret_terms(xs, ys).take(count)),
                0 <= count <= i * ys.len(),
                flatten(views(u@)).len() <= count * pb,
            decreases ca.len() - i,
        {
            let ghost xi = xs[i as int];
            let ghost before = views(u@);
            let mut j: usize = 0;
            proof {
                assert(ca@[i as int].inv());
                assert(is_tree(xi));
            }
            while j < cb.len()
                invariant
                    la == self@.len(),
                    lb == rhs@.len(),
                    pb == child_product_bound(la as nat, lb as nat),
                    caret_fits(la as nat, lb as nat) || caret_fits_actual(self@, rhs@),
                    pb <= la * lb * pb,
                    xs == children(self@),
                    ys == children(rhs@),
                    i < ca@.len(),
                    j <= cb@.len(),
                    xs == views(ca@),
                    ys == views(cb@),
                    xs.len() < la,
                    ys.len() < lb,
                    xi == xs[i as int],
                    is_tree(xi),
                    xi.len() < la,
                    all_inv(ca@),
                    all_inv(cb@),
                    all_trees(xs),
                    all_trees(ys),
                    forall|k: int| 0 <= k < xs.len() ==> (#[trigger] xs[k]).len() < la,
                    forall|k: int| 0 <= k < ys.len() ==> (#[trigger] ys[k]).len() < lb,
                    all_inv(u@),
                    all_trees(views(u@)),
                    distinct_contents(views(u@)),
                    caret_fold_ok(caret_terms(xs, ys)),
                    caret_terms(xs, ys).len() == xs.len() * ys.len(),
                    count == i * ys.len() + j,
                    views(u@) == caret_fold(caret_terms(xs, ys).take(count)),
                    0 <= count <= i * ys.len() + j,
                    flatten(views(u@)).len() <= count * pb,
                decreases cb.len() - j,
            {
                let ghost yj = ys[j as int];
                proof {
                    assert(cb@[j as int].inv());
                    assert(is_tree(yj));
                    let lx = xi.len();
                    let ly = yj.len();
                    assert(lx * ly * (lx + ly) <= la * lb * (la + lb)) by (nonlinear_arith)
                        requires
                            1 <= lx <= la,
                            1 <= ly <= lb,
                    ;
                    assert(la * lb * (la + lb) < pb);
                    assert(pb <= la * lb * pb);
                    if !caret_fits(la as nat, lb as nat) {
                        assert(product_fits(xs[i as int], ys[j as int]));
                    }
                }
                let left = ca[i].duplicate();
                let right = cb[j].duplicate();
                let lm = left.get_multiplicity(0);
                let rm = right.get_multiplicity(0);
                let m = lm.mul(&rm);
                let mut p: BoxValue<AnyBox> = left.mul_boxes(right);
                p.set_multiplicity(0, m);
                proof {
                    let t = caret_term(xi, yj);
                    assert(p@ =~= t);
                    assert(caret_terms_with(xi, ys).take(j + 1) =~= caret_terms_with(xi, ys).take(j as int).push(t));
                    assert(caret_terms_with(xi, ys).take(j + 1).drop_last() =~= caret_terms_with(xi, ys).take(j as int));
                    assert(is_tree(p@)) by {
                        assert(p@.drop_first() =~= box_product(xi, yj).drop_first());
                        assert(p@ =~= seq![p@[0]] + p@.drop_first());
                        assert(box_product(xi, yj) =~= seq![box_product(xi, yj)[0]] + box_product(xi, yj).drop_first());
                    }
                    assert(p@.len() <= pb);
                }
                let ghost prev = views(u@);
                let ghost ts = caret_terms(xs, ys);
                proof {
                    let cnt = count;
                    assert(cnt < ts.len()) by (nonlinear_arith)
                        requires
                            cnt == i * ys.len() + j,
                            ts.len() == xs.len() * ys.len(),
                            0 <= i < xs.len(),
                            0 <= j < ys.len(),
                    ;
                    lemma_caret_terms_index(xs, ys);
                    assert(ts[i * ys.len() + j] == caret_term(xs[i as int], ys[j as int]));
                    assert(ts[cnt] == caret_term(xs[i as int], ys[j as int]));
                    assert(ts.take(cnt + 1).drop_last() =~= ts.take(cnt));
                    assert(ts.take(cnt + 1).last() == ts[cnt]);
                    lemma_fold_ok_prefix(ts, cnt + 1);
                    assert(caret_merge_ok(prev, p@));
                }
                caret_merge_into(&mut u, p);
                proof {
                    let cnt = count;
                    assert(views(u@) == caret_fold(ts.take(cnt + 1)));
                    assert((cnt + 1) * pb == cnt * pb + pb) by (nonlinear_arith);
                    count = count + 1;
                }
                j = j + 1;
            }
            proof {
                assert(count == (i + 1) * ys.len()) by (nonlinear_arith)
                    requires
                        count == i * ys.len() + ys.len(),
                ;
            }
            i = i + 1;
        }
        let ghost vu = views(u@);
        proof {
            assert(caret_terms(xs, ys).take(count) =~= caret_terms(xs, ys));
            let nx = xs.len() as int;
            let ny = ys.len() as int;
            assert(count * pb <= la * lb * pb) by (nonlinear_arith)
                requires
                    0 <= count <= nx * ny,
                    0 <= nx < la,
                    0 <= ny < lb,
                    pb >= 1,
            ;
        }
        let cs = canonicalize(u);
        let ghost vs = views(cs@);
        let kind = add_kinds(lhs_kind, rhs_kind);
        let col = lhs_col * rhs_col;
        let mult = lhs_mul.mul(&rhs_mul);
        let ghost m = mk_box(head_row(kind, col, mult@), vs);
        proof {
            assert(all_trees(vs)) by {
                assert forall|k: int| 0 <= k < vs.len() implies is_tree(#[trigger] vs[k]) by {
                    assert(vu.contains(vs[k]));
                }
            }
            crate::model::lemma_mk_box(head_row(kind, col, mult@), vs);
            assert forall|c: Seq<Row>| #[trigger] tally(children(m), c) == tally(caret_fold(caret_terms(xs, ys)), c) by {
                assert(tally(vs, c) == tally(vu, c));
            }
            assert(caret_post(self@, rhs@, m));
            lemma_caret_is(self@, rhs@, m);
        }
        let r = crate::canon::assemble::<<L as BoxMul<R>>::Output>(kind, col, mult, cs);
        proof {
            assert(r@ == m);
        }
        r
    }
}

/// Boxes of these variants have a caret.
pub open spec fn can_caret(l: BoxKind, r: BoxKind) -> bool {
    l == BoxKind::Empty || r == BoxKind::Empty || (l == BoxKind::Any && r == BoxKind::Any) || both_numeric(l, r)
        || (l == BoxKind::Maxel && (r == BoxKind::Maxel || r == BoxKind::Vexel))
}

/// The rows of the caret of two variants.
pub open spec fn variant_caret(l: Seq<Row>, lt: BoxKind, r: Seq<Row>, rt: BoxKind) -> Seq<Row> {
    if lt == BoxKind::Empty || rt == BoxKind::Empty {
        leaf_rows(BoxKind::Empty, color_xor(l[0].color, r[0].color))
    } else if lt == BoxKind::Maxel {
        variant_product(l, lt, r, rt)
    } else {
        box_caret(l, r)
    }
}

/// The variant of the caret of two variants.
pub open spec fn variant_caret_tag(lt: BoxKind, rt: BoxKind, rows: Seq<Row>) -> BoxKind {
    if lt == BoxKind::Empty || rt == BoxKind::Empty {
        BoxKind::Empty
    } else {
        rows[0].kind
    }
}

/// Rows small enough for the caret of two variants: nothing is asked where one side is empty.
pub open spec fn caret_variant_fits(l: Seq<Row>, lt: BoxKind, r: Seq<Row>, rt: BoxKind) -> bool {
    if lt == BoxKind::Empty || rt == BoxKind::Empty {
        true
    } else if lt == BoxKind::Maxel {
        crate::variant::variant_mul_fits(l, lt, r, rt)
    } else {
        (caret_fits(l.len(), r.len()) || caret_fits_actual(l, r)) && caret_fold_ok(
            caret_terms(children(l), children(r)),
        )
    }
}

impl Caret for BoxVariant {
    type Output = BoxVariant;

    open spec fn caret_defined(&self, rhs: &BoxVariant) -> bool {
        &&& self.wf()
        &&& rhs.wf()
        &&& can_caret(self.tag(), rhs.tag())
        &&& mul_shapes(self@, self.tag(), rhs@, rhs.tag())
        &&& caret_variant_fits(self@, self.tag(), rhs@, rhs.tag())
    }

    fn caret(self, rhs: Self) -> (r: BoxVariant)
        ensures
            r.wf(),
            r@ == variant_caret(self@, self.tag(), rhs@, rhs.tag()),
            r.tag() == variant_caret_tag(self.tag(), rhs.tag(), r@),
    {
        match (self, rhs) {
            (BoxVariant::Empty(l), r) => {
                let l_col = l.get_color(0);
                let r_col = r.get_color(0);
                match l_col * r_col {
                    Color::Black => BoxVariant::zero(),
                    Color::Red => BoxVariant::anti_zero(),
                }
            },
            (l, BoxVariant::Empty(r)) => {
                let l_col = l.get_color(0);
                let r_col = r.get_color(0);
                match l_col * r_col {
                    Color::Black => BoxVariant::zero(),
                    Color::Red => BoxVariant::anti_zero(),
                }
            },
            (BoxVariant::Any(l), BoxVariant::Any(r)) => BoxVariant::repack_raw(l.caret(r)),
            (BoxVariant::Num(l), BoxVariant::Num(r)) => BoxVariant::repack_raw(l.caret(r)),
            (BoxVariant::Num(l), BoxVariant::Polynum(r)) => BoxVariant::repack_raw(l.caret(r)),
            (BoxVariant::Polynum(l), BoxVariant::Num(r)) => BoxVariant::repack_raw(l.caret(r)),
            (BoxVariant::Polynum(l), BoxVariant::Polynum(r)) => BoxVariant::repack_raw(l.caret(r)),
            (BoxVariant::Num(l), BoxVariant::Multinum(r)) => BoxVariant::repack_raw(l.caret(r)),
            (BoxVariant::Multinum(l), BoxVariant::Num(r)) => BoxVariant::repack_raw(l.caret(r)),
            (BoxVariant::Polynum(l), BoxVariant::Multinum(r)) => BoxVariant::repack_raw(l.caret(r)),
            (BoxVariant::Multinum(l), BoxVariant::Polynum(r)) => BoxVariant::repack_raw(l.caret(r)),
            (BoxVariant::Multinum(l), BoxVariant::Multinum(r)) => BoxVariant::repack_raw(l.caret(r)),
            (BoxVariant::Maxel(l), BoxVariant::Vexel(r)) => BoxVariant::repack_raw(l.mul_max_vex(r)),
            (BoxVariant::Maxel(l), BoxVariant::Maxel(r)) => BoxVariant::repack_raw(BoxValue::mul_max(l, r)),
            (_, _) => {
                proof {
                    assert(false);
                }
                BoxVariant::zero()
            },
        }
    }
}

} // verus!
