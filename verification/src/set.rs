//! Sets of boxes: union and intersection of the children of two set boxes.
//!
//! Children are matched by their content (the box without its outer color and
//! multiplicity).  A union keeps every content once, with the color of its first
//! occurrence and the largest multiplicity; an intersection keeps the contents
//! present on both sides with the same color, with the smaller multiplicity.
use crate::canon::{all_inv, child_boxes, content, distinct_contents, eq_content, sort_distinct, views};
use crate::maxel::{gather, views_of};
use crate::model::{all_trees, children, flatten, is_tree, lemma_flatten_push, lemma_tree_split, mk_box, Row};
use crate::natural::Natural;
use crate::order::strictly_sorted;
use crate::value::{extended, head_row, row_with_mult, BoxValue};
use crate::variant::BoxVariant;
use crate::{color_xor, AnyBox, BoxKind, Color, SetBox};
use vstd::prelude::*;

verus! {

/// Some box of the list has the content.
pub open spec fn has_content(cs: Seq<Seq<Row>>, c: Seq<Row>) -> bool {
    exists|i: int| 0 <= i < cs.len() && content(#[trigger] cs[i]) == c
}

/// The first box of the list with the content.
pub open spec fn first_with(cs: Seq<Seq<Row>>, c: Seq<Row>) -> Seq<Row>
    decreases cs.len(),
{
    if cs.len() == 0 {
        Seq::empty()
    } else if has_content(cs.drop_last(), c) {
        first_with(cs.drop_last(), c)
    } else {
        cs.last()
    }
}

/// The largest multiplicity among the boxes of the list with the content, or zero.
pub open spec fn max_mult(cs: Seq<Seq<Row>>, c: Seq<Row>) -> nat
    decreases cs.len(),
{
    if cs.len() == 0 {
        0
    } else {
        let m = max_mult(cs.drop_last(), c);
        if content(cs.last()) == c && cs.last()[0].mult > m {
            cs.last()[0].mult
        } else {
            m
        }
    }
}

/// The child of a union for a content: its first occurrence with the largest multiplicity.
pub open spec fn union_child(cs: Seq<Seq<Row>>, c: Seq<Row>) -> Seq<Row> {
    let f = first_with(cs, c);
    f.update(0, row_with_mult(f[0], max_mult(cs, c)))
}

/// A content is kept by an intersection: present on both sides, first occurrences of one color.
pub open spec fn in_meet(ls: Seq<Seq<Row>>, rs: Seq<Seq<Row>>, c: Seq<Row>) -> bool {
    &&& has_content(ls, c)
    &&& has_content(rs, c)
    &&& first_with(ls, c)[0].color == first_with(rs, c)[0].color
}

/// The child of an intersection for a content: the first occurrence on the left with the
/// smaller of the two first multiplicities.
pub open spec fn meet_child(ls: Seq<Seq<Row>>, rs: Seq<Seq<Row>>, c: Seq<Row>) -> Seq<Row> {
    let f = first_with(ls, c);
    let g = first_with(rs, c);
    f.update(0, row_with_mult(f[0], if f[0].mult <= g[0].mult { f[0].mult } else { g[0].mult }))
}

pub proof fn lemma_has_push(cs: Seq<Seq<Row>>, x: Seq<Row>, c: Seq<Row>)
    ensures
        has_content(cs.push(x), c) <==> (has_content(cs, c) || content(x) == c),
        cs.push(x).drop_last() == cs,
        cs.push(x).last() == x,
{
    let p = cs.push(x);
    assert(p.drop_last() =~= cs);
    if has_content(cs, c) {
        let i = choose|i: int| 0 <= i < cs.len() && content(#[trigger] cs[i]) == c;
        assert(p[i] == cs[i]);
    }
    if content(x) == c {
        assert(p[cs.len() as int] == x);
    }
    if has_content(p, c) {
        let i = choose|i: int| 0 <= i < p.len() && content(#[trigger] p[i]) == c;
        if i < cs.len() {
            assert(p[i] == cs[i]);
        }
    }
}

pub(crate) proof fn lemma_first_with(cs: Seq<Seq<Row>>, c: Seq<Row>)
    requires
        has_content(cs, c),
    ensures
        cs.contains(first_with(cs, c)),
        content(first_with(cs, c)) == c,
    decreases cs.len(),
{
    let d = cs.drop_last();
    lemma_has_push(d, cs.last(), c);
    assert(d.push(cs.last()) =~= cs);
    if has_content(d, c) {
        lemma_first_with(d, c);
        let i = choose|i: int| 0 <= i < d.len() && d[i] == first_with(d, c);
        assert(cs[i] == d[i]);
    } else {
        assert(cs[cs.len() - 1] == cs.last());
    }
}

pub(crate) proof fn lemma_max_mult_absent(cs: Seq<Seq<Row>>, c: Seq<Row>)
    requires
        !has_content(cs, c),
    ensures
        max_mult(cs, c) == 0,
    decreases cs.len(),
{
    if cs.len() > 0 {
        let d = cs.drop_last();
        lemma_has_push(d, cs.last(), c);
        assert(d.push(cs.last()) =~= cs);
        lemma_max_mult_absent(d, c);
    }
}

/// The position of a box with the same content as `x`, if any.
pub fn find_content(u: &Vec<BoxValue<AnyBox>>, x: &BoxValue<AnyBox>) -> (r: Option<usize>)
    requires
        all_inv(u@),
        all_trees(views(u@)),
        x.inv(),
        x@.len() > 0,
    ensures
        r matches Some(j) ==> j < u@.len() && content(views(u@)[j as int]) == content(x@),
        r is None ==> !has_content(views(u@), content(x@)),
{
    let n = u.len();
    let mut j: usize = 0;
    while j < n
        invariant
            n == u@.len(),
            j <= n,
            all_inv(u@),
            all_trees(views(u@)),
            x.inv(),
            x@.len() > 0,
            forall|k: int| 0 <= k < j ==> content(#[trigger] views(u@)[k]) != content(x@),
        decreases n - j,
    {
        proof {
            assert(u@[j as int].inv());
            assert(is_tree(views(u@)[j as int]));
        }
        if eq_content(&u[j], x) {
            return Some(j);
        }
        j = j + 1;
    }
    proof {
        if has_content(views(u@), content(x@)) {
            let k = choose|k: int| 0 <= k < views(u@).len() && content(#[trigger] views(u@)[k]) == content(x@);
            assert(content(views(u@)[k]) != content(x@));
        }
    }
    None
}

/// The children of both boxes, one content once: first color, largest multiplicity.
fn merge_max(cs: Vec<BoxValue<AnyBox>>) -> (u: Vec<BoxValue<AnyBox>>)
    requires
        all_inv(cs@),
        all_trees(views(cs@)),
    ensures
        all_inv(u@),
        all_trees(views(u@)),
        distinct_contents(views(u@)),
        forall|c: Seq<Row>| has_content(views(u@), c) <==> has_content(views(cs@), c),
        forall|k: int| 0 <= k < u@.len() ==> #[trigger] views(u@)[k] == union_child(views(cs@), content(views(u@)[k])),
        flatten(views(u@)).len() <= flatten(views(cs@)).len(),
{
    let ghost vc = views(cs@);
    let mut u: Vec<BoxValue<AnyBox>> = Vec::new();
    let mut i: usize = 0;
    proof {
        assert(views(u@) =~= Seq::<Seq<Row>>::empty());
        assert(vc.take(0) =~= Seq::<Seq<Row>>::empty());
    }
    while i < cs.len()
        invariant
            vc == views(cs@),
            i <= cs@.len(),
            all_inv(cs@),
            all_trees(vc),
            all_inv(u@),
            all_trees(views(u@)),
            distinct_contents(views(u@)),
            forall|c: Seq<Row>| has_content(views(u@), c) <==> has_content(vc.take(i as int), c),
            forall|k: int| 0 <= k < u@.len() ==> #[trigger] views(u@)[k] == union_child(vc.take(i as int), content(views(u@)[k])),
            flatten(views(u@)).len() <= flatten(vc.take(i as int)).len(),
        decreases cs@.len() - i,
    {
        proof {
            assert(cs@[i as int].inv());
            assert(is_tree(vc[i as int]));
        }
        let x = cs[i].duplicate();
        let ghost p = vc.take(i as int);
        let ghost xv = x@;
        let ghost cx = content(xv);
        let ghost old_u = u@;
        let ghost vo = views(old_u);
        proof {
            assert(vc.take(i + 1) =~= p.push(xv));
            lemma_flatten_push(p, xv);
            assert forall|c: Seq<Row>| has_content(p.push(xv), c) <==> (has_content(p, c) || cx == c) by {
                lemma_has_push(p, xv, c);
            }
            lemma_has_push(p, xv, cx);
        }
        match find_content(&u, &x) {
            Some(j) => {
                let y = u.remove(j);
                let ghost yv = y@;
                proof {
                    assert(yv == vo[j as int]);
                    assert(y.inv());
                }
                let mut y = y;
                let ym = y.get_multiplicity(0);
                let xm = x.get_multiplicity(0);
                if ym.lt(&xm) {
                    y.set_multiplicity(0, xm);
                }
                let ghost nv = y@;
                u.insert(j, y);
                proof {
                    let vn = views(u@);
                    assert(vn =~= vo.update(j as int, nv)) by {
                        assert forall|k: int| 0 <= k < vn.len() implies vn[k] == vo.update(j as int, nv)[k] by {
                            if k != j {
                                assert(u@[k] == old_u[k]);
                            }
                        }
                    }
                    assert(content(yv) == cx);
                    assert(has_content(p, cx)) by {
                        assert(content(vo[j as int]) == cx);
                        assert(has_content(vo, cx));
                    }
                    assert(first_with(p.push(xv), cx) == first_with(p, cx));
                    assert(yv == union_child(p, cx));
                    let f = first_with(p, cx);
                    lemma_first_with(p, cx);
                    let q = choose|q: int| 0 <= q < p.len() && p[q] == f;
                    assert(vc[q] == f);
                    assert(is_tree(f));
                    assert(yv[0].mult == max_mult(p, cx));
                    assert(max_mult(p.push(xv), cx) == (if xv[0].mult > max_mult(p, cx) {
                        xv[0].mult
                    } else {
                        max_mult(p, cx)
                    }));
                    assert(nv[0] == row_with_mult(f[0], max_mult(p.push(xv), cx)));
                    assert(nv =~= union_child(p.push(xv), cx));
                    assert(content(nv) == cx) by {
                        assert(content(nv) =~= content(yv));
                    }
                    assert(is_tree(nv)) by {
                        assert(is_tree(yv));
                        assert(nv.drop_first() =~= yv.drop_first());
                        assert(nv =~= seq![nv[0]] + nv.drop_first());
                        assert(yv =~= seq![yv[0]] + yv.drop_first());
                    }
                    assert forall|k: int| 0 <= k < u@.len() implies (#[trigger] u@[k]).inv() by {
                        if k != j {
                            assert(u@[k] == old_u[k]);
                        }
                    }
                    assert(all_trees(vn)) by {
                        assert forall|k: int| 0 <= k < vn.len() implies is_tree(#[trigger] vn[k]) by {
                            if k != j {
                                assert(vn[k] == vo[k]);
                            }
                        }
                    }
                    assert(distinct_contents(vn)) by {
                        assert forall|a: int, b: int|
                            0 <= a < vn.len() && 0 <= b < vn.len() && a != b implies content(#[trigger] vn[a]) != content(
                            #[trigger] vn[b],
                        ) by {
                            assert(content(vn[a]) == content(vo[a]));
                            assert(content(vn[b]) == content(vo[b]));
                        }
                    }
                    assert forall|c: Seq<Row>| has_content(vn, c) <==> has_content(p.push(xv), c) by {
                        if has_content(vn, c) {
                            let k = choose|k: int| 0 <= k < vn.len() && content(#[trigger] vn[k]) == c;
                            assert(content(vo[k]) == c);
                        }
                        if has_content(vo, c) {
                            let k = choose|k: int| 0 <= k < vo.len() && content(#[trigger] vo[k]) == c;
                            assert(content(vn[k]) == c);
                        }
                    }
                    assert forall|k: int| 0 <= k < u@.len() implies #[trigger] views(u@)[k] == union_child(
                        p.push(xv),
                        content(views(u@)[k]),
                    ) by {
                        if k != j {
                            let ck = content(vo[k]);
                            assert(vn[k] == vo[k]);
                            assert(ck != cx);
                            assert(has_content(p, ck)) by {
                                assert(has_content(vo, ck));
                            }
                            assert(first_with(p.push(xv), ck) == first_with(p, ck));
                            assert(max_mult(p.push(xv), ck) == max_mult(p, ck));
                        }
                    }
                    assert(crate::model::flatten(vn).len() == crate::model::flatten(vo).len()) by {
                        crate::canon::lemma_flatten_update_len(vo, j as int, nv);
                    }
                }
            },
            None => {
                u.push(x);
                proof {
                    let vn = views(u@);
                    assert(vn =~= vo.push(xv));
                    lemma_flatten_push(vo, xv);
                    assert(!has_content(p, cx)) by {
                        if has_content(p, cx) {
                            assert(has_content(vo, cx));
                        }
                    }
                    lemma_max_mult_absent(p, cx);
                    assert(first_with(p.push(xv), cx) == xv);
                    assert(union_child(p.push(xv), cx) =~= xv);
                    assert forall|k: int| 0 <= k < u@.len() implies (#[trigger] u@[k]).inv() by {
                        if k < old_u.len() {
                            assert(u@[k] == old_u[k]);
                        }
                    }
                    assert(all_trees(vn)) by {
                        assert forall|k: int| 0 <= k < vn.len() implies is_tree(#[trigger] vn[k]) by {
                            if k < vo.len() {
                                assert(vn[k] == vo[k]);
                            }
                        }
                    }
                    assert(distinct_contents(vn)) by {
                        assert forall|a: int, b: int|
                            0 <= a < vn.len() && 0 <= b < vn.len() && a != b implies content(#[trigger] vn[a]) != content(
                            #[trigger] vn[b],
                        ) by {
                            if a == vo.len() {
                                assert(vn[b] == vo[b]);
                                assert(!has_content(vo, cx));
                            } else if b == vo.len() {
                                assert(vn[a] == vo[a]);
                                assert(!has_content(vo, cx));
                            } else {
                                assert(vn[a] == vo[a] && vn[b] == vo[b]);
                            }
                        }
                    }
                    assert forall|c: Seq<Row>| has_content(vn, c) <==> has_content(p.push(xv), c) by {
                        lemma_has_push(vo, xv, c);
                    }
                    assert forall|k: int| 0 <= k < u@.len() implies #[trigger] views(u@)[k] == union_child(
                        p.push(xv),
                        content(views(u@)[k]),
                    ) by {
                        if k < vo.len() {
                            let ck = content(vo[k]);
                            assert(vn[k] == vo[k]);
                            assert(ck != cx) by {
                                assert(!has_content(vo, cx));
                            }
                            assert(has_content(p, ck)) by {
                                assert(has_content(vo, ck));
                            }
                            assert(first_with(p.push(xv), ck) == first_with(p, ck));
                            assert(max_mult(p.push(xv), ck) == max_mult(p, ck));
                        }
                    }
                }
            },
        }
        i = i + 1;
    }
    proof {
        assert(vc.take(cs@.len() as int) =~= vc);
    }
    u
}

/// The first occurrence of every content, in the order of the list.
fn first_occurrences(cs: Vec<BoxValue<AnyBox>>) -> (u: Vec<BoxValue<AnyBox>>)
    requires
        all_inv(cs@),
        all_trees(views(cs@)),
    ensures
        all_inv(u@),
        all_trees(views(u@)),
        distinct_contents(views(u@)),
        forall|c: Seq<Row>| has_content(views(u@), c) <==> has_content(views(cs@), c),
        forall|k: int| 0 <= k < u@.len() ==> #[trigger] views(u@)[k] == first_with(views(cs@), content(views(u@)[k])),
        flatten(views(u@)).len() <= flatten(views(cs@)).len(),
{
    let ghost vc = views(cs@);
    let mut u: Vec<BoxValue<AnyBox>> = Vec::new();
    let mut i: usize = 0;
    proof {
        assert(views(u@) =~= Seq::<Seq<Row>>::empty());
        assert(vc.take(0) =~= Seq::<Seq<Row>>::empty());
    }
    while i < cs.len()
        invariant
            vc == views(cs@),
            i <= cs@.len(),
            all_inv(cs@),
            all_trees(vc),
            all_inv(u@),
            all_trees(views(u@)),
            distinct_contents(views(u@)),
            forall|c: Seq<Row>| has_content(views(u@), c) <==> has_content(vc.take(i as int), c),
            forall|k: int| 0 <= k < u@.len() ==> #[trigger] views(u@)[k] == first_with(vc.take(i as int), content(views(u@)[k])),
            flatten(views(u@)).len() <= flatten(vc.take(i as int)).len(),
        decreases cs@.len() - i,
    {
        proof {
            assert(cs@[i as int].inv());
            assert(is_tree(vc[i as int]));
        }
        let x = cs[i].duplicate();
        let ghost p = vc.take(i as int);
        let ghost xv = x@;
        let ghost cx = content(xv);
        let ghost old_u = u@;
        let ghost vo = views(old_u);
        proof {
            assert(vc.take(i + 1) =~= p.push(xv));
            lemma_flatten_push(p, xv);
            lemma_has_push(p, xv, cx);
        }
        match find_content(&u, &x) {
            Some(j) => {
                proof {
                    assert(has_content(vo, cx)) by {
                        assert(content(vo[j as int]) == cx);
                    }
                    assert forall|c: Seq<Row>| has_content(vo, c) <==> has_content(p.push(xv), c) by {
                        lemma_has_push(p, xv, c);
                    }
                    assert forall|k: int| 0 <= k < u@.len() implies #[trigger] views(u@)[k] == first_with(
                        p.push(xv),
                        content(views(u@)[k]),
                    ) by {
                        let ck = content(vo[k]);
                        assert(has_content(p, ck)) by {
                            assert(has_content(vo, ck));
                        }
                        lemma_has_push(p, xv, ck);
                    }
                }
            },
            None => {
                u.push(x);
                proof {
                    let vn = views(u@);
                    assert(vn =~= vo.push(xv));
                    lemma_flatten_push(vo, xv);
                    assert(!has_content(p, cx)) by {
                        if has_content(p, cx) {
                            assert(has_content(vo, cx));
                        }
                    }
                    assert(first_with(p.push(xv), cx) == xv);
                    assert forall|k: int| 0 <= k < u@.len() implies (#[trigger] u@[k]).inv() by {
                        if k < old_u.len() {
                            assert(u@[k] == old_u[k]);
                        }
                    }
                    assert(all_trees(vn)) by {
                        assert forall|k: int| 0 <= k < vn.len() implies is_tree(#[trigger] vn[k]) by {
                            if k < vo.len() {
                                assert(vn[k] == vo[k]);
                            }
                        }
                    }
                    assert(distinct_contents(vn)) by {
                        assert forall|a: int, b: int|
                            0 <= a < vn.len() && 0 <= b < vn.len() && a != b implies content(#[trigger] vn[a]) != content(
                            #[trigger] vn[b],
                        ) by {
                            if a == vo.len() {
                                assert(vn[b] == vo[b]);
                                assert(!has_content(vo, cx));
                            } else if b == vo.len() {
                                assert(vn[a] == vo[a]);
                                assert(!has_content(vo, cx));
                            } else {
                                assert(vn[a] == vo[a] && vn[b] == vo[b]);
                            }
                        }
                    }
                    assert forall|c: Seq<Row>| has_content(vn, c) <==> has_content(p.push(xv), c) by {
                        lemma_has_push(vo, xv, c);
                        lemma_has_push(p, xv, c);
                    }
                    assert forall|k: int| 0 <= k < u@.len() implies #[trigger] views(u@)[k] == first_with(
                        p.push(xv),
                        content(views(u@)[k]),
                    ) by {
                        if k < vo.len() {
                            let ck = content(vo[k]);
                            assert(vn[k] == vo[k]);
                            assert(has_content(p, ck)) by {
                                assert(has_content(vo, ck));
                            }
                            lemma_has_push(p, xv, ck);
                        }
                    }
                }
            },
        }
        i = i + 1;
    }
    proof {
        assert(vc.take(cs@.len() as int) =~= vc);
    }
    u
}

/// `x` is the union of the set boxes `l` and `r`.
pub open spec fn union_post(l: Seq<Row>, r: Seq<Row>, x: Seq<Row>) -> bool {
    let both = children(l) + children(r);
    &&& is_tree(x)
    &&& x[0] == Row { kind: BoxKind::SetBox, color: color_xor(l[0].color, r[0].color), mult: 1, len: x.len() }
    &&& strictly_sorted(children(x))
    &&& forall|y: Seq<Row>|
        children(x).contains(y) <==> (has_content(both, content(y)) && y == union_child(both, content(y)))
}

/// `x` is the intersection of the set boxes `l` and `r`.
pub open spec fn meet_post(l: Seq<Row>, r: Seq<Row>, x: Seq<Row>) -> bool {
    &&& is_tree(x)
    &&& x[0] == Row { kind: BoxKind::SetBox, color: color_xor(l[0].color, r[0].color), mult: 1, len: x.len() }
    &&& strictly_sorted(children(x))
    &&& forall|y: Seq<Row>|
        children(x).contains(y) <==> (in_meet(children(l), children(r), content(y)) && y == meet_child(
            children(l),
            children(r),
            content(y),
        ))
}

/// Two boxes with the same first row up to its length and the same children are equal.
pub proof fn lemma_same_box(x1: Seq<Row>, x2: Seq<Row>)
    requires
        is_tree(x1),
        is_tree(x2),
        children(x1) == children(x2),
        x1[0].kind == x2[0].kind,
        x1[0].color == x2[0].color,
        x1[0].mult == x2[0].mult,
    ensures
        x1 == x2,
{
    lemma_tree_split(x1);
    lemma_tree_split(x2);
    assert(crate::model::row_with_len(x1[0], 1 + flatten(children(x1)).len()) == crate::model::row_with_len(
        x2[0],
        1 + flatten(children(x2)).len(),
    ));
}

/// The union of two set boxes is determined by its description.
pub proof fn lemma_union_determined(l: Seq<Row>, r: Seq<Row>, x1: Seq<Row>, x2: Seq<Row>)
    requires
        union_post(l, r, x1),
        union_post(l, r, x2),
    ensures
        x1 == x2,
{
    crate::canon::lemma_sorted_unique(children(x1), children(x2));
    lemma_same_box(x1, x2);
}

/// The intersection of two set boxes is determined by its description.
pub proof fn lemma_meet_determined(l: Seq<Row>, r: Seq<Row>, x1: Seq<Row>, x2: Seq<Row>)
    requires
        meet_post(l, r, x1),
        meet_post(l, r, x2),
    ensures
        x1 == x2,
{
    crate::canon::lemma_sorted_unique(children(x1), children(x2));
    lemma_same_box(x1, x2);
}

/// The children with every multiplicity set to one.
pub open spec fn with_unit_mults(cs: Seq<Seq<Row>>) -> Seq<Seq<Row>> {
    Seq::new(cs.len(), |i: int| cs[i].update(0, row_with_mult(cs[i][0], 1)))
}

/// The rows of the children, each with multiplicity one, one after the other, with the first
/// row's length counting all of them.
pub open spec fn support_rows(cs: Seq<Seq<Row>>) -> Seq<Row> {
    let f = flatten(with_unit_mults(cs));
    if f.len() == 0 {
        f
    } else {
        f.update(0, crate::model::row_with_len(f[0], f.len()))
    }
}

impl BoxValue<SetBox> {
    /// Construct an empty set with a given color
    pub fn empty_set(col: Color) -> (r: Self)
        ensures
            r.wf(),
            r@ == seq![head_row(BoxKind::SetBox, col, 1)],
    {
        let mut r = BoxValue::<SetBox>::new();
        r.push_row(BoxKind::SetBox, col, Natural::one(), 1);
        proof {
            assert(r@ =~= seq![head_row(BoxKind::SetBox, col, 1)]);
            assert(r@.drop_first() =~= Seq::<Row>::empty());
        }
        r
    }

    /// Construct a set whose elements are the given boxes
    pub fn from_elements(value: Vec<BoxValue<AnyBox>>) -> (r: Self)
        requires
            forall|i: int| 0 <= i < value@.len() ==> (#[trigger] value@[i]).inv(),
            all_trees(views_of(value@)),
            1 + flatten(views_of(value@)).len() <= u32::MAX,
        ensures
            r.wf(),
            r@ == mk_box(head_row(BoxKind::SetBox, Color::Black, 1), views_of(value@)),
    {
        gather(BoxKind::SetBox, value)
    }

    /// A set is a box with all its elements having multiplicity one
    pub fn is_set(&self) -> (r: bool)
        requires
            self.wf(),
        ensures
            r == (forall|i: int| 0 <= i < children(self@).len() ==> (#[trigger] children(self@)[i])[0].mult == 1),
    {
        proof {
            lemma_tree_split(self@);
        }
        let cs = child_boxes(self);
        let ghost vc = children(self@);
        let mut i: usize = 0;
        while i < cs.len()
            invariant
                all_inv(cs@),
                views(cs@) == vc,
                all_trees(vc),
                vc == children(self@),
                i <= cs@.len(),
                forall|k: int| 0 <= k < i ==> (#[trigger] vc[k])[0].mult == 1,
            decreases cs@.len() - i,
        {
            proof {
                assert(cs@[i as int].inv());
                assert(is_tree(vc[i as int]));
            }
            let m = cs[i].get_multiplicity(0);
            proof {
                assert(views(cs@)[i as int] == cs@[i as int]@);
            }
            if !m.is_one() {
                proof {
                    assert(vc[i as int][0].mult != 1);
                    assert(!(vc[i as int][0].mult == 1));
                    assert(children(self@)[i as int] == vc[i as int]);
                }
                return false;
            }
            i = i + 1;
        }
        true
    }

    /// Creates the supporting set of a box consisting of all its elements but with multiplicity one:
    /// the children, each with multiplicity one, appended one after the other as `extend`
    /// appends them, so that the first row counts the rows of all of them.
    pub fn support(self) -> (r: Self)
        requires
            self.wf(),
        ensures
            r.inv(),
            r@ == support_rows(children(self@)),
    {
        proof {
            lemma_tree_split(self@);
            crate::model::lemma_tree_basics(self@);
        }
        let cs = child_boxes(&self);
        let ghost vc = children(self@);
        let ghost vw = with_unit_mults(vc);
        let mut r = BoxValue::<SetBox>::new();
        let mut i: usize = 0;
        proof {
            assert(vw.take(0) =~= Seq::<Seq<Row>>::empty());
            assert(flatten(vw.take(0)) =~= Seq::<Row>::empty());
            assert(vc =~= vc.take(vc.len() as int) + vc.skip(vc.len() as int));
            assert(flatten(vw).len() == flatten(vc).len()) by {
                lemma_flatten_same_lens(vw, vc);
            }
        }
        while i < cs.len()
            invariant
                all_inv(cs@),
                views(cs@) == vc,
                all_trees(vc),
                vw == with_unit_mults(vc),
                i <= cs@.len(),
                r.inv(),
                r@ == support_rows(vc.take(i as int)),
                flatten(vw).len() == flatten(vc).len(),
                1 + flatten(vc).len() <= u32::MAX,
            decreases cs@.len() - i,
        {
            proof {
                assert(cs@[i as int].inv());
                assert(is_tree(vc[i as int]));
                crate::model::lemma_tree_basics(vc[i as int]);
            }
            let mut x = cs[i].duplicate();
            proof {
                assert(views(cs@)[i as int] == cs@[i as int]@);
            }
            x.set_multiplicity(0, Natural::one());
            let ghost p = vc.take(i as int);
            let ghost wp = with_unit_mults(p);
            let ghost xv = x@;
            proof {
                assert(xv == vw[i as int]);
                assert(with_unit_mults(vc.take(i + 1)) =~= wp.push(xv));
                lemma_flatten_push(wp, xv);
                assert(vw =~= with_unit_mults(vc.take(i + 1)) + vw.skip(i + 1));
                crate::model::lemma_flatten_append(with_unit_mults(vc.take(i + 1)), vw.skip(i + 1));
                assert(flatten(wp).len() + xv.len() <= flatten(vw).len());
                assert(xv[0].len == xv.len());
                if flatten(wp).len() > 0 {
                    assert(r@[0].len == flatten(wp).len());
                }
            }
            r.extend(x);
            proof {
                let f = flatten(wp);
                let g = flatten(wp.push(xv));
                assert(g == f + xv);
                if f.len() == 0 {
                    assert(g =~= xv);
                    assert(xv.update(0, crate::model::row_with_len(xv[0], xv.len())) =~= xv);
                } else {
                    assert(r@ =~= g.update(0, crate::model::row_with_len(g[0], g.len())));
                }
                assert(r@ == support_rows(vc.take(i + 1)));
            }
            i = i + 1;
        }
        proof {
            assert(vc.take(i as int) =~= vc);
        }
        r
    }

    /// Set union of two boxes
    pub fn union(left: Self, right: Self) -> (r: Self)
        requires
            left.wf(),
            right.wf(),
            left@.len() + right@.len() <= u32::MAX,
        ensures
            r.wf(),
            union_post(left@, right@, r@),
    {
        let color = left.get_color(0) + right.get_color(0);
        proof {
            lemma_tree_split(left@);
            lemma_tree_split(right@);
        }
        let mut all = child_boxes(&left);
        let mut rb = child_boxes(&right);
        let ghost both = children(left@) + children(right@);
        let ghost va = all@;
        let ghost vb = rb@;
        all.append(&mut rb);
        proof {
            assert(all@ == va + vb);
            assert(views(all@) =~= both);
            assert(all_inv(all@)) by {
                assert forall|k: int| 0 <= k < all@.len() implies (#[trigger] all@[k]).inv() by {
                    if k < va.len() {
                        assert(all@[k] == va[k]);
                    } else {
                        assert(all@[k] == vb[k - va.len()]);
                    }
                }
            }
            assert(all_trees(both)) by {
                assert forall|k: int| 0 <= k < both.len() implies is_tree(#[trigger] both[k]) by {
                    if k < children(left@).len() {
                        assert(both[k] == children(left@)[k]);
                    } else {
                        assert(both[k] == children(right@)[k - children(left@).len()]);
                    }
                }
            }
            crate::model::lemma_flatten_append(children(left@), children(right@));
        }
        let u = merge_max(all);
        let ghost vu = views(u@);
        let s = sort_distinct(u);
        let ghost vs = views(s@);
        let r = crate::canon::assemble::<SetBox>(BoxKind::SetBox, color, Natural::one(), s);
        proof {
            assert(children(r@) == vs);
            assert forall|y: Seq<Row>| vs.contains(y) <==> (has_content(both, content(y)) && y == union_child(
                both,
                content(y),
            )) by {
                if vs.contains(y) {
                    assert(vu.contains(y));
                    let k = choose|k: int| 0 <= k < vu.len() && vu[k] == y;
                    assert(has_content(vu, content(y)));
                }
                if has_content(both, content(y)) && y == union_child(both, content(y)) {
                    assert(has_content(vu, content(y)));
                    let k = choose|k: int| 0 <= k < vu.len() && content(#[trigger] vu[k]) == content(y);
                    assert(vu[k] == union_child(both, content(vu[k])));
                    assert(vu.contains(vu[k]));
                }
            }
            lemma_tree_split(r@);
        }
        r
    }

    /// Set intersection of two boxes
    pub fn intersection(left: Self, right: Self) -> (r: Self)
        requires
            left.wf(),
            right.wf(),
        ensures
            r.wf(),
            meet_post(left@, right@, r@),
    {
        let color = left.get_color(0) + right.get_color(0);
        proof {
            lemma_tree_split(left@);
            lemma_tree_split(right@);
        }
        let ghost cl = children(left@);
        let ghost cr = children(right@);
        let lu = first_occurrences(child_boxes(&left));
        let ru = first_occurrences(child_boxes(&right));
        let ghost vl = views(lu@);
        let ghost vr = views(ru@);
        let mut w: Vec<BoxValue<AnyBox>> = Vec::new();
        let mut i: usize = 0;
        proof {
            assert(views(w@) =~= Seq::<Seq<Row>>::empty());
            assert(vl.take(0) =~= Seq::<Seq<Row>>::empty());
        }
        while i < lu.len()
            invariant
                vl == views(lu@),
                vr == views(ru@),
                i <= lu@.len(),
                all_inv(lu@),
                all_inv(ru@),
                all_trees(vl),
                all_trees(vr),
                distinct_contents(vl),
                forall|c: Seq<Row>| has_content(vl, c) <==> has_content(cl, c),
                forall|c: Seq<Row>| has_content(vr, c) <==> has_content(cr, c),
                forall|k: int| 0 <= k < vl.len() ==> #[trigger] vl[k] == first_with(cl, content(vl[k])),
                forall|k: int| 0 <= k < vr.len() ==> #[trigger] vr[k] == first_with(cr, content(vr[k])),
                all_inv(w@),
                all_trees(views(w@)),
                distinct_contents(views(w@)),
                forall|c: Seq<Row>| #[trigger] has_content(views(w@), c) <==> (has_content(vl.take(i as int), c) && in_meet(cl, cr, c)),
                forall|k: int| 0 <= k < w@.len() ==> #[trigger] views(w@)[k] == meet_child(cl, cr, content(views(w@)[k])),
                flatten(views(w@)).len() <= flatten(vl.take(i as int)).len(),
            decreases lu@.len() - i,
        {
            proof {
                assert(lu@[i as int].inv());
                assert(is_tree(vl[i as int]));
            }
            let mut x = lu[i].duplicate();
            let ghost xv = x@;
            let ghost cx = content(xv);
            let ghost p = vl.take(i as int);
            let ghost old_w = w@;
            let ghost vo = views(old_w);
            proof {
                assert(vl.take(i + 1) =~= p.push(xv));
                lemma_flatten_push(p, xv);
                assert(xv == first_with(cl, cx));
                assert(has_content(cl, cx)) by {
                    assert(has_content(vl, cx));
                }
                assert(!has_content(p, cx)) by {
                    if has_content(p, cx) {
                        let k = choose|k: int| 0 <= k < p.len() && content(#[trigger] p[k]) == cx;
                        assert(p[k] == vl[k]);
                    }
                }
                assert forall|c: Seq<Row>| has_content(p.push(xv), c) <==> (has_content(p, c) || cx == c) by {
                    lemma_has_push(p, xv, c);
                }
                assert forall|c: Seq<Row>| has_content(vo, c) <==> (has_content(p, c) && in_meet(cl, cr, c)) by {
                    assert(views(w@) == vo);
                }
                assert(!has_content(vo, cx));
            }
            let found = find_content(&ru, &x);
            let mut keep = false;
            let mut m = Natural::zero();
            match found {
                Some(j) => {
                    proof {
                        assert(ru@[j as int].inv());
                        assert(is_tree(vr[j as int]));
                        assert(vr[j as int] == first_with(cr, cx));
                        assert(has_content(cr, cx)) by {
                            assert(has_content(vr, cx));
                        }
                        assert(views(ru@)[j as int] == ru@[j as int]@);
                    }
                    let xc = x.get_color(0);
                    let yc = ru[j].get_color(0);
                    if xc == yc {
                        let xm = x.get_multiplicity(0);
                        let ym = ru[j].get_multiplicity(0);
                        m = xm.min(&ym);
                        keep = true;
                        proof {
                            assert(in_meet(cl, cr, cx));
                        }
                    } else {
                        proof {
                            assert(!in_meet(cl, cr, cx));
                        }
                    }
                },
                None => {
                    proof {
                        assert(!has_content(cr, cx)) by {
                            if has_content(cr, cx) {
                                assert(has_content(vr, cx));
                            }
                        }
                    }
                },
            }
            proof {
                let f = first_with(cl, cx);
                let g = first_with(cr, cx);
                assert(keep ==> in_meet(cl, cr, cx));
                assert(keep ==> m@ == (if f[0].mult <= g[0].mult { f[0].mult } else { g[0].mult }));
                assert(!keep ==> !in_meet(cl, cr, cx));
            }
            if keep {
                x.set_multiplicity(0, m);
                let ghost nv = x@;
                w.push(x);
                proof {
                    assert(nv =~= meet_child(cl, cr, cx));
                    assert(content(nv) =~= cx);
                    assert(is_tree(nv)) by {
                        assert(nv.drop_first() =~= xv.drop_first());
                        assert(nv =~= seq![nv[0]] + nv.drop_first());
                        assert(xv =~= seq![xv[0]] + xv.drop_first());
                    }
                    let vn = views(w@);
                    assert(vn =~= vo.push(nv));
                    lemma_flatten_push(vo, nv);
                    assert(nv.len() == xv.len());
                    assert forall|k: int| 0 <= k < w@.len() implies (#[trigger] w@[k]).inv() by {
                        if k < old_w.len() {
                            assert(w@[k] == old_w[k]);
                        }
                    }
                    assert(all_trees(vn)) by {
                        assert forall|k: int| 0 <= k < vn.len() implies is_tree(#[trigger] vn[k]) by {
                            if k < vo.len() {
                                assert(vn[k] == vo[k]);
                            }
                        }
                    }
                    assert(!has_content(vo, cx));
                    assert(distinct_contents(vn)) by {
                        assert forall|a: int, b: int|
                            0 <= a < vn.len() && 0 <= b < vn.len() && a != b implies content(#[trigger] vn[a]) != content(
                            #[trigger] vn[b],
                        ) by {
                            if a == vo.len() {
                                assert(vn[b] == vo[b]);
                            } else if b == vo.len() {
                                assert(vn[a] == vo[a]);
                            } else {
                                assert(vn[a] == vo[a] && vn[b] == vo[b]);
                            }
                        }
                    }
                    assert forall|c: Seq<Row>| has_content(vn, c) <==> (has_content(p.push(xv), c) && in_meet(cl, cr, c)) by {
                        lemma_has_push(vo, nv, c);
                        lemma_has_push(p, xv, c);
                        assert(has_content(vo, c) <==> (has_content(p, c) && in_meet(cl, cr, c)));
                        if c == cx {
                            assert(in_meet(cl, cr, c));
                        }
                    }
                    assert forall|k: int| 0 <= k < w@.len() implies #[trigger] views(w@)[k] == meet_child(
                        cl,
                        cr,
                        content(views(w@)[k]),
                    ) by {
                        if k < vo.len() {
                            assert(vn[k] == vo[k]);
                        }
                    }
                }
            } else {
                proof {
                    assert forall|c: Seq<Row>| has_content(vo, c) <==> (has_content(p.push(xv), c) && in_meet(cl, cr, c)) by {
                        lemma_has_push(p, xv, c);
                        assert(has_content(vo, c) <==> (has_content(p, c) && in_meet(cl, cr, c)));
                        if c == cx {
                            assert(!in_meet(cl, cr, c));
                        }
                    }
                }
            }
            i = i + 1;
        }
        proof {
            assert(vl.take(lu@.len() as int) =~= vl);
            assert forall|k: int| 0 <= k < w@.len() implies is_tree(#[trigger] views(w@)[k]) by {}
            assert(flatten(vl).len() <= flatten(cl).len());
            assert(flatten(cl) == left@.drop_first());
        }
        let ghost vw = views(w@);
        let s = sort_distinct(w);
        let ghost vs = views(s@);
        let r = crate::canon::assemble::<SetBox>(BoxKind::SetBox, color, Natural::one(), s);
        proof {
            assert(children(r@) == vs);
            assert forall|y: Seq<Row>| vs.contains(y) <==> (in_meet(cl, cr, content(y)) && y == meet_child(
                cl,
                cr,
                content(y),
            )) by {
                if vs.contains(y) {
                    assert(vw.contains(y));
                    let k = choose|k: int| 0 <= k < vw.len() && vw[k] == y;
                    assert(has_content(vw, content(y)));
                }
                if in_meet(cl, cr, content(y)) && y == meet_child(cl, cr, content(y)) {
                    assert(has_content(vl, content(y)));
                    assert(has_content(vw, content(y)));
                    let k = choose|k: int| 0 <= k < vw.len() && content(#[trigger] vw[k]) == content(y);
                    assert(vw[k] == meet_child(cl, cr, content(vw[k])));
                    assert(vw.contains(vw[k]));
                }
            }
            lemma_tree_split(r@);
        }
        r
    }
}

/// Boxes of equal lengths take up the same number of rows.
proof fn lemma_flatten_same_lens(a: Seq<Seq<Row>>, b: Seq<Seq<Row>>)
    requires
        a.len() == b.len(),
        forall|k: int| 0 <= k < a.len() ==> (#[trigger] a[k]).len() == b[k].len(),
    ensures
        flatten(a).len() == flatten(b).len(),
    decreases a.len(),
{
    if a.len() > 0 {
        lemma_flatten_same_lens(a.drop_last(), b.drop_last());
    }
}

impl BoxVariant {
    /// Set union of two set boxes
    pub fn union(self, rhs: Self) -> (r: Self)
        requires
            self.wf(),
            rhs.wf(),
            self.tag() == BoxKind::SetBox,
            rhs.tag() == BoxKind::SetBox,
            self@.len() + rhs@.len() <= u32::MAX,
        ensures
            r.wf(),
            r.tag() == BoxKind::SetBox,
            union_post(self@, rhs@, r@),
    {
        match (self, rhs) {
            (BoxVariant::SetBox(l), BoxVariant::SetBox(r)) => BoxVariant::SetBox(BoxValue::union(l, r)),
            (_, _) => {
                proof {
                    assert(false);
                }
                BoxVariant::zero()
            },
        }
    }

    /// Set intersection of two set boxes
    pub fn intersection(self, rhs: Self) -> (r: Self)
        requires
            self.wf(),
            rhs.wf(),
            self.tag() == BoxKind::SetBox,
            rhs.tag() == BoxKind::SetBox,
        ensures
            r.wf(),
            r.tag() == BoxKind::SetBox,
            meet_post(self@, rhs@, r@),
    {
        match (self, rhs) {
            (BoxVariant::SetBox(l), BoxVariant::SetBox(r)) => BoxVariant::SetBox(BoxValue::intersection(l, r)),
            (_, _) => {
                proof {
                    assert(false);
                }
                BoxVariant::zero()
            },
        }
    }
}

/// The boxes of the list whose multiplicity is not zero, in order.
pub(crate) fn keep_nonzero(u: Vec<BoxValue<AnyBox>>) -> (r: Vec<BoxValue<AnyBox>>)
    requires
        all_inv(u@),
        all_trees(views(u@)),
        distinct_contents(views(u@)),
    ensures
        all_inv(r@),
        all_trees(views(r@)),
        distinct_contents(views(r@)),
        forall|y: Seq<Row>| views(r@).contains(y) <==> (views(u@).contains(y) && y[0].mult > 0),
        flatten(views(r@)).len() <= flatten(views(u@)).len(),
{
    let ghost vu = views(u@);
    let mut r: Vec<BoxValue<AnyBox>> = Vec::new();
    let mut i: usize = 0;
    proof {
        assert(views(r@) =~= Seq::<Seq<Row>>::empty());
        assert(vu.take(0) =~= Seq::<Seq<Row>>::empty());
    }
    while i < u.len()
        invariant
            vu == views(u@),
            i <= u@.len(),
            all_inv(u@),
            all_trees(vu),
            distinct_contents(vu),
            all_inv(r@),
            forall|k: int| 0 <= k < r@.len() ==> exists|q: int| 0 <= q < i && #[trigger] views(r@)[k] == vu[q],
            forall|a: int, b: int| 0 <= a < b < r@.len() ==> exists|qa: int, qb: int|
                0 <= qa < qb < i && #[trigger] views(r@)[a] == vu[qa] && #[trigger] views(r@)[b] == vu[qb],
            forall|y: Seq<Row>| views(r@).contains(y) <==> (vu.take(i as int).contains(y) && y[0].mult > 0),
            flatten(views(r@)).len() <= flatten(vu.take(i as int)).len(),
        decreases u@.len() - i,
    {
        proof {
            assert(u@[i as int].inv());
            assert(is_tree(vu[i as int]));
            assert(views(u@)[i as int] == u@[i as int]@);
        }
        let ghost old_r = r@;
        let ghost vo = views(old_r);
        let ghost xv = vu[i as int];
        let ghost p = vu.take(i as int);
        proof {
            assert(vu.take(i + 1) =~= p.push(xv));
            lemma_flatten_push(p, xv);
        }
        let m = u[i].get_multiplicity(0);
        if !m.is_zero() {
            let x = u[i].duplicate();
            r.push(x);
            proof {
                let vn = views(r@);
                assert(vn =~= vo.push(xv));
                lemma_flatten_push(vo, xv);
                assert forall|k: int| 0 <= k < r@.len() implies (#[trigger] r@[k]).inv() by {
                    if k < old_r.len() {
                        assert(r@[k] == old_r[k]);
                    }
                }
                assert forall|k: int| 0 <= k < vn.len() implies exists|q: int| 0 <= q < i + 1 && #[trigger] vn[k] == vu[q] by {
                    if k < vo.len() {
                        assert(vn[k] == vo[k]);
                    } else {
                        assert(vn[k] == vu[i as int]);
                    }
                }
                assert forall|a: int, b: int| 0 <= a < b < vn.len() implies exists|qa: int, qb: int|
                    0 <= qa < qb < i + 1 && #[trigger] vn[a] == vu[qa] && #[trigger] vn[b] == vu[qb] by {
                    if b < vo.len() {
                        assert(vn[a] == vo[a] && vn[b] == vo[b]);
                    } else {
                        assert(vn[a] == vo[a]);
                        let qa = choose|qa: int| 0 <= qa < i && #[trigger] vo[a] == vu[qa];
                        assert(vn[b] == vu[i as int]);
                    }
                }
                assert forall|y: Seq<Row>| vn.contains(y) <==> (p.push(xv).contains(y) && y[0].mult > 0) by {
                    if vn.contains(y) {
                        let k = choose|k: int| 0 <= k < vn.len() && vn[k] == y;
                        if k < vo.len() {
                            assert(vo[k] == y);
                            assert(vo.contains(y));
                            let q = choose|q: int| 0 <= q < p.len() && p[q] == y;
                            assert(p.push(xv)[q] == y);
                        } else {
                            assert(p.push(xv)[i as int] == y);
                        }
                    }
                    if p.push(xv).contains(y) && y[0].mult > 0 {
                        let q = choose|q: int| 0 <= q < p.push(xv).len() && p.push(xv)[q] == y;
                        if q < i {
                            assert(p[q] == y);
                            assert(p.contains(y));
                            assert(vo.contains(y));
                            let k = choose|k: int| 0 <= k < vo.len() && vo[k] == y;
                            assert(vn[k] == y);
                        } else {
                            assert(vn[vo.len() as int] == y);
                        }
                    }
                }
            }
        } else {
            proof {
                assert forall|y: Seq<Row>| vo.contains(y) <==> (p.push(xv).contains(y) && y[0].mult > 0) by {
                    assert(views(r@) == vo);
                    if p.push(xv).contains(y) && y[0].mult > 0 {
                        let q = choose|q: int| 0 <= q < p.push(xv).len() && p.push(xv)[q] == y;
                        if q < i {
                            assert(p[q] == y);
                            assert(p.contains(y));
                        }
                    }
                    if vo.contains(y) {
                        assert(p.contains(y));
                        let q = choose|q: int| 0 <= q < p.len() && p[q] == y;
                        assert(p.push(xv)[q] == y);
                    }
                }
            }
        }
        i = i + 1;
    }
    proof {
        let vr = views(r@);
        assert(vu.take(u@.len() as int) =~= vu);
        assert(all_trees(vr)) by {
            assert forall|k: int| 0 <= k < vr.len() implies is_tree(#[trigger] vr[k]) by {
                let q = choose|q: int| 0 <= q < u@.len() && #[trigger] vr[k] == vu[q];
            }
        }
        assert(distinct_contents(vr)) by {
            assert forall|a: int, b: int|
                0 <= a < vr.len() && 0 <= b < vr.len() && a != b implies content(#[trigger] vr[a]) != content(
                #[trigger] vr[b],
            ) by {
                if a < b {
                    let (qa, qb) = choose|qa: int, qb: int|
                        0 <= qa < qb < u@.len() && #[trigger] vr[a] == vu[qa] && #[trigger] vr[b] == vu[qb];
                } else {
                    let (qb, qa) = choose|qb: int, qa: int|
                        0 <= qb < qa < u@.len() && #[trigger] vr[b] == vu[qb] && #[trigger] vr[a] == vu[qa];
                }
            }
        }
    }
    r
}

/// `x` is the box with first row `Any` whose children are the first occurrences of the
/// contents of `items` that have a multiplicity, in increasing order.
pub open spec fn collected(items: Seq<Seq<Row>>, x: Seq<Row>) -> bool {
    &&& is_tree(x)
    &&& x[0] == Row { kind: BoxKind::Any, color: Color::Black, mult: 1, len: x.len() }
    &&& strictly_sorted(children(x))
    &&& forall|y: Seq<Row>|
        children(x).contains(y) <==> (has_content(items, content(y)) && y == first_with(items, content(y))
            && y[0].mult > 0)
}

impl<U: crate::BoxType> BoxValue<U> {
    /// Collects boxes as the children of a new box: one box per content, zero
    /// multiplicities dropped, children sorted.
    pub fn from_children(items: Vec<BoxValue<AnyBox>>) -> (r: Self)
        requires
            all_inv(items@),
            all_trees(views(items@)),
            1 + flatten(views(items@)).len() <= u32::MAX,
        ensures
            r.wf(),
            collected(views(items@), r@),
    {
        let ghost vi = views(items@);
        let u = first_occurrences(items);
        let ghost vu = views(u@);
        let v = keep_nonzero(u);
        let ghost vv = views(v@);
        let s = sort_distinct(v);
        let ghost vs = views(s@);
        let r = crate::canon::assemble::<U>(BoxKind::Any, Color::Black, Natural::one(), s);
        proof {
            assert(children(r@) == vs);
            assert forall|y: Seq<Row>| vs.contains(y) <==> (has_content(vi, content(y)) && y == first_with(
                vi,
                content(y),
            ) && y[0].mult > 0) by {
                if vs.contains(y) {
                    assert(vv.contains(y));
                    assert(vu.contains(y));
                    let k = choose|k: int| 0 <= k < vu.len() && vu[k] == y;
                    assert(has_content(vu, content(y)));
                }
                if has_content(vi, content(y)) && y == first_with(vi, content(y)) && y[0].mult > 0 {
                    assert(has_content(vu, content(y)));
                    let k = choose|k: int| 0 <= k < vu.len() && content(#[trigger] vu[k]) == content(y);
                    assert(vu[k] == first_with(vi, content(vu[k])));
                    assert(vu.contains(vu[k]));
                    assert(vv.contains(y));
                }
            }
            lemma_tree_split(r@);
        }
        r
    }
}

} // verus!
