//! Children as a signed multiset of contents.
//!
//! The content of a box is the box without its outer color and multiplicity.
//! A black box counts its multiplicity positively, a red one negatively; the
//! tally of a content over a list of boxes is the signed sum of the boxes with
//! that content.  Combining children always yields a canonical list: no two
//! boxes share a content, none has multiplicity zero, and the list is strictly
//! increasing in the total order.
use crate::model::{
    all_trees, children, flatten, is_forest, is_tree, items, lemma_flatten_push, lemma_flatten_trees,
    lemma_forest_items, lemma_mk_box, lemma_tree_split, mk_box, Row,
};
use crate::natural::Natural;
use crate::order::{box_order, compare_boxes, lemma_order_facts, sorted_by, strictly_sorted, total_order};
use crate::value::{head_row, row_with_color, row_with_mult, BoxValue};
use crate::{AnyBox, BoxKind, BoxType, Color};
use vstd::prelude::*;

verus! {

/// The box with its outer color and multiplicity erased.
pub open spec fn content(t: Seq<Row>) -> Seq<Row> {
    t.update(0, Row { kind: t[0].kind, color: Color::Black, mult: 0, len: t[0].len })
}

/// The signed multiplicity of a box: positive when black, negative when red.
pub open spec fn signed(t: Seq<Row>) -> int {
    if t[0].color == Color::Black {
        t[0].mult as int
    } else {
        -(t[0].mult as int)
    }
}

/// What one box adds to the tally of a content.
pub open spec fn share(t: Seq<Row>, c: Seq<Row>) -> int {
    if content(t) == c {
        signed(t)
    } else {
        0
    }
}

/// The signed count of a content among boxes.
pub open spec fn tally(cs: Seq<Seq<Row>>, c: Seq<Row>) -> int
    decreases cs.len(),
{
    if cs.len() == 0 {
        0
    } else {
        tally(cs.drop_last(), c) + share(cs.last(), c)
    }
}

/// No two boxes have the same content.
pub open spec fn distinct_contents(cs: Seq<Seq<Row>>) -> bool {
    forall|i: int, j: int|
        0 <= i < cs.len() && 0 <= j < cs.len() && i != j ==> content(#[trigger] cs[i]) != content(
            #[trigger] cs[j],
        )
}

/// No box has multiplicity zero.
pub open spec fn all_nonzero(cs: Seq<Seq<Row>>) -> bool {
    forall|i: int| 0 <= i < cs.len() ==> (#[trigger] cs[i])[0].mult > 0
}

/// The children are in normal form.
pub open spec fn canonical(cs: Seq<Seq<Row>>) -> bool {
    &&& all_trees(cs)
    &&& distinct_contents(cs)
    &&& all_nonzero(cs)
    &&& strictly_sorted(cs)
}

/// The views of a vector of boxes.
pub open spec fn views(v: Seq<BoxValue<AnyBox>>) -> Seq<Seq<Row>> {
    Seq::new(v.len(), |i: int| v[i]@)
}

/// Every box of the vector has parallel vectors of equal length.
pub open spec fn all_inv(v: Seq<BoxValue<AnyBox>>) -> bool {
    forall|i: int| 0 <= i < v.len() ==> (#[trigger] v[i]).inv()
}

pub proof fn lemma_tally_append(a: Seq<Seq<Row>>, b: Seq<Seq<Row>>, c: Seq<Row>)
    ensures
        tally(a + b, c) == tally(a, c) + tally(b, c),
    decreases b.len(),
{
    if b.len() == 0 {
        assert(a + b =~= a);
    } else {
        assert((a + b).drop_last() =~= a + b.drop_last());
        lemma_tally_append(a, b.drop_last(), c);
    }
}

pub proof fn lemma_tally_single(x: Seq<Row>, c: Seq<Row>)
    ensures
        tally(seq![x], c) == share(x, c),
{
    assert(seq![x].drop_last() =~= Seq::<Seq<Row>>::empty());
    assert(tally(Seq::<Seq<Row>>::empty(), c) == 0);
    assert(seq![x].last() == x);
}

pub proof fn lemma_tally_insert(s: Seq<Seq<Row>>, i: int, x: Seq<Row>, c: Seq<Row>)
    requires
        0 <= i <= s.len(),
    ensures
        tally(s.insert(i, x), c) == tally(s, c) + share(x, c),
{
    assert(s.insert(i, x) =~= s.take(i) + seq![x] + s.skip(i));
    assert(s =~= s.take(i) + s.skip(i));
    lemma_tally_append(s.take(i) + seq![x], s.skip(i), c);
    lemma_tally_append(s.take(i), seq![x], c);
    lemma_tally_append(s.take(i), s.skip(i), c);
    lemma_tally_single(x, c);
}

pub proof fn lemma_tally_update(s: Seq<Seq<Row>>, j: int, y: Seq<Row>, c: Seq<Row>)
    requires
        0 <= j < s.len(),
    ensures
        tally(s.update(j, y), c) == tally(s, c) - share(s[j], c) + share(y, c),
{
    assert(s =~= s.take(j) + seq![s[j]] + s.skip(j + 1));
    assert(s.update(j, y) =~= s.take(j) + seq![y] + s.skip(j + 1));
    lemma_tally_append(s.take(j) + seq![s[j]], s.skip(j + 1), c);
    lemma_tally_append(s.take(j), seq![s[j]], c);
    lemma_tally_append(s.take(j) + seq![y], s.skip(j + 1), c);
    lemma_tally_append(s.take(j), seq![y], c);
    lemma_tally_single(s[j], c);
    lemma_tally_single(y, c);
}

/// With distinct contents, the tally of a content is the signed multiplicity of the one box
/// having it, or zero.
pub proof fn lemma_tally_distinct(cs: Seq<Seq<Row>>, c: Seq<Row>)
    requires
        distinct_contents(cs),
    ensures
        (forall|i: int| 0 <= i < cs.len() ==> content(#[trigger] cs[i]) != c) ==> tally(cs, c) == 0,
        forall|i: int| 0 <= i < cs.len() && content(#[trigger] cs[i]) == c ==> tally(cs, c) == signed(cs[i]),
    decreases cs.len(),
{
    if cs.len() > 0 {
        let init = cs.drop_last();
        assert(distinct_contents(init)) by {
            assert forall|i: int, j: int|
                0 <= i < init.len() && 0 <= j < init.len() && i != j implies content(
                #[trigger] init[i],
            ) != content(#[trigger] init[j]) by {
                assert(init[i] == cs[i]);
                assert(init[j] == cs[j]);
            }
        }
        lemma_tally_distinct(init, c);
        let n = cs.len() - 1;
        assert forall|i: int| 0 <= i < cs.len() && content(#[trigger] cs[i]) == c implies tally(cs, c)
            == signed(cs[i]) by {
            if i < n {
                assert(init[i] == cs[i]);
                assert(content(cs[n]) != content(cs[i]));
            } else {
                assert forall|k: int| 0 <= k < init.len() implies content(#[trigger] init[k]) != c by {
                    assert(init[k] == cs[k]);
                    assert(content(cs[k]) != content(cs[n]));
                }
            }
        }
        if forall|i: int| 0 <= i < cs.len() ==> content(#[trigger] cs[i]) != c {
            assert forall|k: int| 0 <= k < init.len() implies content(#[trigger] init[k]) != c by {
                assert(init[k] == cs[k]);
            }
            assert(content(cs[n]) != c);
        }
    }
}

/// A box is determined by its content and a non-zero signed multiplicity.
pub proof fn lemma_content_signed(t: Seq<Row>, u: Seq<Row>)
    requires
        t.len() > 0,
        u.len() > 0,
        content(t) == content(u),
        signed(t) == signed(u),
        t[0].mult > 0,
        u[0].mult > 0,
    ensures
        t == u,
{
    assert(content(t)[0] == content(u)[0]);
    assert(content(t).len() == t.len());
    assert(content(u).len() == u.len());
    assert(t.len() == u.len());
    assert forall|i: int| 0 <= i < t.len() implies t[i] == u[i] by {
        if i > 0 {
            assert(content(t)[i] == t[i]);
            assert(content(u)[i] == u[i]);
            assert(content(t)[i] == content(u)[i]);
        } else {
            assert(content(t)[0].kind == t[0].kind);
            assert(content(u)[0].kind == u[0].kind);
            assert(content(t)[0].len == t[0].len);
            assert(content(u)[0].len == u[0].len);
            assert(t[0].kind == u[0].kind);
            assert(t[0].len == u[0].len);
            assert(t[0].color == u[0].color);
            assert(t[0].mult == u[0].mult);
        }
    }
    assert(t =~= u);
}

/// Two strictly increasing sequences with the same elements are equal.
pub proof fn lemma_sorted_unique(s1: Seq<Seq<Row>>, s2: Seq<Seq<Row>>)
    requires
        strictly_sorted(s1),
        strictly_sorted(s2),
        forall|x: Seq<Row>| s1.contains(x) <==> s2.contains(x),
    ensures
        s1 == s2,
    decreases s1.len() + s2.len(),
{
    if s1.len() == 0 || s2.len() == 0 {
        if s1.len() > 0 {
            assert(s1.contains(s1[0]));
        }
        if s2.len() > 0 {
            assert(s2.contains(s2[0]));
        }
        assert(s1 =~= s2);
    } else {
        assert(s1.contains(s1[0]));
        assert(s2.contains(s2[0]));
        let k = choose|k: int| 0 <= k < s2.len() && s2[k] == s1[0];
        let m = choose|m: int| 0 <= m < s1.len() && s1[m] == s2[0];
        lemma_order_facts(s1[0], s2[0], s1[0], true);
        lemma_order_facts(s2[0], s1[0], s2[0], true);
        if k > 0 {
            assert(total_order(s2[0], s2[k]) < 0);
            if m > 0 {
                assert(total_order(s1[0], s1[m]) < 0);
            }
        }
        assert(s1[0] == s2[0]);
        let t1 = s1.drop_first();
        let t2 = s2.drop_first();
        assert forall|x: Seq<Row>| t1.contains(x) <==> t2.contains(x) by {
            if t1.contains(x) {
                let i = choose|i: int| 0 <= i < t1.len() && t1[i] == x;
                assert(s1[i + 1] == x);
                assert(s1.contains(x));
                let j = choose|j: int| 0 <= j < s2.len() && s2[j] == x;
                assert(total_order(s1[0], s1[i + 1]) < 0);
                lemma_order_facts(x, x, x, true);
                if j == 0 {
                    assert(false);
                }
                assert(t2[j - 1] == x);
            }
            if t2.contains(x) {
                let i = choose|i: int| 0 <= i < t2.len() && t2[i] == x;
                assert(s2[i + 1] == x);
                assert(s2.contains(x));
                let j = choose|j: int| 0 <= j < s1.len() && s1[j] == x;
                assert(total_order(s2[0], s2[i + 1]) < 0);
                lemma_order_facts(x, x, x, true);
                if j == 0 {
                    assert(false);
                }
                assert(t1[j - 1] == x);
            }
        }
        assert(strictly_sorted(t1)) by {
            assert forall|i: int, j: int| 0 <= i < j < t1.len() implies total_order(t1[i], t1[j]) < 0 by {
                assert(t1[i] == s1[i + 1] && t1[j] == s1[j + 1]);
            }
        }
        assert(strictly_sorted(t2)) by {
            assert forall|i: int, j: int| 0 <= i < j < t2.len() implies total_order(t2[i], t2[j]) < 0 by {
                assert(t2[i] == s2[i + 1] && t2[j] == s2[j + 1]);
            }
        }
        lemma_sorted_unique(t1, t2);
        assert(s1 =~= seq![s1[0]] + t1);
        assert(s2 =~= seq![s2[0]] + t2);
    }
}

/// Canonical children are determined by their tallies.
pub proof fn lemma_canonical_unique(s1: Seq<Seq<Row>>, s2: Seq<Seq<Row>>)
    requires
        canonical(s1),
        canonical(s2),
        forall|c: Seq<Row>| tally(s1, c) == tally(s2, c),
    ensures
        s1 == s2,
{
    assert forall|x: Seq<Row>| s1.contains(x) implies s2.contains(x) by {
        lemma_canonical_member(s1, s2, x);
    }
    assert forall|x: Seq<Row>| s2.contains(x) implies s1.contains(x) by {
        lemma_canonical_member(s2, s1, x);
    }
    lemma_sorted_unique(s1, s2);
}

proof fn lemma_canonical_member(s1: Seq<Seq<Row>>, s2: Seq<Seq<Row>>, x: Seq<Row>)
    requires
        canonical(s1),
        canonical(s2),
        forall|c: Seq<Row>| tally(s1, c) == tally(s2, c),
        s1.contains(x),
    ensures
        s2.contains(x),
{
    let i = choose|i: int| 0 <= i < s1.len() && s1[i] == x;
    let c = content(x);
    lemma_tally_distinct(s1, c);
    lemma_tally_distinct(s2, c);
    assert(is_tree(s1[i]));
    assert(tally(s1, c) == signed(x));
    assert(x[0].mult > 0);
    assert(tally(s2, c) != 0);
    let j = choose|j: int| 0 <= j < s2.len() && content(#[trigger] s2[j]) == c;
    assert(is_tree(s2[j]));
    lemma_content_signed(x, s2[j]);
    assert(s2[j] == x);
}

/// Exec: the contents of two boxes are equal.
pub fn eq_content<U: BoxType, V: BoxType>(a: &BoxValue<U>, b: &BoxValue<V>) -> (r: bool)
    requires
        a.inv(),
        b.inv(),
        a@.len() > 0,
        b@.len() > 0,
    ensures
        r == (content(a@) == content(b@)),
{
    let n = a.kinds.len();
    if n != b.kinds.len() {
        proof {
            assert(content(a@).len() != content(b@).len());
        }
        return false;
    }
    let mut i: usize = 0;
    while i < n
        invariant
            a.inv(),
            b.inv(),
            n == a@.len(),
            n == b@.len(),
            n > 0,
            i <= n,
            forall|k: int| 0 <= k < i ==> content(a@)[k] == content(b@)[k],
        decreases n - i,
    {
        let same_rest = i == 0 || (a.colors[i] == b.colors[i] && a.multiplicities[i].eq(
            &b.multiplicities[i],
        ));
        if a.kinds[i] != b.kinds[i] || a.lengths[i] != b.lengths[i] || !same_rest {
            proof {
                assert(content(a@)[i as int] != content(b@)[i as int]);
            }
            return false;
        }
        proof {
            assert(content(a@)[i as int] == content(b@)[i as int]);
        }
        i = i + 1;
    }
    proof {
        assert(content(a@) =~= content(b@));
    }
    true
}

/// Exec: copies of the immediate children of a box, in order.
pub fn child_boxes<T: BoxType>(value: &BoxValue<T>) -> (r: Vec<BoxValue<AnyBox>>)
    requires
        value.wf(),
    ensures
        views(r@) == children(value@),
        all_inv(r@),
{
    let n = value.kinds.len();
    let mut r: Vec<BoxValue<AnyBox>> = Vec::new();
    let mut curr: usize = 1;
    let ghost cs = children(value@);
    proof {
        lemma_tree_split(value@);
        assert(value@.subrange(1, n as int) =~= value@.drop_first());
        assert(cs.skip(0) =~= cs);
    }
    while curr < n
        invariant
            value.wf(),
            n == value@.len(),
            1 <= curr <= n,
            cs == children(value@),
            is_forest(value@.subrange(curr as int, n as int)),
            items(value@.subrange(curr as int, n as int)) == cs.skip(r@.len() as int),
            r@.len() <= cs.len(),
            views(r@) == cs.take(r@.len() as int),
            all_inv(r@),
        decreases n - curr,
    {
        let ghost rest = value@.subrange(curr as int, n as int);
        let len = value.lengths[curr] as usize;
        proof {
            assert(rest[0] == value@[curr as int]);
            assert(1 <= rest[0].len <= rest.len());
            assert(items(rest) == seq![rest.take(len as int)] + items(rest.skip(len as int)));
            assert(rest.take(len as int) =~= value@.subrange(curr as int, curr + len));
            assert(rest.skip(len as int) =~= value@.subrange(curr + len, n as int));
            assert(cs.skip(r@.len() as int)[0] == rest.take(len as int));
            assert(cs.skip(r@.len() as int).drop_first() =~= cs.skip(r@.len() as int + 1));
        }
        let child = value.slice(curr, curr + len);
        let ghost old_r = r@;
        r.push(child);
        proof {
            assert(views(r@) =~= cs.take(r@.len() as int)) by {
                assert forall|k: int| 0 <= k < r@.len() implies views(r@)[k] == cs.take(r@.len() as int)[k] by {
                    if k < old_r.len() {
                        assert(views(old_r)[k] == cs.take(old_r.len() as int)[k]);
                    }
                }
            }
            assert forall|k: int| 0 <= k < r@.len() implies (#[trigger] r@[k]).inv() by {
                if k < old_r.len() {
                    assert(old_r[k] == r@[k]);
                }
            }
        }
        curr = curr + len;
    }
    proof {
        assert(value@.subrange(curr as int, n as int).len() == 0);
        assert(items(value@.subrange(curr as int, n as int)) =~= Seq::<Seq<Row>>::empty());
        assert(cs.skip(r@.len() as int).len() == 0);
        assert(cs.take(r@.len() as int) =~= cs);
    }
    r
}

/// Exec: the box with the given first row whose children are the given boxes.
pub fn assemble<U: BoxType>(kind: BoxKind, color: Color, mult: Natural, cs: Vec<BoxValue<AnyBox>>) -> (r:
    BoxValue<U>)
    requires
        all_inv(cs@),
        all_trees(views(cs@)),
        1 + flatten(views(cs@)).len() <= u32::MAX,
    ensures
        r.wf(),
        r@ == mk_box(head_row(kind, color, mult@), views(cs@)),
        children(r@) == views(cs@),
{
    let ghost vs = views(cs@);
    let mut r = BoxValue::<U>::new();
    r.push_row(kind, color, mult, 1);
    let mut cs = cs;
    let mut done: Vec<BoxValue<AnyBox>> = Vec::new();
    let ghost total = flatten(vs).len();
    let mut k: usize = 0;
    let n = cs.len();
    proof {
        assert(vs.take(0) =~= Seq::<Seq<Row>>::empty());
        assert(r@ =~= mk_box(head_row(kind, color, mult@), vs.take(0)));
    }
    // Take the children out from the back, then add them from the front.
    while cs.len() > 0
        invariant
            all_inv(cs@),
            all_inv(done@),
            cs@.len() + done@.len() == vs.len(),
            vs.len() == n,
            views(cs@) == vs.take(cs@.len() as int),
            views(done@) == vs.skip(cs@.len() as int).reverse(),
        decreases cs.len(),
    {
        let ghost old_cs = cs@;
        let ghost old_done = done@;
        let c = cs.pop().unwrap();
        done.push(c);
        proof {
            assert(views(cs@) =~= vs.take(cs@.len() as int)) by {
                assert forall|i: int| 0 <= i < cs@.len() implies views(cs@)[i] == vs.take(cs@.len() as int)[i] by {
                    assert(cs@[i] == old_cs[i]);
                    assert(views(old_cs)[i] == vs[i]);
                }
            }
            assert(views(done@) =~= vs.skip(cs@.len() as int).reverse()) by {
                assert forall|i: int| 0 <= i < done@.len() implies views(done@)[i] == vs.skip(cs@.len() as int).reverse()[i] by {
                    if i < old_done.len() {
                        assert(done@[i] == old_done[i]);
                        assert(views(old_done)[i] == vs.skip(old_cs.len() as int).reverse()[i]);
                    } else {
                        assert(views(old_cs)[cs@.len() as int] == vs[cs@.len() as int]);
                    }
                }
            }
            assert forall|i: int| 0 <= i < cs@.len() implies (#[trigger] cs@[i]).inv() by {
                assert(cs@[i] == old_cs[i]);
            }
            assert forall|i: int| 0 <= i < done@.len() implies (#[trigger] done@[i]).inv() by {
                if i < old_done.len() {
                    assert(done@[i] == old_done[i]);
                }
            }
        }
    }
    proof {
        assert(vs.skip(0) =~= vs);
    }
    while done.len() > 0
        invariant
            all_inv(done@),
            r.inv(),
            k + done@.len() == vs.len(),
            views(done@) == vs.skip(k as int).reverse(),
            r@ == mk_box(head_row(kind, color, mult@), vs.take(k as int)),
            k <= vs.len(),
            vs.len() == n,
            all_trees(vs),
            1 + flatten(vs).len() <= u32::MAX,
        decreases done.len(),
    {
        let ghost old_done = done@;
        let c = done.pop().unwrap();
        proof {
            assert(c@ == vs[k as int]) by {
                assert(views(old_done)[old_done.len() - 1] == vs.skip(k as int).reverse()[old_done.len() - 1]);
            }
            assert(vs.take(k + 1) =~= vs.take(k as int).push(c@));
            lemma_flatten_push(vs.take(k as int), c@);
            assert(vs =~= vs.take(k + 1) + vs.skip(k + 1));
            crate::model::lemma_flatten_append(vs.take(k + 1), vs.skip(k + 1));
            assert(is_tree(vs[k as int]));
        }
        r.extend(c);
        proof {
            assert(r@ =~= mk_box(head_row(kind, color, mult@), vs.take(k + 1)));
        }
        k = k + 1;
        proof {
            assert(views(done@) =~= vs.skip(k as int).reverse()) by {
                assert forall|i: int| 0 <= i < done@.len() implies views(done@)[i] == vs.skip(k as int).reverse()[i] by {
                    assert(done@[i] == old_done[i]);
                    assert(views(old_done)[i] == vs.skip(k - 1).reverse()[i]);
                }
            }
            assert forall|i: int| 0 <= i < done@.len() implies (#[trigger] done@[i]).inv() by {
                assert(done@[i] == old_done[i]);
            }
        }
    }
    proof {
        assert(vs.take(k as int) =~= vs);
        lemma_mk_box(head_row(kind, color, mult@), vs);
    }
    r
}

/// The signed value of a color and multiplicity.
pub open spec fn sgn(color: Color, mult: nat) -> int {
    if color == Color::Black {
        mult as int
    } else {
        -(mult as int)
    }
}

pub proof fn lemma_flatten_update_len(s: Seq<Seq<Row>>, j: int, y: Seq<Row>)
    requires
        0 <= j < s.len(),
        y.len() == s[j].len(),
    ensures
        flatten(s.update(j, y)).len() == flatten(s).len(),
{
    assert(s =~= s.take(j) + seq![s[j]] + s.skip(j + 1));
    assert(s.update(j, y) =~= s.take(j) + seq![y] + s.skip(j + 1));
    crate::model::lemma_flatten_append(s.take(j) + seq![s[j]], s.skip(j + 1));
    crate::model::lemma_flatten_append(s.take(j), seq![s[j]]);
    crate::model::lemma_flatten_append(s.take(j) + seq![y], s.skip(j + 1));
    crate::model::lemma_flatten_append(s.take(j), seq![y]);
    lemma_flatten_single(s[j]);
    lemma_flatten_single(y);
}

pub proof fn lemma_flatten_single(x: Seq<Row>)
    ensures
        flatten(seq![x]) == x,
{
    assert(seq![x].drop_last() =~= Seq::<Seq<Row>>::empty());
    assert(flatten(Seq::<Seq<Row>>::empty()) =~= Seq::<Row>::empty());
    assert(seq![x].last() == x);
    assert(flatten(seq![x]) =~= x);
}

pub proof fn lemma_flatten_insert_len(s: Seq<Seq<Row>>, i: int, x: Seq<Row>)
    requires
        0 <= i <= s.len(),
    ensures
        flatten(s.insert(i, x)).len() == flatten(s).len() + x.len(),
{
    assert(s.insert(i, x) =~= s.take(i) + seq![x] + s.skip(i));
    assert(s =~= s.take(i) + s.skip(i));
    crate::model::lemma_flatten_append(s.take(i) + seq![x], s.skip(i));
    crate::model::lemma_flatten_append(s.take(i), seq![x]);
    crate::model::lemma_flatten_append(s.take(i), s.skip(i));
    lemma_flatten_single(x);
}

/// Exec: a box whose outer signed multiplicity is increased by the given signed amount.
fn add_signed(other: BoxValue<AnyBox>, col: Color, mul: &Natural) -> (r: BoxValue<AnyBox>)
    requires
        other.inv(),
        other@.len() > 0,
    ensures
        r.inv(),
        content(r@) == content(other@),
        r@.len() == other@.len(),
        signed(r@) == signed(other@) + sgn(col, mul@),
        r@.drop_first() == other@.drop_first(),
        r@[0].kind == other@[0].kind,
        r@[0].len == other@[0].len,
{
    let ghost o = other@;
    let mut other = other;
    let other_col = other.get_color(0);
    let other_mul = other.get_multiplicity(0);
    if other_col != col {
        if mul.lt(&other_mul) {
            other.set_multiplicity(0, other_mul.saturating_sub(mul));
        } else {
            other.set_multiplicity(0, mul.saturating_sub(&other_mul));
            other.set_color(0, col);
        }
    } else {
        other.set_multiplicity(0, other_mul.add(mul));
    }
    proof {
        assert(content(other@) =~= content(o)) by {
            assert(content(other@)[0] == content(o)[0]);
        }
        assert(other@.drop_first() =~= o.drop_first());
    }
    other
}

/// Exec: adds one box to a list of boxes with distinct contents, merging it into the box
/// with the same content if there is one.
pub fn merge_into(u: &mut Vec<BoxValue<AnyBox>>, x: BoxValue<AnyBox>)
    requires
        all_inv(old(u)@),
        all_trees(views(old(u)@)),
        distinct_contents(views(old(u)@)),
        x.inv(),
        is_tree(x@),
    ensures
        all_inv(final(u)@),
        all_trees(views(final(u)@)),
        distinct_contents(views(final(u)@)),
        forall|c: Seq<Row>| tally(views(final(u)@), c) == tally(views(old(u)@), c) + share(x@, c),
        flatten(views(final(u)@)).len() <= flatten(views(old(u)@)).len() + x@.len(),
{
    let n = u.len();
    let mut j: usize = 0;
    let ghost old_u = u@;
    while j < n
        invariant
            u@ == old_u,
            n == u@.len(),
            j <= n,
            all_inv(u@),
            x.inv(),
            is_tree(x@),
            forall|k: int| 0 <= k < j ==> content(#[trigger] views(u@)[k]) != content(x@),
            all_trees(views(u@)),
        ensures
            j <= n,
            j < n ==> content(views(u@)[j as int]) == content(x@),
            forall|k: int| 0 <= k < j ==> content(#[trigger] views(u@)[k]) != content(x@),
        decreases n - j,
    {
        proof {
            assert(u@[j as int].inv());
            assert(is_tree(views(u@)[j as int]));
        }
        if eq_content(&u[j], &x) {
            break;
        }
        j = j + 1;
    }
    if j < n {
        let col = x.get_color(0);
        let mul = x.get_multiplicity(0);
        proof {
            assert(u@[j as int].inv());
            assert(is_tree(views(u@)[j as int]));
        }
        let other = u.remove(j);
        let updated = add_signed(other, col, &mul);
        let ghost y = updated@;
        u.insert(j, updated);
        proof {
            let vo = views(old_u);
            let vn = views(u@);
            assert(vn =~= vo.update(j as int, y)) by {
                assert forall|k: int| 0 <= k < vn.len() implies vn[k] == vo.update(j as int, y)[k] by {
                    if k != j {
                        assert(u@[k] == old_u[k]);
                    }
                }
            }
            assert(content(vo[j as int]) == content(x@));
            assert forall|c: Seq<Row>| tally(vn, c) == tally(vo, c) + share(x@, c) by {
                lemma_tally_update(vo, j as int, y, c);
            }
            assert forall|k: int| 0 <= k < u@.len() implies (#[trigger] u@[k]).inv() by {
                if k != j {
                    assert(u@[k] == old_u[k]);
                }
            }
            assert(all_trees(vn)) by {
                assert forall|k: int| 0 <= k < vn.len() implies is_tree(#[trigger] vn[k]) by {
                    if k == j {
                        assert(is_tree(vo[j as int]));
                        assert(y =~= seq![y[0]] + y.drop_first());
                        assert(vo[j as int] =~= seq![vo[j as int][0]] + vo[j as int].drop_first());
                        assert(y.drop_first() == vo[j as int].drop_first());
                    } else {
                        assert(vn[k] == vo[k]);
                    }
                }
            }
            assert(distinct_contents(vn)) by {
                assert forall|a: int, b: int|
                    0 <= a < vn.len() && 0 <= b < vn.len() && a != b implies content(#[trigger] vn[a])
                    != content(#[trigger] vn[b]) by {
                    assert(content(vn[a]) == content(vo[a]));
                    assert(content(vn[b]) == content(vo[b]));
                }
            }
            lemma_flatten_update_len(vo, j as int, y);
        }
    } else {
        let ghost xv = x@;
        u.push(x);
        proof {
            let vo = views(old_u);
            let vn = views(u@);
            assert(vn =~= vo.push(xv));
            assert(vo.push(xv).drop_last() =~= vo);
            assert forall|c: Seq<Row>| tally(vn, c) == tally(vo, c) + share(xv, c) by {
                assert(vn.drop_last() =~= vo);
            }
            assert forall|k: int| 0 <= k < u@.len() implies (#[trigger] u@[k]).inv() by {
                if k < n {
                    assert(u@[k] == old_u[k]);
                }
            }
            assert(all_trees(vn)) by {
                assert forall|k: int| 0 <= k < vn.len() implies is_tree(#[trigger] vn[k]) by {
                    if k < n {
                        assert(vn[k] == vo[k]);
                    }
                }
            }
            assert(distinct_contents(vn)) by {
                assert forall|a: int, b: int|
                    0 <= a < vn.len() && 0 <= b < vn.len() && a != b implies content(#[trigger] vn[a])
                    != content(#[trigger] vn[b]) by {
                    if a < n && b < n {
                        assert(vn[a] == vo[a] && vn[b] == vo[b]);
                    } else if a < n {
                        assert(vn[a] == vo[a]);
                    } else {
                        assert(vn[b] == vo[b]);
                    }
                }
            }
            lemma_flatten_push(vo, xv);
        }
    }
}

/// Exec: the boxes whose multiplicity is not zero, in order.
pub fn drop_zeros(u: Vec<BoxValue<AnyBox>>) -> (r: Vec<BoxValue<AnyBox>>)
    requires
        all_inv(u@),
        all_trees(views(u@)),
        distinct_contents(views(u@)),
    ensures
        all_inv(r@),
        all_trees(views(r@)),
        distinct_contents(views(r@)),
        all_nonzero(views(r@)),
        forall|c: Seq<Row>| tally(views(r@), c) == tally(views(u@), c),
        flatten(views(r@)).len() <= flatten(views(u@)).len(),
        forall|i: int| 0 <= i < r@.len() ==> views(u@).contains(#[trigger] views(r@)[i]),
{
    let mut u = u;
    let mut rev: Vec<BoxValue<AnyBox>> = Vec::new();
    let ghost vu = views(u@);
    // Move the boxes out from the back so that they can be taken by value.
    while u.len() > 0
        invariant
            all_inv(u@),
            all_inv(rev@),
            vu.len() == u@.len() + rev@.len(),
            views(u@) == vu.take(u@.len() as int),
            views(rev@) == vu.skip(u@.len() as int).reverse(),
        decreases u.len(),
    {
        let ghost old_u = u@;
        let ghost old_rev = rev@;
        let b = u.pop().unwrap();
        rev.push(b);
        proof {
            assert(views(u@) =~= vu.take(u@.len() as int)) by {
                assert forall|i: int| 0 <= i < u@.len() implies views(u@)[i] == vu.take(u@.len() as int)[i] by {
                    assert(u@[i] == old_u[i]);
                    assert(views(old_u)[i] == vu[i]);
                }
            }
            assert(views(rev@) =~= vu.skip(u@.len() as int).reverse()) by {
                assert forall|i: int| 0 <= i < rev@.len() implies views(rev@)[i] == vu.skip(u@.len() as int).reverse()[i] by {
                    if i < old_rev.len() {
                        assert(rev@[i] == old_rev[i]);
                        assert(views(old_rev)[i] == vu.skip(old_u.len() as int).reverse()[i]);
                    } else {
                        assert(views(old_u)[u@.len() as int] == vu[u@.len() as int]);
                    }
                }
            }
            assert forall|i: int| 0 <= i < u@.len() implies (#[trigger] u@[i]).inv() by {
                assert(u@[i] == old_u[i]);
            }
            assert forall|i: int| 0 <= i < rev@.len() implies (#[trigger] rev@[i]).inv() by {
                if i < old_rev.len() {
                    assert(rev@[i] == old_rev[i]);
                }
            }
        }
    }
    let mut r: Vec<BoxValue<AnyBox>> = Vec::new();
    let mut k: usize = 0;
    let n = rev.len();
    proof {
        assert(vu.skip(0) =~= vu);
        assert(vu.take(0) =~= Seq::<Seq<Row>>::empty());
    }
    while rev.len() > 0
        invariant
            all_inv(rev@),
            all_inv(r@),
            k + rev@.len() == vu.len(),
            vu.len() == n,
            views(rev@) == vu.skip(k as int).reverse(),
            all_trees(vu),
            distinct_contents(vu),
            all_trees(views(r@)),
            all_nonzero(views(r@)),
            forall|i: int| 0 <= i < r@.len() ==> vu.take(k as int).contains(#[trigger] views(r@)[i]),
            forall|i: int, j: int| 0 <= i < j < r@.len() ==> views(r@)[i] != views(r@)[j],
            forall|c: Seq<Row>| tally(views(r@), c) == tally(vu.take(k as int), c),
            flatten(views(r@)).len() <= flatten(vu.take(k as int)).len(),
        decreases rev.len(),
    {
        let ghost old_rev = rev@;
        let ghost old_r = r@;
        let b = rev.pop().unwrap();
        proof {
            assert(b@ == vu[k as int]) by {
                assert(views(old_rev)[old_rev.len() - 1] == vu.skip(k as int).reverse()[old_rev.len() - 1]);
            }
            assert(vu.take(k + 1) =~= vu.take(k as int).push(b@));
            assert(vu.take(k as int).push(b@).drop_last() =~= vu.take(k as int));
            lemma_flatten_push(vu.take(k as int), b@);
            assert(is_tree(vu[k as int]));
        }
        let nonzero = !b.multiplicities[0].is_zero();
        if nonzero {
            let ghost bv = b@;
            r.push(b);
            proof {
                let vr = views(r@);
                assert(vr =~= views(old_r).push(bv));
                assert(vr.drop_last() =~= views(old_r));
                lemma_flatten_push(views(old_r), bv);
                assert forall|i: int| 0 <= i < r@.len() implies (#[trigger] r@[i]).inv() by {
                    if i < old_r.len() {
                        assert(r@[i] == old_r[i]);
                    }
                }
                assert forall|i: int| 0 <= i < vr.len() implies vu.take(k + 1).contains(#[trigger] vr[i]) by {
                    if i < old_r.len() {
                        assert(vr[i] == views(old_r)[i]);
                        assert(vu.take(k as int).contains(views(old_r)[i]));
                        let m = choose|m: int| 0 <= m < k && vu.take(k as int)[m] == views(old_r)[i];
                        assert(vu.take(k + 1)[m] == vr[i]);
                    } else {
                        assert(vu.take(k + 1)[k as int] == bv);
                    }
                }
                assert forall|i: int, j: int| 0 <= i < j < vr.len() implies vr[i] != vr[j] by {
                    if j < old_r.len() {
                        assert(vr[i] == views(old_r)[i] && vr[j] == views(old_r)[j]);
                    } else {
                        assert(vr[i] == views(old_r)[i]);
                        assert(vu.take(k as int).contains(views(old_r)[i]));
                        let m = choose|m: int| 0 <= m < k && vu.take(k as int)[m] == views(old_r)[i];
                        assert(vu[m] == vr[i]);
                        assert(vu[k as int] == vr[j]);
                        assert(content(vu[m]) != content(vu[k as int]));
                    }
                }
                assert(all_trees(vr)) by {
                    assert forall|i: int| 0 <= i < vr.len() implies is_tree(#[trigger] vr[i]) by {
                        if i < old_r.len() {
                            assert(vr[i] == views(old_r)[i]);
                        }
                    }
                }
                assert(all_nonzero(vr)) by {
                    assert forall|i: int| 0 <= i < vr.len() implies (#[trigger] vr[i])[0].mult > 0 by {
                        if i < old_r.len() {
                            assert(vr[i] == views(old_r)[i]);
                        }
                    }
                }
                assert forall|c: Seq<Row>| tally(vr, c) == tally(vu.take(k + 1), c) by {
                    assert(vr.drop_last() =~= views(old_r));
                    assert(vu.take(k + 1).drop_last() =~= vu.take(k as int));
                    assert(vr.last() == bv);
                    assert(vu.take(k + 1).last() == bv);
                    assert(tally(views(old_r), c) == tally(vu.take(k as int), c));
                    assert(tally(vr, c) == tally(vr.drop_last(), c) + share(vr.last(), c));
                }
            }
        } else {
            proof {
                assert forall|c: Seq<Row>| tally(views(r@), c) == tally(vu.take(k + 1), c) by {
                    assert(share(b@, c) == 0);
                }
                assert forall|i: int| 0 <= i < views(r@).len() implies vu.take(k + 1).contains(
                    #[trigger] views(r@)[i],
                ) by {
                    assert(vu.take(k as int).contains(views(r@)[i]));
                    let m = choose|m: int| 0 <= m < k && vu.take(k as int)[m] == views(r@)[i];
                    assert(vu.take(k + 1)[m] == views(r@)[i]);
                }
            }
        }
        k = k + 1;
        proof {
            assert(views(rev@) =~= vu.skip(k as int).reverse()) by {
                assert forall|i: int| 0 <= i < rev@.len() implies views(rev@)[i] == vu.skip(k as int).reverse()[i] by {
                    assert(rev@[i] == old_rev[i]);
                    assert(views(old_rev)[i] == vu.skip(k - 1).reverse()[i]);
                }
            }
            assert forall|i: int| 0 <= i < rev@.len() implies (#[trigger] rev@[i]).inv() by {
                assert(rev@[i] == old_rev[i]);
            }
        }
    }
    proof {
        assert(vu.take(k as int) =~= vu);
        let vr = views(r@);
        assert(distinct_contents(vr)) by {
            assert forall|a: int, b: int|
                0 <= a < vr.len() && 0 <= b < vr.len() && a != b implies content(#[trigger] vr[a]) != content(
                #[trigger] vr[b],
            ) by {
                assert(vu.contains(vr[a]));
                assert(vu.contains(vr[b]));
                let ia = choose|m: int| 0 <= m < vu.len() && vu[m] == vr[a];
                let ib = choose|m: int| 0 <= m < vu.len() && vu[m] == vr[b];
                if a < b {
                    assert(vr[a] != vr[b]);
                } else {
                    assert(vr[b] != vr[a]);
                }
            }
        }
    }
    r
}

/// Exec: inserts a box into a sorted list after all boxes that are not above it.
pub fn insert_in_order(s: &mut Vec<BoxValue<AnyBox>>, x: BoxValue<AnyBox>, total: bool) -> (i: usize)
    requires
        all_inv(old(s)@),
        x.inv(),
        sorted_by(views(old(s)@), total),
    ensures
        i <= old(s)@.len(),
        all_inv(final(s)@),
        views(final(s)@) == views(old(s)@).insert(i as int, x@),
        sorted_by(views(final(s)@), total),
        forall|k: int| 0 <= k < i ==> box_order(#[trigger] views(old(s)@)[k], x@, total) <= 0,
        forall|k: int| i <= k < old(s)@.len() ==> box_order(#[trigger] views(old(s)@)[k], x@, total) > 0,
{
    let n = s.len();
    let mut i: usize = 0;
    while i < n
        invariant
            n == s@.len(),
            s@ == old(s)@,
            i <= n,
            all_inv(s@),
            x.inv(),
            forall|k: int| 0 <= k < i ==> box_order(#[trigger] views(s@)[k], x@, total) <= 0,
        ensures
            i <= n,
            s@ == old(s)@,
            i < n ==> box_order(views(s@)[i as int], x@, total) > 0,
            forall|k: int| 0 <= k < i ==> box_order(#[trigger] views(s@)[k], x@, total) <= 0,
        decreases n - i,
    {
        proof {
            assert(s@[i as int].inv());
        }
        if compare_boxes(&s[i], &x, total) > 0 {
            break;
        }
        i = i + 1;
    }
    let ghost xv = x@;
    let ghost vo = views(s@);
    proof {
        if i < n {
            assert(box_order(vo[i as int], xv, total) > 0);
        }
        assert forall|k: int| i <= k < n implies box_order(#[trigger] vo[k], xv, total) > 0 by {
            if i < n {
                lemma_order_facts(xv, vo[i as int], vo[k], total);
                lemma_order_facts(vo[i as int], xv, vo[k], total);
                if k > i {
                    assert(box_order(vo[i as int], vo[k], total) <= 0);
                }
                lemma_order_facts(vo[k], xv, vo[k], total);
            }
        }
    }
    s.insert(i, x);
    proof {
        let vn = views(s@);
        assert(vn =~= vo.insert(i as int, xv)) by {
            assert forall|k: int| 0 <= k < vn.len() implies vn[k] == vo.insert(i as int, xv)[k] by {
                if k < i {
                    assert(s@[k] == old(s)@[k]);
                } else if k > i {
                    assert(s@[k] == old(s)@[k - 1]);
                }
            }
        }
        assert forall|k: int| 0 <= k < s@.len() implies (#[trigger] s@[k]).inv() by {
            if k < i {
                assert(s@[k] == old(s)@[k]);
            } else if k > i {
                assert(s@[k] == old(s)@[k - 1]);
            }
        }
        assert forall|a: int, b: int| 0 <= a < b < vn.len() implies box_order(vn[a], vn[b], total) <= 0 by {
            if a < i && b < i {
                assert(vn[a] == vo[a] && vn[b] == vo[b]);
            } else if a < i && b == i {
                assert(vn[a] == vo[a]);
            } else if a < i {
                assert(vn[a] == vo[a] && vn[b] == vo[b - 1]);
                lemma_order_facts(vo[a], xv, vo[b - 1], total);
                lemma_order_facts(vo[b - 1], xv, vo[a], total);
            } else if a == i {
                assert(vn[b] == vo[b - 1]);
                lemma_order_facts(vo[b - 1], xv, vo[b - 1], total);
            } else {
                assert(vn[a] == vo[a - 1] && vn[b] == vo[b - 1]);
            }
        }
    }
    i
}

/// The children in normal form: zero multiplicities dropped, then strictly sorted.
pub fn canonicalize(u: Vec<BoxValue<AnyBox>>) -> (r: Vec<BoxValue<AnyBox>>)
    requires
        all_inv(u@),
        all_trees(views(u@)),
        distinct_contents(views(u@)),
    ensures
        all_inv(r@),
        canonical(views(r@)),
        forall|c: Seq<Row>| tally(views(r@), c) == tally(views(u@), c),
        flatten(views(r@)).len() <= flatten(views(u@)).len(),
        forall|i: int| 0 <= i < r@.len() ==> views(u@).contains(#[trigger] views(r@)[i]),
{
    let ghost vu = views(u@);
    let v = drop_zeros(u);
    let ghost vv = views(v@);
    let r = sort_distinct(v);
    proof {
        let vs = views(r@);
        assert forall|i: int| 0 <= i < vs.len() implies vu.contains(#[trigger] vs[i]) by {
            assert(vs.contains(vs[i]));
            assert(vv.contains(vs[i]));
        }
        assert(all_nonzero(vs)) by {
            assert forall|i: int| 0 <= i < vs.len() implies (#[trigger] vs[i])[0].mult > 0 by {
                assert(vs.contains(vs[i]));
                assert(vv.contains(vs[i]));
                let q = choose|q: int| 0 <= q < vv.len() && vv[q] == vs[i];
            }
        }
    }
    r
}

/// Sorts boxes with distinct contents into strictly increasing total order.
#[verifier::rlimit(60)]
#[verifier::spinoff_prover]
pub fn sort_distinct(vx: Vec<BoxValue<AnyBox>>) -> (r: Vec<BoxValue<AnyBox>>)
    requires
        all_inv(vx@),
        all_trees(views(vx@)),
        distinct_contents(views(vx@)),
    ensures
        all_inv(r@),
        all_trees(views(r@)),
        distinct_contents(views(r@)),
        strictly_sorted(views(r@)),
        forall|c: Seq<Row>| tally(views(r@), c) == tally(views(vx@), c),
        flatten(views(r@)).len() == flatten(views(vx@)).len(),
        forall|x: Seq<Row>| views(r@).contains(x) <==> views(vx@).contains(x),
{
    let ghost vv = views(vx@);
    let mut v = vx;
    let mut s: Vec<BoxValue<AnyBox>> = Vec::new();
    proof {
        assert(views(s@) =~= Seq::<Seq<Row>>::empty());
        assert(Seq::<Seq<Row>>::empty().skip(0) =~= Seq::<Seq<Row>>::empty());
    }
    // Insert from the back of `v`; the contents are distinct, so the order of insertion
    // does not matter for the result.
    while v.len() > 0
        invariant
            all_inv(v@),
            all_inv(s@),
            views(v@) == vv.take(v@.len() as int),
            v@.len() <= vv.len(),
            all_trees(vv),
            distinct_contents(vv),
            sorted_by(views(s@), true),
            forall|i: int| v@.len() <= i < vv.len() ==> views(s@).contains(#[trigger] vv[i]),
            forall|i: int| 0 <= i < s@.len() ==> vv.skip(v@.len() as int).contains(#[trigger] views(s@)[i]),
            forall|i: int, j: int| 0 <= i < j < s@.len() ==> views(s@)[i] != views(s@)[j],
            forall|c: Seq<Row>| tally(views(s@), c) == tally(vv.skip(v@.len() as int), c),
            flatten(views(s@)).len() == flatten(vv.skip(v@.len() as int)).len(),
        decreases v.len(),
    {
        let ghost old_v = v@;
        let ghost old_s = views(s@);
        let x = v.pop().unwrap();
        let ghost m = v@.len() as int;
        let ghost xv = x@;
        proof {
            assert(xv == vv[m]) by {
                assert(views(old_v)[m] == vv.take(m + 1)[m]);
            }
            assert(vv.skip(m) =~= seq![xv] + vv.skip(m + 1));
            lemma_tally_append(seq![xv], vv.skip(m + 1), Seq::empty());
            assert(views(v@) =~= vv.take(m)) by {
                assert forall|i: int| 0 <= i < m implies views(v@)[i] == vv.take(m)[i] by {
                    assert(v@[i] == old_v[i]);
                    assert(views(old_v)[i] == vv.take(m + 1)[i]);
                }
            }
            assert forall|i: int| 0 <= i < v@.len() implies (#[trigger] v@[i]).inv() by {
                assert(v@[i] == old_v[i]);
            }
        }
        let pos = insert_in_order(&mut s, x, true);
        proof {
            let vn = views(s@);
            assert forall|c: Seq<Row>| tally(vn, c) == tally(vv.skip(m), c) by {
                lemma_tally_insert(old_s, pos as int, xv, c);
                lemma_tally_append(seq![xv], vv.skip(m + 1), c);
                lemma_tally_single(xv, c);
            }
            lemma_flatten_insert_len(old_s, pos as int, xv);
            crate::model::lemma_flatten_append(seq![xv], vv.skip(m + 1));
            lemma_flatten_single(xv);
            assert forall|i: int| 0 <= i < vn.len() implies vv.skip(m).contains(#[trigger] vn[i]) by {
                if i < pos {
                    assert(vn[i] == old_s[i]);
                    assert(vv.skip(m + 1).contains(old_s[i]));
                    let q = choose|q: int| 0 <= q < vv.skip(m + 1).len() && #[trigger] vv.skip(m + 1)[q] == old_s[i];
                    assert(vv.skip(m)[q + 1] == vn[i]);
                } else if i > pos {
                    assert(vn[i] == old_s[i - 1]);
                    assert(vv.skip(m + 1).contains(old_s[i - 1]));
                    let q = choose|q: int| 0 <= q < vv.skip(m + 1).len() && #[trigger] vv.skip(m + 1)[q] == old_s[i - 1];
                    assert(vv.skip(m)[q + 1] == vn[i]);
                } else {
                    assert(vv.skip(m)[0] == vn[i]);
                }
            }
            assert forall|i: int| m <= i < vv.len() implies vn.contains(#[trigger] vv[i]) by {
                if i == m {
                    assert(vn[pos as int] == xv);
                } else {
                    assert(old_s.contains(vv[i]));
                    let q = choose|q: int| 0 <= q < old_s.len() && old_s[q] == vv[i];
                    if q < pos {
                        assert(vn[q] == old_s[q]);
                    } else {
                        assert(vn[q + 1] == old_s[q]);
                    }
                }
            }
            assert forall|i: int, j: int| 0 <= i < j < vn.len() implies vn[i] != vn[j] by {
                if i != pos && j != pos {
                    let oi = if i < pos { i } else { i - 1 };
                    let oj = if j < pos { j } else { j - 1 };
                    assert(vn[i] == old_s[oi] && vn[j] == old_s[oj]);
                } else {
                    let o = if i == pos { j } else { i };
                    let oo = if o < pos { o } else { o - 1 };
                    assert(vn[o] == old_s[oo]);
                    assert(vv.skip(m + 1).contains(old_s[oo]));
                    let q = choose|q: int| 0 <= q < vv.skip(m + 1).len() && #[trigger] vv.skip(m + 1)[q] == old_s[oo];
                    assert(vv[m + 1 + q] == old_s[oo]);
                    assert(content(vv[m + 1 + q]) != content(vv[m]));
                }
            }
        }
    }
    proof {
        assert(vv.skip(0) =~= vv);
        let vs = views(s@);
        assert forall|x: Seq<Row>| vs.contains(x) <==> vv.contains(x) by {
            if vv.contains(x) {
                let q = choose|q: int| 0 <= q < vv.len() && vv[q] == x;
                assert(vs.contains(vv[q]));
            }
            if vs.contains(x) {
                let q = choose|q: int| 0 <= q < vs.len() && vs[q] == x;
                assert(vv.contains(vs[q]));
            }
        }
        assert(all_trees(vs)) by {
            assert forall|i: int| 0 <= i < vs.len() implies is_tree(#[trigger] vs[i]) by {
                assert(vv.contains(vs[i]));
            }
        }
        assert(distinct_contents(vs)) by {
            assert forall|a: int, b: int|
                0 <= a < vs.len() && 0 <= b < vs.len() && a != b implies content(#[trigger] vs[a]) != content(
                #[trigger] vs[b],
            ) by {
                assert(vv.contains(vs[a]));
                assert(vv.contains(vs[b]));
                let ia = choose|q: int| 0 <= q < vv.len() && vv[q] == vs[a];
                let ib = choose|q: int| 0 <= q < vv.len() && vv[q] == vs[b];
                if a < b {
                    assert(vs[a] != vs[b]);
                } else {
                    assert(vs[b] != vs[a]);
                }
            }
        }
        assert(strictly_sorted(vs)) by {
            assert forall|a: int, b: int| 0 <= a < b < vs.len() implies total_order(vs[a], vs[b]) < 0 by {
                lemma_order_facts(vs[a], vs[b], vs[b], true);
                assert(vs[a] != vs[b]);
            }
        }
    }
    s
}

} // verus!
