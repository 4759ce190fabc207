//! Ordering the immediate children of a box, and taking children out of a box.
use crate::canon::{all_inv, assemble, child_boxes, content, eq_content, insert_in_order, views};
use crate::model::{all_trees, children, flatten, is_tree, lemma_tree_split, mk_box, row_with_len, Row};
use crate::order::{key_order, sorted_by};
use crate::value::{head_row, BoxValue};
use crate::{AnyBox, BoxType};
use vstd::prelude::*;

verus! {

broadcast use vstd::seq_lib::group_seq_properties, vstd::multiset::group_multiset_properties;

/// Holds of the boxes that compare equal to `y`.
pub open spec fn ties(y: Seq<Row>) -> spec_fn(Seq<Row>) -> bool {
    |c: Seq<Row>| key_order(c, y) == 0
}

/// The boxes of `cs` that compare equal to `y`, in their order in `cs`.
pub open spec fn ties_with(cs: Seq<Seq<Row>>, y: Seq<Row>) -> Seq<Seq<Row>> {
    cs.filter(ties(y))
}

proof fn lemma_ties_none(s: Seq<Seq<Row>>, y: Seq<Row>)
    requires
        forall|k: int| 0 <= k < s.len() ==> key_order(#[trigger] s[k], y) != 0,
    ensures
        ties_with(s, y) == Seq::<Seq<Row>>::empty(),
{
    let p = ties(y);
    if s.filter(p).len() > 0 {
        s.lemma_filter_pred(p, 0);
        s.lemma_filter_contains_rev(p, s.filter(p)[0]);
        let k = choose|k: int| 0 <= k < s.len() && s[k] == s.filter(p)[0];
        assert(key_order(s[k], y) != 0);
    }
    assert(s.filter(p) =~= Seq::<Seq<Row>>::empty());
}

proof fn lemma_ties_single(x: Seq<Row>, y: Seq<Row>)
    ensures
        ties_with(seq![x], y) == (if key_order(x, y) == 0 {
            seq![x]
        } else {
            Seq::<Seq<Row>>::empty()
        }),
{
    reveal_with_fuel(Seq::<Seq<Row>>::filter, 2);
    assert(seq![x].drop_last() =~= Seq::<Seq<Row>>::empty());
    assert(Seq::<Seq<Row>>::empty().push(x) =~= seq![x]);
}

proof fn lemma_ties_push(s: Seq<Seq<Row>>, x: Seq<Row>, y: Seq<Row>)
    ensures
        ties_with(s.push(x), y) == (if key_order(x, y) == 0 {
            ties_with(s, y).push(x)
        } else {
            ties_with(s, y)
        }),
{
    assert(s.push(x) =~= s + seq![x]);
    Seq::filter_distributes_over_add(s, seq![x], ties(y));
    lemma_ties_single(x, y);
    assert(ties_with(s, y) + seq![x] =~= ties_with(s, y).push(x));
    assert(ties_with(s, y) + Seq::<Seq<Row>>::empty() =~= ties_with(s, y));
}

/// Inserting `x` before all boxes above it leaves it last among the boxes equal to it.
proof fn lemma_ties_insert(s: Seq<Seq<Row>>, pos: int, x: Seq<Row>, y: Seq<Row>)
    requires
        0 <= pos <= s.len(),
        forall|k: int| pos <= k < s.len() ==> key_order(#[trigger] s[k], x) > 0,
    ensures
        ties_with(s.insert(pos, x), y) == (if key_order(x, y) == 0 {
            ties_with(s, y).push(x)
        } else {
            ties_with(s, y)
        }),
{
    let p = ties(y);
    let a = s.take(pos);
    let b = s.skip(pos);
    assert(s =~= a + b);
    assert(s.insert(pos, x) =~= a + (seq![x] + b));
    Seq::filter_distributes_over_add(a, b, p);
    Seq::filter_distributes_over_add(seq![x], b, p);
    Seq::filter_distributes_over_add(a, seq![x] + b, p);
    lemma_ties_single(x, y);
    if key_order(x, y) == 0 {
        assert forall|k: int| 0 <= k < b.len() implies key_order(#[trigger] b[k], y) != 0 by {
            assert(key_order(s[pos + k], x) > 0);
            crate::order::lemma_order_facts(b[k], y, x, false);
            crate::order::lemma_order_facts(x, y, y, false);
        }
        lemma_ties_none(b, y);
        assert(a.filter(p) + (seq![x] + Seq::<Seq<Row>>::empty()) =~= (a.filter(p) + Seq::<
            Seq<Row>,
        >::empty()).push(x));
        assert(a.filter(p) + Seq::<Seq<Row>>::empty() =~= a.filter(p));
    } else {
        assert(Seq::<Seq<Row>>::empty() + b.filter(p) =~= b.filter(p));
    }
}

proof fn lemma_insert_multiset(s: Seq<Seq<Row>>, i: int, x: Seq<Row>)
    requires
        0 <= i <= s.len(),
    ensures
        s.insert(i, x).to_multiset() == s.to_multiset().insert(x),
{
    let t = s.insert(i, x);
    assert(t.remove(i) =~= s);
    t.to_multiset_ensures();
    assert(t.to_multiset().remove(x) == s.to_multiset());
    assert(t[i] == x);
    assert(t.contains(x));
    assert(t.to_multiset().count(x) > 0);
    assert(t.to_multiset() =~= s.to_multiset().insert(x));
}

impl<T: BoxType> BoxValue<T> {
    /// Compares the content of the two boxes ignoring their outer multiplicities and colors
    pub fn is_eq_content(&self, other: &Self) -> (r: bool)
        requires
            self.inv(),
            other.inv(),
            self@.len() > 0,
            other@.len() > 0,
        ensures
            r == (content(self@) == content(other@)),
    {
        eq_content(self, other)
    }

    /// Sorts immediate child boxes by their multiplicities, then their colors, keeping the
    /// order of children that compare equal.
    /// A box without rows is left as it is.
    pub fn sort_immediate_children(&mut self)
        requires
            old(self).inv(),
            old(self)@.len() == 0 || old(self).wf(),
        ensures
            old(self)@.len() == 0 ==> final(self)@ == old(self)@ && final(self).inv(),
            old(self)@.len() > 0 ==> final(self).wf(),
            final(self)@.len() > 0 ==> final(self)@[0] == old(self)@[0],
            final(self)@.len() == old(self)@.len(),
            children(final(self)@).to_multiset() == children(old(self)@).to_multiset(),
            old(self)@.len() > 0 ==> sorted_by(children(final(self)@), false),
            forall|y: Seq<Row>|
                #[trigger] ties_with(children(final(self)@), y) == ties_with(children(old(self)@), y),
    {
        let n = self.kinds.len();
        if n == 0 {
            return;
        }
        if n <= 1 {
            proof {
                lemma_tree_split(self@);
                assert(children(self@).len() == 0) by {
                    assert(flatten(children(self@)).len() == 0);
                    if children(self@).len() > 0 {
                        crate::mul::lemma_count_le_len(children(self@));
                    }
                }
            }
            return;
        }
        proof {
            lemma_tree_split(self@);
        }
        let cs = child_boxes(self);
        let ghost vc = views(cs@);
        let mut sorted: Vec<BoxValue<AnyBox>> = Vec::new();
        let mut i: usize = 0;
        proof {
            assert(views(sorted@) =~= Seq::<Seq<Row>>::empty());
            assert(vc.take(0) =~= Seq::<Seq<Row>>::empty());
        }
        while i < cs.len()
            invariant
                i <= cs@.len(),
                vc == views(cs@),
                all_inv(cs@),
                all_inv(sorted@),
                sorted_by(views(sorted@), false),
                views(sorted@).to_multiset() == vc.take(i as int).to_multiset(),
                forall|y: Seq<Row>|
                    #[trigger] ties_with(views(sorted@), y) == ties_with(vc.take(i as int), y),
            decreases cs.len() - i,
        {
            proof {
                assert(cs@[i as int].inv());
            }
            let x = cs[i].duplicate();
            let ghost old_s = views(sorted@);
            let pos = insert_in_order(&mut sorted, x, false);
            proof {
                lemma_insert_multiset(old_s, pos as int, vc[i as int]);
                assert(vc.take(i + 1) =~= vc.take(i as int).push(vc[i as int]));
                assert forall|y: Seq<Row>| #[trigger]
                    ties_with(views(sorted@), y) == ties_with(vc.take(i + 1), y) by {
                    lemma_ties_insert(old_s, pos as int, vc[i as int], y);
                    lemma_ties_push(vc.take(i as int), vc[i as int], y);
                }
            }
            i = i + 1;
        }
        let ghost vs = views(sorted@);
        proof {
            assert(vc.take(i as int) =~= vc);
            assert forall|k: int| 0 <= k < vs.len() implies is_tree(#[trigger] vs[k]) by {
                assert(vs.to_multiset().count(vs[k]) > 0);
                assert(vc.contains(vs[k]));
            }
            assert(flatten(vs).len() == flatten(vc).len()) by {
                lemma_flatten_len_multiset(vs, vc);
            }
        }
        let kind = self.kinds[0];
        let color = self.colors[0];
        let mult = self.multiplicities[0].copy();
        let ghost old_self = self@;
        let r = assemble::<T>(kind, color, mult, sorted);
        proof {
            assert(r@[0] == row_with_len(head_row(kind, color, mult@), 1 + flatten(vs).len()));
            assert(r@[0] == old_self[0]);
        }
        *self = r;
    }
}

/// The total number of rows does not depend on the order of the boxes.
proof fn lemma_flatten_len_multiset(a: Seq<Seq<Row>>, b: Seq<Seq<Row>>)
    requires
        a.to_multiset() == b.to_multiset(),
    ensures
        flatten(a).len() == flatten(b).len(),
    decreases a.len(),
{
    a.to_multiset_ensures();
    b.to_multiset_ensures();
    if a.len() == 0 {
        assert(b.len() == 0);
        assert(b =~= Seq::<Seq<Row>>::empty());
    } else {
        let x = a.last();
        assert(a.contains(x)) by {
            assert(a[a.len() - 1] == x);
        }
        assert(a.to_multiset().count(x) > 0);
        assert(b.to_multiset().count(x) > 0);
        assert(b.contains(x));
        let j = choose|j: int| 0 <= j < b.len() && b[j] == x;
        let a2 = a.drop_last();
        let b2 = b.remove(j);
        assert(a =~= a2.push(x));
        assert(a2.push(x).to_multiset() == a2.to_multiset().insert(x));
        assert(b2.to_multiset() == b.to_multiset().remove(x));
        assert(a2.to_multiset() =~= b2.to_multiset());
        lemma_flatten_len_multiset(a2, b2);
        crate::model::lemma_flatten_push(a2, x);
        assert(b =~= b2.insert(j, x));
        crate::canon::lemma_flatten_insert_len(b2, j, x);
    }
}

} // verus!
