//! Taking the children out of a box, one after the other.
use crate::model::{all_trees, children, flatten, is_forest, is_tree, items, lemma_forest_items,
    lemma_tree_split, Row};
use crate::value::BoxValue;
use crate::variant::BoxVariant;
use crate::{AnyBox, BoxType};
use vstd::prelude::*;

verus! {

/// The children of a box that are still to be taken, stored as the rows after the first row.
#[derive(Debug)]
pub struct IntoIter<T: BoxType> {
    raw: BoxValue<T>,
}

/// The last item of a sequence of boxes starts right after the rows of the other items.
proof fn lemma_items_last(s: Seq<Row>)
    requires
        is_forest(s),
        items(s).len() > 0,
    ensures
        ({
            let l = items(s).last();
            let at = s.len() - l.len();
            &&& 0 <= at < s.len()
            &&& l == s.subrange(at, s.len() as int)
            &&& is_forest(s.subrange(0, at))
            &&& items(s.subrange(0, at)) == items(s).drop_last()
        }),
    decreases s.len(),
{
    let k = s[0].len as int;
    let rest = s.skip(k);
    assert(items(s) == seq![s.take(k)] + items(rest));
    if items(rest).len() == 0 {
        assert(rest.len() == 0) by {
            if rest.len() > 0 {
                assert(is_forest(rest));
                assert(1 <= rest[0].len <= rest.len());
                assert(items(rest).len() > 0);
            }
        }
        assert(items(s).last() == s.take(k));
        assert(s.take(k) =~= s.subrange(0, s.len() as int));
        assert(s.subrange(0, 0).len() == 0);
        assert(items(s.subrange(0, 0)) =~= items(s).drop_last());
    } else {
        lemma_items_last(rest);
        let l = items(rest).last();
        let at_r = rest.len() - l.len();
        assert(items(s).last() == l);
        assert(l =~= s.subrange(k + at_r, s.len() as int));
        let pre = s.subrange(0, k + at_r);
        assert(pre[0] == s[0]);
        assert(pre.take(k) =~= s.take(k));
        assert(pre.skip(k) =~= rest.subrange(0, at_r));
        assert(items(pre) == seq![pre.take(k)] + items(pre.skip(k)));
        assert(items(pre) =~= items(s).drop_last());
    }
}

/// The children that calls of `next` hand out one after the other, from the children
/// still to be taken, until none is left.
pub open spec fn drained_front(r: Seq<Seq<Row>>) -> Seq<Seq<Row>>
    decreases r.len(),
{
    if r.len() == 0 {
        Seq::empty()
    } else {
        seq![r[0]] + drained_front(r.drop_first())
    }
}

/// The children that calls of `next_back` hand out one after the other, from the children
/// still to be taken, until none is left.
pub open spec fn drained_back(r: Seq<Seq<Row>>) -> Seq<Seq<Row>>
    decreases r.len(),
{
    if r.len() == 0 {
        Seq::empty()
    } else {
        seq![r.last()] + drained_back(r.drop_last())
    }
}

impl<T: BoxType> IntoIter<T> {
    /// The rows still to be taken form boxes one after the other.
    pub closed spec fn wf(&self) -> bool {
        self.raw.inv() && is_forest(self.raw@)
    }

    /// The children still to be taken.
    pub closed spec fn remaining(&self) -> Seq<Seq<Row>> {
        items(self.raw@)
    }

    pub fn new(value: BoxValue<T>) -> (r: Self)
        requires
            value.wf(),
        ensures
            r.wf(),
            r.remaining() == children(value@),
    {
        let n = value.kinds.len();
        let rest = value.slice(1, n);
        proof {
            assert(rest@ =~= value@.drop_first());
        }
        IntoIter { raw: rest.cast() }
    }

    /// Takes the next child from the front.
    pub fn next(&mut self) -> (r: Option<BoxValue<AnyBox>>)
        requires
            old(self).wf(),
        ensures
            final(self).wf(),
            old(self).remaining().len() == 0 ==> r is None && final(self).remaining() == old(self).remaining(),
            old(self).remaining().len() > 0 ==> (r matches Some(c) && c.wf() && c@ == old(self).remaining()[0]
                && final(self).remaining() == old(self).remaining().drop_first()),
    {
        let n = self.raw.kinds.len();
        if n == 0 {
            proof {
                assert(items(self.raw@) =~= Seq::<Seq<Row>>::empty());
            }
            return None;
        }
        let len = self.raw.lengths[0] as usize;
        let child = self.raw.slice(0, len);
        let rest = self.raw.slice(len, n);
        proof {
            let s = self.raw@;
            assert(items(s) == seq![s.take(len as int)] + items(s.skip(len as int)));
            assert(child@ =~= s.take(len as int));
            assert(rest@ =~= s.skip(len as int));
        }
        self.raw = rest.cast();
        Some(child)
    }

    /// Takes the next child from the back.
    pub fn next_back(&mut self) -> (r: Option<BoxValue<AnyBox>>)
        requires
            old(self).wf(),
        ensures
            final(self).wf(),
            old(self).remaining().len() == 0 ==> r is None && final(self).remaining() == old(self).remaining(),
            old(self).remaining().len() > 0 ==> (r matches Some(c) && c.wf() && c@ == old(self).remaining().last()
                && final(self).remaining() == old(self).remaining().drop_last()),
    {
        let n = self.raw.kinds.len();
        if n == 0 {
            proof {
                assert(items(self.raw@) =~= Seq::<Seq<Row>>::empty());
            }
            return None;
        }
        let ghost s = self.raw@;
        proof {
            assert(items(s).len() > 0);
            lemma_items_last(s);
            assert(s.subrange(0, n as int) =~= s);
        }
        // Walk the children from the front until the last one.
        let mut curr: usize = 0;
        let mut at: usize = 0;
        while curr < n
            invariant
                self.raw.inv(),
                s == self.raw@,
                n == s.len(),
                curr <= n,
                at <= curr,
                is_forest(s.subrange(curr as int, n as int)),
                curr == n ==> at == n - items(s).last().len(),
                curr < n ==> items(s.subrange(curr as int, n as int)).last() == items(s).last(),
                curr < n ==> items(s.subrange(curr as int, n as int)).len() > 0,
            decreases n - curr,
        {
            let ghost t = s.subrange(curr as int, n as int);
            let len = self.raw.lengths[curr] as usize;
            proof {
                assert(t[0] == s[curr as int]);
                assert(items(t) == seq![t.take(len as int)] + items(t.skip(len as int)));
                assert(t.skip(len as int) =~= s.subrange(curr + len, n as int));
                if curr + len == n {
                    assert(t.skip(len as int).len() == 0);
                    assert(items(t.skip(len as int)) =~= Seq::<Seq<Row>>::empty());
                    assert(items(t).last() == t.take(len as int));
                } else {
                    let u = t.skip(len as int);
                    assert(is_forest(u));
                    assert(u.len() > 0);
                    assert(1 <= u[0].len <= u.len());
                    assert(items(u).len() > 0);
                    assert(items(t).last() == items(u).last());
                }
            }
            at = curr;
            curr = curr + len;
        }
        let child = self.raw.slice(at, n);
        let rest = self.raw.slice(0, at);
        proof {
            let l = items(s).last();
            assert(child@ =~= l);
            assert(is_tree(l)) by {
                lemma_forest_items(s);
                assert(items(s)[items(s).len() - 1] == l);
            }
        }
        self.raw = rest.cast();
        Some(child)
    }
}

impl<T: BoxType> BoxValue<T> {
    pub fn into_iter(self) -> (r: IntoIter<T>)
        requires
            self.wf(),
        ensures
            r.wf(),
            r.remaining() == children(self@),
    {
        IntoIter::new(self)
    }

    /// Gets the first child by copying its elements into a new box
    pub fn first_child(&self) -> (r: BoxValue<AnyBox>)
        requires
            self.wf(),
            children(self@).len() > 0,
        ensures
            r.wf(),
            r@ == children(self@)[0],
    {
        let child_len = self.lengths[1] as usize;
        proof {
            let d = self@.drop_first();
            assert(d[0] == self@[1]);
            assert(items(d)[0] == d.take(d[0].len as int));
            assert(d.take(d[0].len as int) =~= self@.subrange(1, 1 + child_len));
            lemma_tree_split(self@);
            assert(is_tree(children(self@)[0]));
        }
        self.slice(1, 1 + child_len)
    }

    /// Returns the last child by copying its elements into a new box; a box without
    /// children gives a box without rows.
    pub fn last_child(&self) -> (r: BoxValue<AnyBox>)
        requires
            self.wf(),
        ensures
            r.inv(),
            children(self@).len() > 0 ==> r.wf() && r@ == children(self@).last(),
            children(self@).len() == 0 ==> r@.len() == 0,
    {
        let n = self.kinds.len();
        if n == 1 {
            proof {
                assert(self@.drop_first().len() == 0);
                assert(items(self@.drop_first()) =~= Seq::<Seq<Row>>::empty());
            }
            return BoxValue::<AnyBox>::new();
        }
        let mut it = IntoIter::new(self.duplicate());
        proof {
            assert(children(self@).len() > 0) by {
                let d = self@.drop_first();
                assert(d.len() > 0);
            }
        }
        match it.next_back() {
            Some(c) => c,
            None => BoxValue::<AnyBox>::new(),
        }
    }
}

/// The children of a variant, each as the variant of its own first row.
#[derive(Debug)]
pub struct BoxVariantIter {
    inner: IntoIter<AnyBox>,
}

impl BoxVariantIter {
    pub closed spec fn wf(&self) -> bool {
        self.inner.wf()
    }

    pub closed spec fn remaining(&self) -> Seq<Seq<Row>> {
        self.inner.remaining()
    }

    pub fn next(&mut self) -> (r: Option<BoxVariant>)
        requires
            old(self).wf(),
        ensures
            final(self).wf(),
            old(self).remaining().len() == 0 ==> r is None,
            old(self).remaining().len() > 0 ==> (r matches Some(c) && c.wf() && c@ == old(self).remaining()[0]
                && c.tag() == c@[0].kind && final(self).remaining() == old(self).remaining().drop_first()),
    {
        match self.inner.next() {
            Some(c) => Some(BoxVariant::repack_raw(c)),
            None => None,
        }
    }
}

impl BoxVariant {
    pub fn into_iter(self) -> (r: BoxVariantIter)
        requires
            self.wf(),
        ensures
            r.wf(),
            r.remaining() == children(self@),
    {
        BoxVariantIter { inner: IntoIter::new(self.into_any_raw()) }
    }
}

} // verus!
