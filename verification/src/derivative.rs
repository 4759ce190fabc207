//! Derivatives of polynumbers and multinumbers.
//!
//! A polynumber's children of kind `Num` are its terms `c·αᵉ`: the child's
//! multiplicity is the coefficient `c`, the multiplicity of its second row the
//! exponent `e`.  The derivative of a term is `(c·e)·αᵉ⁻¹`; a term whose
//! exponent falls to zero becomes a constant.  Children of other kinds are
//! dropped.  A multinumber's terms are its children of kind `Polynum`, whose
//! third row carries the index of the variable.
use crate::canon::{all_inv, child_boxes, views};
use crate::model::{all_trees, children, flatten, is_tree, lemma_flatten_push, lemma_tree_split, Row};
use crate::natural::Natural;
use crate::value::{extended, row_with_mult, BoxValue};
use crate::{AnyBox, BoxKind, Color, MultinumBox, PolynumBox};
use vstd::prelude::*;

verus! {

/// The rows obtained by extending `a` with each box of `ts` in turn.
pub open spec fn extend_all(a: Seq<Row>, ts: Seq<Seq<Row>>) -> Seq<Row>
    decreases ts.len(),
{
    if ts.len() == 0 {
        a
    } else {
        extended(extend_all(a, ts.drop_last()), ts.last())
    }
}

/// The largest length recorded in the first row of the boxes, or zero.
pub open spec fn max_root_len(ts: Seq<Seq<Row>>) -> nat
    decreases ts.len(),
{
    if ts.len() == 0 {
        0
    } else {
        let m = max_root_len(ts.drop_last());
        if ts.last()[0].len > m {
            ts.last()[0].len
        } else {
            m
        }
    }
}

/// The sum of the lengths recorded in the first row of the boxes.
pub open spec fn root_len_sum(ts: Seq<Seq<Row>>) -> nat
    decreases ts.len(),
{
    if ts.len() == 0 {
        0
    } else {
        root_len_sum(ts.drop_last()) + ts.last()[0].len
    }
}

/// The derivative of one term, whose exponent sits in row `1` and whose rows from `tail`
/// on are kept when the exponent falls to zero.
pub open spec fn term_derivative(t: Seq<Row>, tail: int) -> Seq<Row> {
    let c = t[0].mult;
    let e = t[1].mult;
    if e <= 1 {
        seq![Row { kind: BoxKind::Empty, color: t[0].color, mult: c * e, len: 1 }] + t.skip(tail)
    } else {
        t.update(0, row_with_mult(t[0], c * e)).update(1, row_with_mult(t[1], (e - 1) as nat))
    }
}

/// The derivatives of the terms of a polynumber.
pub open spec fn poly_terms(cs: Seq<Seq<Row>>) -> Seq<Seq<Row>>
    decreases cs.len(),
{
    if cs.len() == 0 {
        Seq::empty()
    } else if cs.last()[0].kind == BoxKind::Num {
        poly_terms(cs.drop_last()).push(term_derivative(cs.last(), 2))
    } else {
        poly_terms(cs.drop_last())
    }
}

/// The derivatives of the terms of a multinumber in the variable with index `n`.
pub open spec fn multi_terms(cs: Seq<Seq<Row>>, n: nat) -> Seq<Seq<Row>>
    decreases cs.len(),
{
    if cs.len() == 0 {
        Seq::empty()
    } else if cs.last()[0].kind == BoxKind::Polynum && cs.last()[2].mult == n {
        multi_terms(cs.drop_last(), n).push(term_derivative(cs.last(), 3))
    } else {
        multi_terms(cs.drop_last(), n)
    }
}

/// The derivative of a polynumber.
pub open spec fn poly_derivative(a: Seq<Row>) -> Seq<Row> {
    let ts = poly_terms(children(a));
    let kind = if max_root_len(ts) == 1 {
        BoxKind::Num
    } else {
        a[0].kind
    };
    extend_all(seq![Row { kind, color: a[0].color, mult: a[0].mult, len: 1 }], ts)
}

/// The derivative of a multinumber in the variable with index `n`.
pub open spec fn multi_derivative(a: Seq<Row>, n: nat) -> Seq<Row> {
    let ts = multi_terms(children(a), n);
    let kind = if max_root_len(ts) == 1 {
        BoxKind::Num
    } else if max_root_len(ts) == 0 {
        BoxKind::Empty
    } else {
        a[0].kind
    };
    extend_all(seq![Row { kind, color: a[0].color, mult: a[0].mult, len: 1 }], ts)
}

/// Every term of a polynumber has a row for its exponent.
pub open spec fn poly_terms_readable(cs: Seq<Seq<Row>>) -> bool {
    forall|i: int| 0 <= i < cs.len() && (#[trigger] cs[i])[0].kind == BoxKind::Num ==> cs[i].len() >= 2
}

/// Every term of a multinumber has rows for its exponent and its variable.
pub open spec fn multi_terms_readable(cs: Seq<Seq<Row>>) -> bool {
    forall|i: int| 0 <= i < cs.len() && (#[trigger] cs[i])[0].kind == BoxKind::Polynum ==> cs[i].len() >= 3
}

proof fn lemma_extend_all_head(a: Seq<Row>, ts: Seq<Seq<Row>>)
    requires
        a.len() > 0,
        forall|k: int| 0 <= k < ts.len() ==> (#[trigger] ts[k]).len() > 0,
    ensures
        extend_all(a, ts).len() > 0,
        extend_all(a, ts)[0].len == a[0].len + root_len_sum(ts),
        extend_all(a, ts)[0].kind == a[0].kind,
        extend_all(a, ts)[0].color == a[0].color,
        extend_all(a, ts)[0].mult == a[0].mult,
    decreases ts.len(),
{
    if ts.len() > 0 {
        let d = ts.drop_last();
        assert forall|k: int| 0 <= k < d.len() implies (#[trigger] d[k]).len() > 0 by {
            assert(d[k] == ts[k]);
        }
        lemma_extend_all_head(a, d);
        assert(ts[ts.len() - 1] == ts.last());
    }
}

/// Takes the derivative of one term in place: the exponent sits in row `1`, and the rows
/// from `tail` on are kept when it falls to zero.
fn derive_term(child: &mut BoxValue<AnyBox>, tail: usize)
    requires
        old(child).inv(),
        tail == 2 || tail == 3,
        old(child)@.len() >= tail,
    ensures
        final(child).inv(),
        final(child)@ == term_derivative(old(child)@, tail as int),
{
    let ghost t = child@;
    let coeff = child.get_multiplicity(0);
    let exp = child.get_multiplicity(1);
    child.set_multiplicity(0, coeff.mul(&exp));
    let new_exp = exp.saturating_sub(&Natural::one());
    if new_exp.is_zero() {
        if tail == 3 {
            child.remove(2);
        }
        child.remove(1);
        child.set_kind(0, BoxKind::Empty);
        child.set_length(0, 1);
        proof {
            assert(child@ =~= term_derivative(t, tail as int));
        }
    } else {
        child.set_multiplicity(1, new_exp);
        proof {
            assert(child@ =~= term_derivative(t, tail as int));
        }
    }
}

impl BoxValue<PolynumBox> {
    /// Derivative of a polynumber
    pub fn derivative(self) -> (r: Self)
        requires
            self.wf(),
            poly_terms_readable(children(self@)),
        ensures
            r.inv(),
            r@ == poly_derivative(self@),
    {
        proof {
            lemma_tree_split(self@);
        }
        let kind = self.get_kind(0);
        let color = self.get_color(0);
        let mult = self.get_multiplicity(0);
        let ghost n = self@.len();
        let cs = child_boxes(&self);
        let ghost vc = views(cs@);
        let mut result = BoxValue::<PolynumBox>::new();
        result.push_row(kind, color, mult, 1);
        let ghost head = result@;
        let mut max_depth: u32 = 0;
        let mut i: usize = 0;
        proof {
            assert(vc.take(0) =~= Seq::<Seq<Row>>::empty());
            assert(head[0].len == 1);
        }
        while i < cs.len()
            invariant
                vc == views(cs@),
                vc == children(self@),
                all_inv(cs@),
                all_trees(vc),
                poly_terms_readable(vc),
                n == self@.len(),
                n <= u32::MAX,
                flatten(vc).len() == n - 1,
                i <= cs@.len(),
                head == seq![Row { kind, color, mult: self@[0].mult, len: 1 }],
                result.inv(),
                result@ == extend_all(head, poly_terms(vc.take(i as int))),
                result@.len() > 0,
                result@[0].len == 1 + root_len_sum(poly_terms(vc.take(i as int))),
                root_len_sum(poly_terms(vc.take(i as int))) <= flatten(vc.take(i as int)).len(),
                max_depth == max_root_len(poly_terms(vc.take(i as int))),
                forall|k: int| 0 <= k < poly_terms(vc.take(i as int)).len() ==> (#[trigger] poly_terms(vc.take(i as int))[k]).len() > 0,
            decreases cs@.len() - i,
        {
            let ghost p = vc.take(i as int);
            let ghost t = vc[i as int];
            proof {
                assert(cs@[i as int].inv());
                assert(is_tree(t));
                assert(views(cs@)[i as int] == cs@[i as int]@);
                assert(vc.take(i + 1) =~= p.push(t));
                assert(p.push(t).drop_last() =~= p);
                lemma_flatten_push(p, t);
                crate::mul::lemma_child_lens(vc);
                assert(vc =~= vc.take(i + 1) + vc.skip(i + 1));
                crate::model::lemma_flatten_append(vc.take(i + 1), vc.skip(i + 1));
            }
            let child_kind = cs[i].get_kind(0);
            if child_kind == BoxKind::Num {
                let mut child = cs[i].duplicate();
                derive_term(&mut child, 2);
                let child_len = child.get_length(0);
                if child_len > max_depth {
                    max_depth = child_len;
                }
                let ghost dv = child@;
                proof {
                    assert(poly_terms(p.push(t)) == poly_terms(p).push(dv));
                    assert(dv[0].len <= t.len());
                    assert(dv.len() > 0);
                }
                result.extend(child);
                proof {
                    let ts = poly_terms(p.push(t));
                    assert(ts.drop_last() =~= poly_terms(p));
                    assert(ts.last() == dv);
                    assert forall|k: int| 0 <= k < ts.len() implies (#[trigger] ts[k]).len() > 0 by {
                        if k < ts.len() - 1 {
                            assert(ts[k] == poly_terms(p)[k]);
                        }
                    }
                }
            } else {
                proof {
                    assert(poly_terms(p.push(t)) == poly_terms(p));
                }
            }
            i = i + 1;
        }
        proof {
            assert(vc.take(cs@.len() as int) =~= vc);
        }
        if max_depth == 1 {
            result.set_kind(0, BoxKind::Num);
        }
        proof {
            let ts = poly_terms(vc);
            lemma_extend_all_head(head, ts);
            let k2 = if max_root_len(ts) == 1 { BoxKind::Num } else { kind };
            let h2 = seq![Row { kind: k2, color, mult: self@[0].mult, len: 1 }];
            assert(head.drop_first() =~= h2.drop_first());
            lemma_extend_all_rekind(head, h2, ts);
            assert(result@ =~= extend_all(h2, ts));
        }
        result
    }
}

impl BoxValue<MultinumBox> {
    /// Derivative of a multinumber
    pub fn derivative(self, index: Natural) -> (r: Self)
        requires
            self.wf(),
            multi_terms_readable(children(self@)),
        ensures
            r.inv(),
            r@ == multi_derivative(self@, index@),
    {
        proof {
            lemma_tree_split(self@);
        }
        let kind = self.get_kind(0);
        let color = self.get_color(0);
        let mult = self.get_multiplicity(0);
        let ghost n = self@.len();
        let ghost idx = index@;
        let cs = child_boxes(&self);
        let ghost vc = views(cs@);
        let mut result = BoxValue::<MultinumBox>::new();
        result.push_row(kind, color, mult, 1);
        let ghost head = result@;
        let mut max_depth: u32 = 0;
        let mut i: usize = 0;
        proof {
            assert(vc.take(0) =~= Seq::<Seq<Row>>::empty());
            assert(head[0].len == 1);
        }
        while i < cs.len()
            invariant
                vc == views(cs@),
                vc == children(self@),
                all_inv(cs@),
                all_trees(vc),
                multi_terms_readable(vc),
                idx == index@,
                n == self@.len(),
                n <= u32::MAX,
                flatten(vc).len() == n - 1,
                i <= cs@.len(),
                head == seq![Row { kind, color, mult: self@[0].mult, len: 1 }],
                result.inv(),
                result@ == extend_all(head, multi_terms(vc.take(i as int), idx)),
                result@.len() > 0,
                result@[0].len == 1 + root_len_sum(multi_terms(vc.take(i as int), idx)),
                root_len_sum(multi_terms(vc.take(i as int), idx)) <= flatten(vc.take(i as int)).len(),
                max_depth == max_root_len(multi_terms(vc.take(i as int), idx)),
                forall|k: int| 0 <= k < multi_terms(vc.take(i as int), idx).len() ==> (#[trigger] multi_terms(vc.take(i as int), idx)[k]).len() > 0,
            decreases cs@.len() - i,
        {
            let ghost p = vc.take(i as int);
            let ghost t = vc[i as int];
            proof {
                assert(cs@[i as int].inv());
                assert(is_tree(t));
                assert(views(cs@)[i as int] == cs@[i as int]@);
                assert(vc.take(i + 1) =~= p.push(t));
                assert(p.push(t).drop_last() =~= p);
                lemma_flatten_push(p, t);
                crate::mul::lemma_child_lens(vc);
                assert(vc =~= vc.take(i + 1) + vc.skip(i + 1));
                crate::model::lemma_flatten_append(vc.take(i + 1), vc.skip(i + 1));
            }
            let child_kind = cs[i].get_kind(0);
            let mut matches = false;
            if child_kind == BoxKind::Polynum {
                let var_index = cs[i].get_multiplicity(2);
                matches = var_index.eq(&index);
            }
            if matches {
                let mut child = cs[i].duplicate();
                derive_term(&mut child, 3);
                let child_len = child.get_length(0);
                if child_len > max_depth {
                    max_depth = child_len;
                }
                let ghost dv = child@;
                proof {
                    assert(multi_terms(p.push(t), idx) == multi_terms(p, idx).push(dv));
                    assert(dv[0].len <= t.len());
                    assert(dv.len() > 0);
                }
                result.extend(child);
                proof {
                    let ts = multi_terms(p.push(t), idx);
                    assert(ts.drop_last() =~= multi_terms(p, idx));
                    assert(ts.last() == dv);
                    assert forall|k: int| 0 <= k < ts.len() implies (#[trigger] ts[k]).len() > 0 by {
                        if k < ts.len() - 1 {
                            assert(ts[k] == multi_terms(p, idx)[k]);
                        }
                    }
                }
            } else {
                proof {
                    assert(multi_terms(p.push(t), idx) == multi_terms(p, idx));
                }
            }
            i = i + 1;
        }
        proof {
            assert(vc.take(cs@.len() as int) =~= vc);
        }
        if max_depth == 1 {
            result.set_kind(0, BoxKind::Num);
        } else if max_depth == 0 {
            result.set_kind(0, BoxKind::Empty);
        }
        proof {
            let ts = multi_terms(vc, idx);
            lemma_extend_all_head(head, ts);
            let k2 = if max_root_len(ts) == 1 {
                BoxKind::Num
            } else if max_root_len(ts) == 0 {
                BoxKind::Empty
            } else {
                kind
            };
            let h2 = seq![Row { kind: k2, color, mult: self@[0].mult, len: 1 }];
            assert(head.drop_first() =~= h2.drop_first());
            lemma_extend_all_rekind(head, h2, ts);
            assert(result@ =~= extend_all(h2, ts));
        }
        result
    }
}

/// Extending rows whose first rows differ only in kind gives rows that differ only in the
/// kind of the first row.
proof fn lemma_extend_all_rekind(a: Seq<Row>, b: Seq<Row>, ts: Seq<Seq<Row>>)
    requires
        a.len() > 0,
        a.len() == b.len(),
        a.drop_first() == b.drop_first(),
        a[0].color == b[0].color,
        a[0].mult == b[0].mult,
        a[0].len == b[0].len,
        forall|k: int| 0 <= k < ts.len() ==> (#[trigger] ts[k]).len() > 0,
    ensures
        extend_all(b, ts) == extend_all(a, ts).update(0, crate::value::row_with_kind(extend_all(a, ts)[0], b[0].kind)),
    decreases ts.len(),
{
    if ts.len() == 0 {
        assert forall|k: int| 0 < k < a.len() implies b[k] == a[k] by {
            assert(a.drop_first()[k - 1] == a[k]);
            assert(b.drop_first()[k - 1] == b[k]);
            assert(a.drop_first()[k - 1] == b.drop_first()[k - 1]);
        }
        assert(b =~= a.update(0, crate::value::row_with_kind(a[0], b[0].kind)));
    } else {
        let d = ts.drop_last();
        assert forall|k: int| 0 <= k < d.len() implies (#[trigger] d[k]).len() > 0 by {
            assert(d[k] == ts[k]);
        }
        lemma_extend_all_rekind(a, b, d);
        lemma_extend_all_head(a, d);
        assert(ts[ts.len() - 1] == ts.last());
        let ea = extend_all(a, d);
        let eb = extend_all(b, d);
        assert(extend_all(b, ts) =~= extend_all(a, ts).update(0, crate::value::row_with_kind(extend_all(a, ts)[0], b[0].kind)));
    }
}

} // verus!
