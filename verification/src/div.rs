//! Long division of boxes.
//!
//! The dividend is consumed from its first child on.  A child whose
//! multiplicity is below that of the divisor's first child cannot be divided
//! and is dropped from the dividend (it goes to the remainder).  Otherwise a
//! factor is formed from the child: its multiplicity is divided by that of the
//! divisor's first child, and for each child of the divisor's first child, in
//! order, the factor's children with the same content have their multiplicity
//! divided and reduced by one (exponents subtract).  If some child of the
//! divisor's first child finds no match, the dividend's child is dropped as
//! well.  Otherwise the factor is recorded in the quotient and the factor
//! times the divisor is subtracted from the dividend.  The process goes on
//! until the dividend has no children; it need not stop on every input, so
//! the operations are defined on the inputs on which it stops.
use crate::add::kind_add;
use crate::canon::{all_inv, child_boxes, content, distinct_contents, eq_content, sort_distinct, views};
use crate::model::{all_trees, children, flatten, is_tree, lemma_flatten_push, lemma_tree_split, Row};
use crate::mul::box_product;
use crate::natural::Natural;
use crate::order::strictly_sorted;
use crate::set::{collected, has_content};
use crate::sub::{box_difference, sub_fits};
use crate::value::{row_with_mult, wrapped, BoxValue};
use crate::variant::{mul_fits, BoxVariant};
use core::ops::{Div, Rem};
use crate::{color_xor, AnyBox, BoxKind, BoxType, Color, MultinumBox, NumBox, PolynumBox};
use vstd::prelude::*;

verus! {

/// The box that `collected` describes for the given items.
pub open spec fn collect_rows(items: Seq<Seq<Row>>) -> Seq<Row> {
    choose|x: Seq<Row>| collected(items, x)
}

/// The collected box is determined by its description.
pub proof fn lemma_collect_rows(items: Seq<Seq<Row>>, x: Seq<Row>)
    requires
        collected(items, x),
    ensures
        collect_rows(items) == x,
{
    let y = collect_rows(items);
    assert(collected(items, y));
    crate::canon::lemma_sorted_unique(children(x), children(y));
    lemma_tree_split(x);
    lemma_tree_split(y);
    assert(crate::model::row_with_len(x[0], 1 + flatten(children(x)).len()) == crate::model::row_with_len(
        y[0],
        1 + flatten(children(y)).len(),
    ));
}

/// The children of a factor after matching them with one child `g` of the divisor: those
/// with the content of `g` have their multiplicity divided by that of `g` and reduced by
/// one, and are dropped when this gives zero.
pub open spec fn reduce_children(fs: Seq<Seq<Row>>, g: Seq<Row>) -> Seq<Seq<Row>>
    decreases fs.len(),
{
    if fs.len() == 0 {
        Seq::empty()
    } else {
        let rest = reduce_children(fs.drop_last(), g);
        let x = fs.last();
        if content(x) == content(g) {
            let q = x[0].mult / g[0].mult;
            if q <= 1 {
                rest
            } else {
                rest.push(x.update(0, row_with_mult(x[0], (q - 1) as nat)))
            }
        } else {
            rest.push(x)
        }
    }
}

/// The first row of a collected factor restored from the factor before collecting: its
/// color and multiplicity, and its kind unless nothing is left below it.
pub open spec fn reset_head(x: Seq<Row>, f: Seq<Row>) -> Seq<Row> {
    x.update(
        0,
        Row {
            kind: if x.len() == 1 {
                BoxKind::Empty
            } else {
                f[0].kind
            },
            color: f[0].color,
            mult: f[0].mult,
            len: x[0].len,
        },
    )
}

/// The factor after matching it with one child `g` of the divisor.
pub open spec fn reduce_with(f: Seq<Row>, g: Seq<Row>) -> Seq<Row> {
    reset_head(collect_rows(reduce_children(children(f), g)), f)
}

/// The factor after matching it with each of the children `gs` in turn, or `None` when one
/// of them has no match.
pub open spec fn balance(f: Seq<Row>, gs: Seq<Seq<Row>>) -> Option<Seq<Row>>
    decreases gs.len(),
{
    if gs.len() == 0 {
        Some(f)
    } else {
        match balance(f, gs.drop_last()) {
            Some(f1) => if has_content(children(f1), content(gs.last())) {
                Some(reduce_with(f1, gs.last()))
            } else {
                None
            },
            None => None,
        }
    }
}

/// Balancing divides only by non-zero multiplicities.
pub open spec fn balance_ok(f: Seq<Row>, gs: Seq<Seq<Row>>) -> bool
    decreases gs.len(),
{
    gs.len() == 0 || (balance_ok(f, gs.drop_last()) && match balance(f, gs.drop_last()) {
        Some(f1) => has_content(children(f1), content(gs.last())) ==> gs.last()[0].mult > 0,
        None => true,
    })
}

/// The first row of the factor that the leading child `c` of the dividend gives with the
/// leading child `d` of the divisor: the quotient of their multiplicities, and the color
/// whose product with the color of `d` is that of `c`, so that signs divide as they multiply.
pub open spec fn factor_head(c: Row, d: Row) -> Row {
    Row { kind: c.kind, color: color_xor(c.color, d.color), mult: c.mult / d.mult, len: c.len }
}

/// The factor that the first child of `s` gives with the divisor `b`, if any.
pub open spec fn quotient_term(s: Seq<Row>, b: Seq<Row>) -> Option<Seq<Row>> {
    let c = children(s)[0];
    let d = children(b)[0];
    if c[0].mult < d[0].mult {
        None
    } else {
        balance(c.update(0, factor_head(c[0], d[0])), children(d))
    }
}

/// The dividend after one step.
pub open spec fn next_rest(s: Seq<Row>, b: Seq<Row>, k: BoxKind) -> Seq<Row> {
    match quotient_term(s, b) {
        Some(f) => box_difference(s, box_product(wrapped(k, f, 1), b), k),
        None => box_difference(s, wrapped(k, children(s)[0], 1), k),
    }
}

/// One step divides only by non-zero multiplicities and stays within the row limits.
pub open spec fn step_ok(s: Seq<Row>, b: Seq<Row>, k: BoxKind) -> bool {
    let c = children(s)[0];
    let d = children(b)[0];
    &&& c[0].mult >= d[0].mult ==> d[0].mult > 0 && balance_ok(
        c.update(0, factor_head(c[0], d[0])),
        children(d),
    )
    &&& match quotient_term(s, b) {
        Some(f) => mul_fits(wrapped(k, f, 1), b) && sub_fits(s, box_product(wrapped(k, f, 1), b)),
        None => sub_fits(s, wrapped(k, c, 1)),
    }
}

/// The state of a division: the dividend left, the factors recorded, the children dropped.
pub struct DivState {
    pub rest: Seq<Row>,
    pub found: Seq<Seq<Row>>,
    pub dropped: Seq<Seq<Row>>,
}

/// The dividend has no children left.
pub open spec fn finished(s: Seq<Row>) -> bool {
    s[0].len <= 1
}

/// The state after `n` steps of dividing `a` by `b`, or `None` when a step fails.
pub open spec fn div_run(a: Seq<Row>, b: Seq<Row>, k: BoxKind, n: nat) -> Option<DivState>
    decreases n,
{
    if n == 0 {
        Some(DivState { rest: a, found: Seq::empty(), dropped: Seq::empty() })
    } else {
        match div_run(a, b, k, (n - 1) as nat) {
            None => None,
            Some(st) => if finished(st.rest) {
                Some(st)
            } else if !step_ok(st.rest, b, k) {
                None
            } else {
                Some(
                    DivState {
                        rest: next_rest(st.rest, b, k),
                        found: match quotient_term(st.rest, b) {
                            Some(f) => st.found.push(f),
                            None => st.found,
                        },
                        dropped: match quotient_term(st.rest, b) {
                            Some(f) => st.dropped,
                            None => st.dropped.push(children(st.rest)[0]),
                        },
                    },
                )
            },
        }
    }
}

/// The division of `a` by `b` has finished after `n` steps.
pub open spec fn div_halts(a: Seq<Row>, b: Seq<Row>, k: BoxKind, n: nat) -> bool {
    div_run(a, b, k, n) matches Some(st) && finished(st.rest)
}

/// The division of `a` by `b` finishes.
pub open spec fn div_terminates(a: Seq<Row>, b: Seq<Row>, k: BoxKind) -> bool {
    exists|n: nat| div_halts(a, b, k, n)
}

/// The final state of the division of `a` by `b`.
pub open spec fn div_final(a: Seq<Row>, b: Seq<Row>, k: BoxKind) -> DivState {
    div_run(a, b, k, choose|n: nat| div_halts(a, b, k, n))->0
}

/// The last box of the list with the content.
pub open spec fn last_with(cs: Seq<Seq<Row>>, c: Seq<Row>) -> Seq<Row>
    decreases cs.len(),
{
    if cs.len() == 0 {
        Seq::empty()
    } else if content(cs.last()) == c {
        cs.last()
    } else {
        last_with(cs.drop_last(), c)
    }
}

/// Once finished, a division stays in its state.
pub proof fn lemma_div_run_stable(a: Seq<Row>, b: Seq<Row>, k: BoxKind, n: nat, m: nat)
    requires
        div_halts(a, b, k, n),
        n <= m,
    ensures
        div_run(a, b, k, m) == div_run(a, b, k, n),
    decreases m,
{
    if m > n {
        lemma_div_run_stable(a, b, k, n, (m - 1) as nat);
    }
}

/// Before it finishes, a division has not finished at any earlier step.
pub proof fn lemma_div_run_unfinished(a: Seq<Row>, b: Seq<Row>, k: BoxKind, i: nat, n: nat)
    requires
        div_run(a, b, k, i) matches Some(st) && !finished(st.rest),
        n <= i,
    ensures
        div_run(a, b, k, n) matches Some(st) && !finished(st.rest),
    decreases i,
{
    if n < i {
        let prev = div_run(a, b, k, (i - 1) as nat);
        assert(prev is Some);
        assert(!finished(prev->0.rest));
        lemma_div_run_unfinished(a, b, k, (i - 1) as nat, n);
    }
}

/// Changing the first row of a box, but not its length, keeps it a box with the same children.
pub proof fn lemma_retop(t: Seq<Row>, row: Row)
    requires
        is_tree(t),
        row.len == t[0].len,
    ensures
        is_tree(t.update(0, row)),
        children(t.update(0, row)) == children(t),
        t.update(0, row).len() == t.len(),
{
    let u = t.update(0, row);
    assert(u.drop_first() =~= t.drop_first());
}

/// A box wrapped as the only child of a new box gives a box.
pub proof fn lemma_wrapped_tree(k: BoxKind, t: Seq<Row>, m: nat)
    requires
        is_tree(t),
    ensures
        is_tree(wrapped(k, t, m)),
        wrapped(k, t, m).len() == 1 + t.len(),
{
    let t2 = t.update(0, row_with_mult(t[0], m * t[0].mult));
    lemma_retop(t, row_with_mult(t[0], m * t[0].mult));
    let cs = seq![t2];
    assert(crate::model::all_trees(cs)) by {
        assert forall|i: int| 0 <= i < cs.len() implies is_tree(#[trigger] cs[i]) by {
            assert(cs[i] == t2);
        }
    }
    crate::canon::lemma_flatten_single(t2);
    crate::model::lemma_mk_box(Row { kind: k, color: Color::Black, mult: 1, len: 1 }, cs);
    assert(wrapped(k, t, m) =~= crate::model::mk_box(Row { kind: k, color: Color::Black, mult: 1, len: 1 }, cs));
}

proof fn lemma_balance_ok_prefix(f: Seq<Row>, gs: Seq<Seq<Row>>, j: int)
    requires
        balance_ok(f, gs),
        0 <= j <= gs.len(),
    ensures
        balance_ok(f, gs.take(j)),
    decreases gs.len(),
{
    if j == gs.len() {
        assert(gs.take(j) =~= gs);
    } else {
        lemma_balance_ok_prefix(f, gs.drop_last(), j);
        assert(gs.drop_last().take(j) =~= gs.take(j));
    }
}

proof fn lemma_balance_none(f: Seq<Row>, gs: Seq<Seq<Row>>, j: int)
    requires
        0 <= j <= gs.len(),
        balance(f, gs.take(j)) is None,
    ensures
        balance(f, gs) is None,
    decreases gs.len(),
{
    if j == gs.len() {
        assert(gs.take(j) =~= gs);
    } else {
        assert(gs.drop_last().take(j) =~= gs.take(j));
        lemma_balance_none(f, gs.drop_last(), j);
    }
}

/// Matches the factor with one child of the divisor; `None` when nothing matches.
fn reduce_factor(f: &BoxValue<AnyBox>, g: &BoxValue<AnyBox>) -> (r: Option<BoxValue<AnyBox>>)
    requires
        f.wf(),
        g.wf(),
        has_content(children(f@), content(g@)) ==> g@[0].mult > 0,
    ensures
        has_content(children(f@), content(g@)) ==> (r matches Some(x) && x.wf() && x@ == reduce_with(f@, g@)),
        !has_content(children(f@), content(g@)) ==> r is None,
{
    proof {
        lemma_tree_split(f@);
    }
    let cs = child_boxes(f);
    let ghost vc = views(cs@);
    let ghost cg = content(g@);
    let mut w: Vec<BoxValue<AnyBox>> = Vec::new();
    let mut matched = false;
    let mut i: usize = 0;
    proof {
        assert(vc.take(0) =~= Seq::<Seq<Row>>::empty());
        assert(views(w@) =~= Seq::<Seq<Row>>::empty());
    }
    while i < cs.len()
        invariant
            vc == views(cs@),
            vc == children(f@),
            all_inv(cs@),
            all_trees(vc),
            g.wf(),
            cg == content(g@),
            has_content(vc, cg) ==> g@[0].mult > 0,
            i <= cs@.len(),
            all_inv(w@),
            all_trees(views(w@)),
            views(w@) == reduce_children(vc.take(i as int), g@),
            matched == has_content(vc.take(i as int), cg),
            flatten(views(w@)).len() <= flatten(vc.take(i as int)).len(),
        decreases cs@.len() - i,
    {
        let ghost p = vc.take(i as int);
        let ghost t = vc[i as int];
        let ghost old_w = w@;
        let ghost vo = views(old_w);
        proof {
            assert(cs@[i as int].inv());
            assert(is_tree(t));
            assert(views(cs@)[i as int] == cs@[i as int]@);
            assert(vc.take(i + 1) =~= p.push(t));
            assert(p.push(t).drop_last() =~= p);
            lemma_flatten_push(p, t);
            crate::set::lemma_has_push(p, t, cg);
        }
        let mut x = cs[i].duplicate();
        if eq_content(&x, g) {
            matched = true;
            proof {
                assert(has_content(vc, cg)) by {
                    assert(content(vc[i as int]) == cg);
                }
            }
            let xm = x.get_multiplicity(0);
            let gm = g.get_multiplicity(0);
            let q = xm.div(&gm);
            let m = q.saturating_sub(&Natural::one());
            if !m.is_zero() {
                x.set_multiplicity(0, m);
                let ghost nv = x@;
                w.push(x);
                proof {
                    lemma_retop(t, row_with_mult(t[0], (t[0].mult / g@[0].mult - 1) as nat));
                    assert(nv == t.update(0, row_with_mult(t[0], (t[0].mult / g@[0].mult - 1) as nat)));
                    assert(views(w@) =~= vo.push(nv));
                    lemma_flatten_push(vo, nv);
                }
            } else {
                proof {
                    assert(views(w@) == vo);
                }
            }
        } else {
            let ghost nv = x@;
            w.push(x);
            proof {
                assert(views(w@) =~= vo.push(nv));
                lemma_flatten_push(vo, nv);
            }
        }
        proof {
            let vn = views(w@);
            assert forall|k: int| 0 <= k < w@.len() implies (#[trigger] w@[k]).inv() by {
                if k < old_w.len() {
                    assert(w@[k] == old_w[k]);
                }
            }
            assert forall|k: int| 0 <= k < vn.len() implies is_tree(#[trigger] vn[k]) by {
                if k < vo.len() {
                    assert(vn[k] == vo[k]);
                }
            }
        }
        i = i + 1;
    }
    proof {
        assert(vc.take(cs@.len() as int) =~= vc);
        assert(flatten(vc).len() == f@.len() - 1);
    }
    if !matched {
        return None;
    }
    let ghost items = views(w@);
    let mut x = BoxValue::<AnyBox>::from_children(w);
    let ghost x0 = x@;
    proof {
        lemma_collect_rows(items, x0);
        lemma_tree_split(x0);
    }
    let n = x.rows();
    let kind = if n == 1 {
        BoxKind::Empty
    } else {
        f.get_kind(0)
    };
    x.set_kind(0, kind);
    x.set_color(0, f.get_color(0));
    x.set_multiplicity(0, f.get_multiplicity(0));
    proof {
        let row = Row { kind, color: f@[0].color, mult: f@[0].mult, len: x0[0].len };
        assert(x@ =~= x0.update(0, row));
        lemma_retop(x0, row);
        assert(x@ == reduce_with(f@, g@));
    }
    Some(x)
}

/// Matches the factor with each child of the divisor in turn.
fn balance_factor(f: BoxValue<AnyBox>, gs: &Vec<BoxValue<AnyBox>>) -> (r: Option<BoxValue<AnyBox>>)
    requires
        f.wf(),
        all_inv(gs@),
        all_trees(views(gs@)),
        balance_ok(f@, views(gs@)),
    ensures
        balance(f@, views(gs@)) matches Some(x) ==> (r matches Some(y) && y.wf() && y@ == x),
        balance(f@, views(gs@)) is None ==> r is None,
{
    let ghost f0 = f@;
    let ghost vg = views(gs@);
    let mut cur = f;
    let mut j: usize = 0;
    proof {
        assert(vg.take(0) =~= Seq::<Seq<Row>>::empty());
    }
    while j < gs.len()
        invariant
            vg == views(gs@),
            f0 == f@,
            all_inv(gs@),
            all_trees(vg),
            balance_ok(f0, vg),
            j <= gs@.len(),
            cur.wf(),
            balance(f0, vg.take(j as int)) == Some(cur@),
        decreases gs@.len() - j,
    {
        proof {
            assert(gs@[j as int].inv());
            assert(is_tree(vg[j as int]));
            assert(views(gs@)[j as int] == gs@[j as int]@);
            lemma_balance_ok_prefix(f0, vg, j + 1);
            assert(vg.take(j + 1).drop_last() =~= vg.take(j as int));
            assert(vg.take(j + 1).last() == vg[j as int]);
        }
        match reduce_factor(&cur, &gs[j]) {
            Some(next) => {
                cur = next;
            },
            None => {
                proof {
                    assert(balance(f0, vg.take(j + 1)) is None);
                    lemma_balance_none(f0, vg, j + 1);
                    assert(balance(f0, vg) is None);
                    assert(f0 == f@);
                }
                return None;
            },
        }
        j = j + 1;
    }
    proof {
        assert(vg.take(gs@.len() as int) =~= vg);
    }
    Some(cur)
}

/// One step of the division.
fn div_step<L: BoxType>(
    s: BoxValue<L>,
    b: &BoxValue<L>,
    dgs: &Vec<BoxValue<AnyBox>>,
    dm: &Natural,
    dc: Color,
) -> (r: (
    BoxValue<L>,
    Option<BoxValue<AnyBox>>,
    Option<BoxValue<AnyBox>>,
))
    requires
        s.wf(),
        b.wf(),
        !finished(s@),
        children(b@).len() > 0,
        step_ok(s@, b@, L::KIND),
        all_inv(dgs@),
        all_trees(views(dgs@)),
        views(dgs@) == children(children(b@)[0]),
        dm@ == children(b@)[0][0].mult,
        dc == children(b@)[0][0].color,
    ensures
        r.0.wf(),
        r.0@ == next_rest(s@, b@, L::KIND),
        quotient_term(s@, b@) matches Some(f) ==> (r.1 matches Some(x) && x.wf() && x@ == f && r.2 is None),
        quotient_term(s@, b@) is None ==> r.1 is None,
        quotient_term(s@, b@) is None ==> (r.2 matches Some(x) && x.wf() && x@ == children(s@)[0]),
{
    let ghost k = L::KIND;
    proof {
        lemma_tree_split(s@);
        assert(children(s@).len() > 0) by {
            if children(s@).len() == 0 {
                assert(flatten(children(s@)).len() == 0);
            }
        }
        crate::mul::lemma_child_lens(children(s@));
    }
    let c = s.first_child();
    let ghost cv = c@;
    let cm = c.get_multiplicity(0);
    if cm.lt(dm) {
        proof {
            lemma_wrapped_tree(k, cv, 1);
        }
        let w = c.duplicate().wrap::<L>(Natural::one());
        let ns = s.sub_boxes(w);
        return (ns, None, Some(c));
    }
    let q = cm.div(dm);
    let mut f0 = c.duplicate();
    f0.set_multiplicity(0, q);
    f0.set_color(0, c.get_color(0) * dc);
    proof {
        let d0 = children(b@)[0][0];
        assert(f0@ =~= cv.update(0, factor_head(cv[0], d0)));
        lemma_retop(cv, factor_head(cv[0], d0));
    }
    match balance_factor(f0, dgs) {
        Some(f) => {
            let ghost fv = f@;
            proof {
                lemma_wrapped_tree(k, fv, 1);
                assert(quotient_term(s@, b@) == Some(fv));
                let x = wrapped(k, fv, 1).len();
                let y = b@.len();
                assert(x * y * (x + y) < u32::MAX);
                assert(x < u32::MAX) by (nonlinear_arith)
                    requires
                        x * y * (x + y) < u32::MAX,
                        y >= 1,
                        x >= 1,
                ;
            }
            let w = f.duplicate().wrap::<L>(Natural::one());
            let p = w.mul_boxes(b.duplicate()).cast::<L>();
            let ns = s.sub_boxes(p);
            (ns, Some(f), None)
        },
        None => {
            proof {
                lemma_wrapped_tree(k, cv, 1);
            }
            let w = c.duplicate().wrap::<L>(Natural::one());
            let ns = s.sub_boxes(w);
            (ns, None, Some(c))
        },
    }
}

/// The vector holds, for each content among `fs`, the last box of `fs` with it.
pub open spec fn mirrors(u: Seq<BoxValue<AnyBox>>, fs: Seq<Seq<Row>>) -> bool {
    &&& all_inv(u)
    &&& all_trees(views(u))
    &&& all_trees(fs)
    &&& distinct_contents(views(u))
    &&& forall|c: Seq<Row>| #[trigger] has_content(views(u), c) <==> has_content(fs, c)
    &&& forall|k: int| 0 <= k < u.len() ==> #[trigger] views(u)[k] == last_with(fs, content(views(u)[k]))
    &&& flatten(views(u)).len() <= flatten(fs).len()
}

/// Records a box, replacing the one with the same content if there is one.
fn record(u: &mut Vec<BoxValue<AnyBox>>, x: BoxValue<AnyBox>, Ghost(fs): Ghost<Seq<Seq<Row>>>)
    requires
        mirrors(old(u)@, fs),
        x.wf(),
    ensures
        mirrors(final(u)@, fs.push(x@)),
{
    let ghost xv = x@;
    let ghost cx = content(xv);
    let ghost old_u = u@;
    let ghost vo = views(old_u);
    proof {
        assert(fs.push(xv).drop_last() =~= fs);
        lemma_flatten_push(fs, xv);
        assert forall|c: Seq<Row>| has_content(fs.push(xv), c) <==> (has_content(fs, c) || cx == c) by {
            crate::set::lemma_has_push(fs, xv, c);
        }
        assert forall|i: int| 0 <= i < fs.push(xv).len() implies is_tree(#[trigger] fs.push(xv)[i]) by {
            if i < fs.len() {
                assert(fs.push(xv)[i] == fs[i]);
            }
        }
    }
    match crate::set::find_content(u, &x) {
        Some(j) => {
            let y = u.remove(j);
            u.insert(j, x);
            proof {
                let vn = views(u@);
                assert(vn =~= vo.update(j as int, xv)) by {
                    assert forall|k: int| 0 <= k < vn.len() implies vn[k] == vo.update(j as int, xv)[k] by {
                        if k != j {
                            assert(u@[k] == old_u[k]);
                        }
                    }
                }
                assert(content(vo[j as int]) == cx);
                assert(vo[j as int].len() == xv.len()) by {
                    assert(content(vo[j as int]).len() == content(xv).len());
                }
                crate::canon::lemma_flatten_update_len(vo, j as int, xv);
                assert forall|k: int| 0 <= k < u@.len() implies (#[trigger] u@[k]).inv() by {
                    if k != j {
                        assert(u@[k] == old_u[k]);
                    }
                }
                assert forall|k: int| 0 <= k < vn.len() implies is_tree(#[trigger] vn[k]) by {
                    if k != j {
                        assert(vn[k] == vo[k]);
                    }
                }
                assert(distinct_contents(vn)) by {
                    assert forall|a: int, b: int|
                        0 <= a < vn.len() && 0 <= b < vn.len() && a != b implies content(#[trigger] vn[a]) != content(
                        #[trigger] vn[b],
                    ) by {
                        assert(content(vn[a]) == content(vo[a]));
                        assert(content(vn[b]) == content(vo[b]));
                    }
                }
                assert forall|c: Seq<Row>| #[trigger] has_content(vn, c) <==> has_content(fs.push(xv), c) by {
                    assert(has_content(vo, c) <==> has_content(fs, c));
                    if has_content(vn, c) {
                        let k = choose|k: int| 0 <= k < vn.len() && content(#[trigger] vn[k]) == c;
                        assert(content(vo[k]) == c);
                    }
                    if has_content(vo, c) {
                        let k = choose|k: int| 0 <= k < vo.len() && content(#[trigger] vo[k]) == c;
                        assert(content(vn[k]) == c);
                    }
                    if c == cx {
                        assert(has_content(vo, c));
                    }
                }
                assert forall|k: int| 0 <= k < u@.len() implies #[trigger] views(u@)[k] == last_with(
                    fs.push(xv),
                    content(views(u@)[k]),
                ) by {
                    if k != j {
                        assert(vn[k] == vo[k]);
                        assert(content(vo[k]) != cx);
                        assert(vo[k] == last_with(fs, content(vo[k])));
                    }
                }
            }
        },
        None => {
            u.push(x);
            proof {
                let vn = views(u@);
                assert(vn =~= vo.push(xv));
                lemma_flatten_push(vo, xv);
                assert forall|k: int| 0 <= k < u@.len() implies (#[trigger] u@[k]).inv() by {
                    if k < old_u.len() {
                        assert(u@[k] == old_u[k]);
                    }
                }
                assert forall|k: int| 0 <= k < vn.len() implies is_tree(#[trigger] vn[k]) by {
                    if k < vo.len() {
                        assert(vn[k] == vo[k]);
                    }
                }
                assert(distinct_contents(vn)) by {
                    assert forall|a: int, b: int|
                        0 <= a < vn.len() && 0 <= b < vn.len() && a != b implies content(#[trigger] vn[a]) != content(
                        #[trigger] vn[b],
                    ) by {
                        if a == vo.len() {
                            assert(vn[b] == vo[b]);
                        } else if b == vo.len() {
                            assert(vn[a] == vo[a]);
                        } else {
                            assert(vn[a] == vo[a] && vn[b] == vo[b]);
                        }
                    }
                }
                assert forall|c: Seq<Row>| #[trigger] has_content(vn, c) <==> has_content(fs.push(xv), c) by {
                    assert(has_content(vo, c) <==> has_content(fs, c));
                    crate::set::lemma_has_push(vo, xv, c);
                }
                assert forall|k: int| 0 <= k < u@.len() implies #[trigger] views(u@)[k] == last_with(
                    fs.push(xv),
                    content(views(u@)[k]),
                ) by {
                    if k < vo.len() {
                        assert(vn[k] == vo[k]);
                        assert(content(vo[k]) != cx) by {
                            assert(has_content(vo, content(vo[k])));
                        }
                        assert(vo[k] == last_with(fs, content(vo[k])));
                    }
                }
            }
        },
    }
}

/// Once a step fails, the division stays failed.
proof fn lemma_div_run_none(a: Seq<Row>, b: Seq<Row>, k: BoxKind, n: nat, m: nat)
    requires
        div_run(a, b, k, n) is None,
        n <= m,
    ensures
        div_run(a, b, k, m) is None,
    decreases m,
{
    if m > n {
        lemma_div_run_none(a, b, k, n, (m - 1) as nat);
    }
}

/// Runs the division to its end: the factors recorded and the children dropped, each by
/// content.
fn run_division<L: BoxType>(a: BoxValue<L>, b: &BoxValue<L>) -> (r: (Vec<BoxValue<AnyBox>>, Vec<BoxValue<AnyBox>>))
    requires
        a.wf(),
        b.wf(),
        b@.len() >= 2,
        div_terminates(a@, b@, L::KIND),
    ensures
        mirrors(r.0@, div_final(a@, b@, L::KIND).found),
        mirrors(r.1@, div_final(a@, b@, L::KIND).dropped),
{
    let ghost k = L::KIND;
    let ghost n_end: nat = choose|n: nat| div_halts(a@, b@, k, n);
    proof {
        lemma_tree_split(b@);
        assert(children(b@).len() > 0) by {
            if children(b@).len() == 0 {
                assert(flatten(children(b@)).len() == 0);
            }
        }
    }
    let dfirst = b.first_child();
    let dm = dfirst.get_multiplicity(0);
    let dc = dfirst.get_color(0);
    proof {
        lemma_tree_split(dfirst@);
    }
    let dgs = child_boxes(&dfirst);
    let ghost a0 = a@;
    let mut s = a;
    let mut found: Vec<BoxValue<AnyBox>> = Vec::new();
    let mut dropped: Vec<BoxValue<AnyBox>> = Vec::new();
    let ghost mut gf: Seq<Seq<Row>> = Seq::empty();
    let ghost mut gd: Seq<Seq<Row>> = Seq::empty();
    let ghost mut i: nat = 0;
    proof {
        assert(views(found@) =~= Seq::<Seq<Row>>::empty());
        assert(views(dropped@) =~= Seq::<Seq<Row>>::empty());
        assert(flatten(Seq::<Seq<Row>>::empty()).len() == 0);
    }
    while s.get_length(0) > 1
        invariant
            s.wf(),
            b.wf(),
            children(b@).len() > 0,
            dfirst@ == children(b@)[0],
            all_inv(dgs@),
            all_trees(views(dgs@)),
            views(dgs@) == children(children(b@)[0]),
            dm@ == children(b@)[0][0].mult,
            dc == children(b@)[0][0].color,
            k == L::KIND,
            div_halts(a0, b@, k, n_end),
            i <= n_end,
            div_run(a0, b@, k, i) == Some(DivState { rest: s@, found: gf, dropped: gd }),
            mirrors(found@, gf),
            mirrors(dropped@, gd),
        decreases n_end - i,
    {
        proof {
            if i == n_end {
                assert(finished(s@));
            }
            assert(i < n_end);
            if div_run(a0, b@, k, i + 1) is None {
                lemma_div_run_none(a0, b@, k, i + 1, n_end);
            }
            assert(div_run(a0, b@, k, i + 1) is Some);
            assert(step_ok(s@, b@, k));
        }
        let ghost qt = quotient_term(s@, b@);
        let ghost c0 = children(s@)[0];
        let (ns, f, d) = div_step(s, b, &dgs, &dm, dc);
        s = ns;
        match f {
            Some(x) => {
                record(&mut found, x, Ghost(gf));
                proof {
                    gf = gf.push(qt->0);
                }
            },
            None => {},
        }
        match d {
            Some(x) => {
                record(&mut dropped, x, Ghost(gd));
                proof {
                    gd = gd.push(c0);
                }
            },
            None => {},
        }
        proof {
            i = i + 1;
        }
    }
    proof {
        assert(finished(s@));
        assert(div_halts(a0, b@, k, i));
        if i <= n_end {
            lemma_div_run_stable(a0, b@, k, i, n_end);
        }
    }
    (found, dropped)
}

/// Trait for the output type of box division
pub trait BoxDiv<Rhs = Self> {
    type Output: BoxType;
}

impl<T: BoxType> BoxDiv for T {
    type Output = Self;
}

impl BoxDiv<PolynumBox> for NumBox {
    type Output = PolynumBox;
}

impl BoxDiv<NumBox> for PolynumBox {
    type Output = PolynumBox;
}

impl BoxDiv<MultinumBox> for NumBox {
    type Output = MultinumBox;
}

impl BoxDiv<NumBox> for MultinumBox {
    type Output = MultinumBox;
}

impl BoxDiv<MultinumBox> for PolynumBox {
    type Output = MultinumBox;
}

impl BoxDiv<PolynumBox> for MultinumBox {
    type Output = MultinumBox;
}

/// The division of `a` by `b` is defined: the divisor has a child, and the division
/// finishes within the row limits.
pub open spec fn div_defined(a: Seq<Row>, b: Seq<Row>, k: BoxKind) -> bool {
    &&& b.len() >= 2
    &&& div_terminates(a, b, k)
    &&& 1 + flatten(div_final(a, b, k).found).len() <= u32::MAX
    &&& 1 + flatten(div_final(a, b, k).dropped).len() <= u32::MAX
}

/// `x` holds, in increasing order, the last box with each content among `fs`, where that box
/// has a multiplicity.
pub open spec fn holds_last(x: Seq<Row>, fs: Seq<Seq<Row>>) -> bool {
    &&& is_tree(x)
    &&& strictly_sorted(children(x))
    &&& forall|y: Seq<Row>|
        children(x).contains(y) <==> (has_content(fs, content(y)) && y == last_with(fs, content(y)) && y[0].mult
            > 0)
}

/// `x` is the quotient of `a` by `b`, computed with kind `k`.
pub open spec fn quotient_post(a: Seq<Row>, b: Seq<Row>, k: BoxKind, x: Seq<Row>) -> bool {
    &&& holds_last(x, div_final(a, b, k).found)
    &&& x[0] == Row {
        kind: if x.len() == 2 {
            BoxKind::Num
        } else {
            kind_add(a[0].kind, b[0].kind)
        },
        color: color_xor(a[0].color, b[0].color),
        mult: 1,
        len: x.len(),
    }
}

/// The largest rank of the kinds of the boxes, and at least that of `Empty`.
pub open spec fn max_rank(ds: Seq<Seq<Row>>) -> int
    decreases ds.len(),
{
    if ds.len() == 0 {
        1
    } else {
        let m = max_rank(ds.drop_last());
        let r = crate::order::kind_rank(ds.last()[0].kind);
        if r > m {
            r
        } else {
            m
        }
    }
}

/// The kind of a remainder from the largest kind rank among the dropped children.
pub open spec fn rem_kind(m: int, len: nat) -> BoxKind {
    if m <= 1 {
        if len > 1 {
            BoxKind::Num
        } else {
            BoxKind::Empty
        }
    } else if m == 2 {
        BoxKind::Polynum
    } else if m == 3 {
        BoxKind::Multinum
    } else {
        BoxKind::Any
    }
}

/// `x` is the remainder of `a` by `b`, computed with kind `k`.
pub open spec fn remainder_post(a: Seq<Row>, b: Seq<Row>, k: BoxKind, x: Seq<Row>) -> bool {
    let ds = div_final(a, b, k).dropped;
    &&& holds_last(x, ds)
    &&& x[0] == Row {
        kind: rem_kind(max_rank(ds), x.len()),
        color: color_xor(a[0].color, b[0].color),
        mult: 1,
        len: x.len(),
    }
}

/// The quotient of two boxes.
pub open spec fn box_quotient(a: Seq<Row>, b: Seq<Row>, k: BoxKind) -> Seq<Row> {
    choose|x: Seq<Row>| quotient_post(a, b, k, x)
}

/// The remainder of two boxes.
pub open spec fn box_remainder(a: Seq<Row>, b: Seq<Row>, k: BoxKind) -> Seq<Row> {
    choose|x: Seq<Row>| remainder_post(a, b, k, x)
}

/// The quotient is determined by its description.
pub proof fn lemma_quotient_is(a: Seq<Row>, b: Seq<Row>, k: BoxKind, x: Seq<Row>)
    requires
        quotient_post(a, b, k, x),
    ensures
        box_quotient(a, b, k) == x,
{
    let y = box_quotient(a, b, k);
    assert(quotient_post(a, b, k, y));
    crate::canon::lemma_sorted_unique(children(x), children(y));
    lemma_tree_split(x);
    lemma_tree_split(y);
    crate::set::lemma_same_box(x, y);
}

/// The remainder is determined by its description.
pub proof fn lemma_remainder_is(a: Seq<Row>, b: Seq<Row>, k: BoxKind, x: Seq<Row>)
    requires
        remainder_post(a, b, k, x),
    ensures
        box_remainder(a, b, k) == x,
{
    let y = box_remainder(a, b, k);
    assert(remainder_post(a, b, k, y));
    crate::canon::lemma_sorted_unique(children(x), children(y));
    lemma_tree_split(x);
    lemma_tree_split(y);
    crate::set::lemma_same_box(x, y);
}

/// Sorts the recorded boxes that have a multiplicity as the children of a new box.
fn gather_last<U: BoxType>(
    u: Vec<BoxValue<AnyBox>>,
    kind: BoxKind,
    color: Color,
    Ghost(fs): Ghost<Seq<Seq<Row>>>,
) -> (r: BoxValue<U>)
    requires
        mirrors(u@, fs),
        1 + flatten(fs).len() <= u32::MAX,
    ensures
        r.wf(),
        holds_last(r@, fs),
        r@[0] == (Row { kind, color, mult: 1, len: r@.len() }),
{
    let ghost vu = views(u@);
    let kept = crate::set::keep_nonzero(u);
    let ghost vk = views(kept@);
    let s = sort_distinct(kept);
    let ghost vs = views(s@);
    let r = crate::canon::assemble::<U>(kind, color, Natural::one(), s);
    proof {
        assert(children(r@) == vs);
        assert forall|y: Seq<Row>| vs.contains(y) <==> (has_content(fs, content(y)) && y == last_with(fs, content(y))
            && y[0].mult > 0) by {
            if vs.contains(y) {
                assert(vk.contains(y));
                assert(vu.contains(y));
                let q = choose|q: int| 0 <= q < vu.len() && vu[q] == y;
                assert(has_content(vu, content(y)));
            }
            if has_content(fs, content(y)) && y == last_with(fs, content(y)) && y[0].mult > 0 {
                assert(has_content(vu, content(y)));
                let q = choose|q: int| 0 <= q < vu.len() && content(#[trigger] vu[q]) == content(y);
                assert(vu[q] == last_with(fs, content(vu[q])));
                assert(vu.contains(vu[q]));
                assert(vk.contains(y));
            }
        }
        lemma_tree_split(r@);
    }
    r
}

/// The rank of a kind, computed.
fn rank_of(k: BoxKind) -> (r: u8)
    ensures
        r as int == crate::order::kind_rank(k),
{
    match k {
        BoxKind::Any => 0,
        BoxKind::Empty => 1,
        BoxKind::Num => 2,
        BoxKind::Polynum => 3,
        BoxKind::Multinum => 4,
        BoxKind::Unixel => 5,
        BoxKind::Vexel => 6,
        BoxKind::Pixel => 7,
        BoxKind::Maxel => 8,
        BoxKind::SetBox => 9,
        BoxKind::List => 10,
    }
}

proof fn lemma_max_rank_facts(ds: Seq<Seq<Row>>)
    ensures
        max_rank(ds) >= 1,
        forall|i: int| 0 <= i < ds.len() ==> crate::order::kind_rank((#[trigger] ds[i])[0].kind) <= max_rank(ds),
        max_rank(ds) == 1 || exists|i: int| 0 <= i < ds.len() && crate::order::kind_rank((#[trigger] ds[i])[0].kind) == max_rank(ds),
    decreases ds.len(),
{
    if ds.len() > 0 {
        let d = ds.drop_last();
        lemma_max_rank_facts(d);
        assert forall|i: int| 0 <= i < ds.len() implies crate::order::kind_rank((#[trigger] ds[i])[0].kind) <= max_rank(ds) by {
            if i < d.len() {
                assert(ds[i] == d[i]);
            }
        }
        if max_rank(ds) != 1 {
            if max_rank(ds) == max_rank(d) {
                let i = choose|i: int| 0 <= i < d.len() && crate::order::kind_rank((#[trigger] d[i])[0].kind) == max_rank(d);
                assert(ds[i] == d[i]);
            } else {
                assert(ds[ds.len() - 1] == ds.last());
            }
        }
    }
}

/// Lists with the same contents have the same largest kind rank.
proof fn lemma_max_rank_same(xs: Seq<Seq<Row>>, ys: Seq<Seq<Row>>)
    requires
        all_trees(xs),
        all_trees(ys),
        forall|c: Seq<Row>| has_content(xs, c) ==> has_content(ys, c),
        forall|c: Seq<Row>| has_content(ys, c) ==> has_content(xs, c),
    ensures
        max_rank(xs) == max_rank(ys),
{
    lemma_max_rank_facts(xs);
    lemma_max_rank_facts(ys);
    if max_rank(xs) != 1 {
        let i = choose|i: int| 0 <= i < xs.len() && crate::order::kind_rank((#[trigger] xs[i])[0].kind) == max_rank(xs);
        assert(has_content(xs, content(xs[i])));
        let j = choose|j: int| 0 <= j < ys.len() && content(#[trigger] ys[j]) == content(xs[i]);
        assert(is_tree(xs[i]) && is_tree(ys[j]));
        assert(content(ys[j])[0].kind == ys[j][0].kind);
        assert(content(xs[i])[0].kind == xs[i][0].kind);
    }
    if max_rank(ys) != 1 {
        let i = choose|i: int| 0 <= i < ys.len() && crate::order::kind_rank((#[trigger] ys[i])[0].kind) == max_rank(ys);
        assert(has_content(ys, content(ys[i])));
        let j = choose|j: int| 0 <= j < xs.len() && content(#[trigger] xs[j]) == content(ys[i]);
        assert(is_tree(ys[i]) && is_tree(xs[j]));
        assert(content(ys[i])[0].kind == ys[i][0].kind);
        assert(content(xs[j])[0].kind == xs[j][0].kind);
    }
}

/// The largest kind rank among the recorded boxes.
fn max_rank_of(u: &Vec<BoxValue<AnyBox>>) -> (m: u8)
    requires
        all_inv(u@),
        all_trees(views(u@)),
    ensures
        m as int == max_rank(views(u@)),
{
    let ghost vu = views(u@);
    let mut m: u8 = 1;
    let mut i: usize = 0;
    proof {
        assert(vu.take(0) =~= Seq::<Seq<Row>>::empty());
    }
    while i < u.len()
        invariant
            vu == views(u@),
            all_inv(u@),
            all_trees(vu),
            i <= u@.len(),
            m as int == max_rank(vu.take(i as int)),
        decreases u@.len() - i,
    {
        proof {
            assert(u@[i as int].inv());
            assert(is_tree(vu[i as int]));
            assert(views(u@)[i as int] == u@[i as int]@);
            assert(vu.take(i + 1).drop_last() =~= vu.take(i as int));
            assert(vu.take(i + 1).last() == vu[i as int]);
        }
        let r = rank_of(u[i].get_kind(0));
        if r > m {
            m = r;
        }
        i = i + 1;
    }
    proof {
        assert(vu.take(u@.len() as int) =~= vu);
    }
    m
}

impl<T: BoxType> BoxValue<T> {
    /// Divide two boxes
    pub fn div_boxes<R: BoxType>(self, rhs: BoxValue<R>) -> (r: BoxValue<<T as BoxDiv<R>>::Output>) where
        T: BoxDiv<R>,
        requires
            self.wf(),
            rhs.wf(),
            div_defined(self@, rhs@, T::KIND),
        ensures
            r.wf(),
            quotient_post(self@, rhs@, T::KIND, r@),
            r@ == box_quotient(self@, rhs@, T::KIND),
    {
        let lhs_col = self.get_color(0);
        let rhs_col = rhs.get_color(0);
        let lhs_kind = self.get_kind(0);
        let rhs_kind = rhs.get_kind(0);
        let ghost a = self@;
        let ghost b = rhs@;
        let rc = rhs.cast::<T>();
        let (found, _dropped) = run_division(self, &rc);
        let mut r = gather_last::<<T as BoxDiv<R>>::Output>(
            found,
            crate::add::add_kinds(lhs_kind, rhs_kind),
            lhs_col + rhs_col,
            Ghost(div_final(a, b, T::KIND).found),
        );
        let ghost r0 = r@;
        if r.rows() == 2 {
            r.set_kind(0, BoxKind::Num);
            proof {
                lemma_retop(r0, crate::value::row_with_kind(r0[0], BoxKind::Num));
            }
        }
        proof {
            lemma_tree_split(r@);
            lemma_quotient_is(a, b, T::KIND, r@);
        }
        r
    }

    /// Remainder of the division of two boxes
    pub fn rem_boxes<R: BoxType>(self, rhs: BoxValue<R>) -> (r: BoxValue<<T as BoxDiv<R>>::Output>) where
        T: BoxDiv<R>,
        requires
            self.wf(),
            rhs.wf(),
            div_defined(self@, rhs@, T::KIND),
        ensures
            r.wf(),
            remainder_post(self@, rhs@, T::KIND, r@),
            r@ == box_remainder(self@, rhs@, T::KIND),
    {
        let lhs_col = self.get_color(0);
        let rhs_col = rhs.get_color(0);
        let ghost a = self@;
        let ghost b = rhs@;
        let rc = rhs.cast::<T>();
        let (_found, dropped) = run_division(self, &rc);
        let ghost ds = div_final(a, b, T::KIND).dropped;
        let m = max_rank_of(&dropped);
        proof {
            lemma_max_rank_same(views(dropped@), ds);
        }
        let mut r = gather_last::<<T as BoxDiv<R>>::Output>(dropped, BoxKind::Any, lhs_col + rhs_col, Ghost(ds));
        let n = r.rows();
        let kind = if m <= 1 {
            if n > 1 {
                BoxKind::Num
            } else {
                BoxKind::Empty
            }
        } else if m == 2 {
            BoxKind::Polynum
        } else if m == 3 {
            BoxKind::Multinum
        } else {
            BoxKind::Any
        };
        let ghost r0 = r@;
        r.set_kind(0, kind);
        proof {
            lemma_retop(r0, crate::value::row_with_kind(r0[0], kind));
            lemma_tree_split(r@);
            lemma_remainder_is(a, b, T::KIND, r@);
        }
        r
    }
}

/// Boxes of these variants can be divided.
pub open spec fn can_div(l: BoxKind, r: BoxKind) -> bool {
    l == BoxKind::Empty || (r != BoxKind::Empty && ((l == BoxKind::Any && r == BoxKind::Any)
        || crate::variant::both_numeric(l, r)))
}

/// The rows of the quotient of two variants.
pub open spec fn variant_quotient(l: Seq<Row>, lt: BoxKind, r: Seq<Row>) -> Seq<Row> {
    if lt == BoxKind::Empty {
        crate::value::leaf_rows(BoxKind::Empty, color_xor(l[0].color, r[0].color))
    } else {
        box_quotient(l, r, lt)
    }
}

/// The rows of the remainder of two variants.
pub open spec fn variant_remainder(l: Seq<Row>, lt: BoxKind, r: Seq<Row>) -> Seq<Row> {
    if lt == BoxKind::Empty {
        crate::value::leaf_rows(BoxKind::Empty, color_xor(l[0].color, r[0].color))
    } else {
        box_remainder(l, r, lt)
    }
}

/// The division of two variants is defined.
pub open spec fn variant_div_defined(l: Seq<Row>, lt: BoxKind, r: Seq<Row>, rt: BoxKind) -> bool {
    can_div(lt, rt) && (lt != BoxKind::Empty ==> div_defined(l, r, lt))
}

impl BoxVariant {
    /// Divide two variants
    pub fn div(self, rhs: Self) -> (r: Self)
        requires
            self.wf(),
            rhs.wf(),
            variant_div_defined(self@, self.tag(), rhs@, rhs.tag()),
        ensures
            r.wf(),
            r@ == variant_quotient(self@, self.tag(), rhs@),
            r.tag() == (if self.tag() == BoxKind::Empty { BoxKind::Empty } else { r@[0].kind }),
    {
        match (self, rhs) {
            (BoxVariant::Empty(l), r) => {
                let l_col = l.get_color(0);
                let r_col = r.get_color(0);
                match l_col * r_col {
                    Color::Black => BoxVariant::zero(),
                    Color::Red => BoxVariant::anti_zero(),
                }
            },
            (BoxVariant::Any(l), BoxVariant::Any(r)) => BoxVariant::repack_raw(l.div_boxes(r)),
            (BoxVariant::Num(l), BoxVariant::Num(r)) => BoxVariant::repack_raw(l.div_boxes(r)),
            (BoxVariant::Num(l), BoxVariant::Polynum(r)) => BoxVariant::repack_raw(l.div_boxes(r)),
            (BoxVariant::Polynum(l), BoxVariant::Num(r)) => BoxVariant::repack_raw(l.div_boxes(r)),
            (BoxVariant::Polynum(l), BoxVariant::Polynum(r)) => BoxVariant::repack_raw(l.div_boxes(r)),
            (BoxVariant::Num(l), BoxVariant::Multinum(r)) => BoxVariant::repack_raw(l.div_boxes(r)),
            (BoxVariant::Multinum(l), BoxVariant::Num(r)) => BoxVariant::repack_raw(l.div_boxes(r)),
            (BoxVariant::Polynum(l), BoxVariant::Multinum(r)) => BoxVariant::repack_raw(l.div_boxes(r)),
            (BoxVariant::Multinum(l), BoxVariant::Polynum(r)) => BoxVariant::repack_raw(l.div_boxes(r)),
            (BoxVariant::Multinum(l), BoxVariant::Multinum(r)) => BoxVariant::repack_raw(l.div_boxes(r)),
            (_, _) => {
                proof {
                    assert(false);
                }
                BoxVariant::zero()
            },
        }
    }

    /// Remainder of the division of two variants
    pub fn rem(self, rhs: Self) -> (r: Self)
        requires
            self.wf(),
            rhs.wf(),
            variant_div_defined(self@, self.tag(), rhs@, rhs.tag()),
        ensures
            r.wf(),
            r@ == variant_remainder(self@, self.tag(), rhs@),
            r.tag() == (if self.tag() == BoxKind::Empty { BoxKind::Empty } else { r@[0].kind }),
    {
        match (self, rhs) {
            (BoxVariant::Empty(l), r) => {
                let l_col = l.get_color(0);
                let r_col = r.get_color(0);
                match l_col * r_col {
                    Color::Black => BoxVariant::zero(),
                    Color::Red => BoxVariant::anti_zero(),
                }
            },
            (BoxVariant::Any(l), BoxVariant::Any(r)) => BoxVariant::repack_raw(l.rem_boxes(r)),
            (BoxVariant::Num(l), BoxVariant::Num(r)) => BoxVariant::repack_raw(l.rem_boxes(r)),
            (BoxVariant::Num(l), BoxVariant::Polynum(r)) => BoxVariant::repack_raw(l.rem_boxes(r)),
            (BoxVariant::Polynum(l), BoxVariant::Num(r)) => BoxVariant::repack_raw(l.rem_boxes(r)),
            (BoxVariant::Polynum(l), BoxVariant::Polynum(r)) => BoxVariant::repack_raw(l.rem_boxes(r)),
            (BoxVariant::Num(l), BoxVariant::Multinum(r)) => BoxVariant::repack_raw(l.rem_boxes(r)),
            (BoxVariant::Multinum(l), BoxVariant::Num(r)) => BoxVariant::repack_raw(l.rem_boxes(r)),
            (BoxVariant::Polynum(l), BoxVariant::Multinum(r)) => BoxVariant::repack_raw(l.rem_boxes(r)),
            (BoxVariant::Multinum(l), BoxVariant::Polynum(r)) => BoxVariant::repack_raw(l.rem_boxes(r)),
            (BoxVariant::Multinum(l), BoxVariant::Multinum(r)) => BoxVariant::repack_raw(l.rem_boxes(r)),
            (_, _) => {
                proof {
                    assert(false);
                }
                BoxVariant::zero()
            },
        }
    }
}

impl<L: BoxType + BoxDiv<R>, R: BoxType> Div<BoxValue<R>> for BoxValue<L> {
    type Output = BoxValue<<L as BoxDiv<R>>::Output>;

    fn div(self, rhs: BoxValue<R>) -> (r: Self::Output)
        ensures
            r.wf(),
            quotient_post(self@, rhs@, L::KIND, r@),
            r@ == box_quotient(self@, rhs@, L::KIND),
    {
        self.div_boxes(rhs)
    }
}

impl<L: BoxType + BoxDiv<R>, R: BoxType> vstd::std_specs::ops::DivSpecImpl<BoxValue<R>> for BoxValue<L> {
    open spec fn obeys_div_spec() -> bool {
        false
    }

    open spec fn div_req(self, rhs: BoxValue<R>) -> bool {
        self.wf() && rhs.wf() && div_defined(self@, rhs@, L::KIND)
    }

    open spec fn div_spec(self, rhs: BoxValue<R>) -> Self::Output {
        arbitrary()
    }
}

impl<L: BoxType + BoxDiv<R>, R: BoxType> Rem<BoxValue<R>> for BoxValue<L> {
    type Output = BoxValue<<L as BoxDiv<R>>::Output>;

    fn rem(self, rhs: BoxValue<R>) -> (r: Self::Output)
        ensures
            r.wf(),
            remainder_post(self@, rhs@, L::KIND, r@),
            r@ == box_remainder(self@, rhs@, L::KIND),
    {
        self.rem_boxes(rhs)
    }
}

impl<L: BoxType + BoxDiv<R>, R: BoxType> vstd::std_specs::ops::RemSpecImpl<BoxValue<R>> for BoxValue<L> {
    open spec fn obeys_rem_spec() -> bool {
        false
    }

    open spec fn rem_req(self, rhs: BoxValue<R>) -> bool {
        self.wf() && rhs.wf() && div_defined(self@, rhs@, L::KIND)
    }

    open spec fn rem_spec(self, rhs: BoxValue<R>) -> Self::Output {
        arbitrary()
    }
}

impl Div for BoxVariant {
    type Output = Self;

    fn div(self, rhs: Self) -> (r: Self)
        ensures
            r.wf(),
            r@ == variant_quotient(self@, self.tag(), rhs@),
            r.tag() == (if self.tag() == BoxKind::Empty { BoxKind::Empty } else { r@[0].kind }),
    {
        BoxVariant::div(self, rhs)
    }
}

impl vstd::std_specs::ops::DivSpecImpl for BoxVariant {
    open spec fn obeys_div_spec() -> bool {
        false
    }

    open spec fn div_req(self, rhs: Self) -> bool {
        self.wf() && rhs.wf() && variant_div_defined(self@, self.tag(), rhs@, rhs.tag())
    }

    open spec fn div_spec(self, rhs: Self) -> Self {
        arbitrary()
    }
}

impl Rem for BoxVariant {
    type Output = Self;

    fn rem(self, rhs: Self) -> (r: Self)
        ensures
            r.wf(),
            r@ == variant_remainder(self@, self.tag(), rhs@),
            r.tag() == (if self.tag() == BoxKind::Empty { BoxKind::Empty } else { r@[0].kind }),
    {
        BoxVariant::rem(self, rhs)
    }
}

impl vstd::std_specs::ops::RemSpecImpl for BoxVariant {
    open spec fn obeys_rem_spec() -> bool {
        false
    }

    open spec fn rem_req(self, rhs: Self) -> bool {
        self.wf() && rhs.wf() && variant_div_defined(self@, self.tag(), rhs@, rhs.tag())
    }

    open spec fn rem_spec(self, rhs: Self) -> Self {
        arbitrary()
    }
}

} // verus!
