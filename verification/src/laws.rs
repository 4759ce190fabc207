//! Laws of the box algebra, stated over the models that the operations' contracts use.
use crate::add::{box_sum, lemma_sum_is, sum_post};
use crate::add::kind_add;
use crate::canon::{
    canonical, content, distinct_contents, lemma_tally_append, lemma_tally_distinct, lemma_tally_insert, share, signed,
    tally,
};
use crate::caret::{caret_fold, caret_merge, caret_post, caret_term, caret_terms, caret_terms_with, content_index};
use crate::mul::{box_product, lemma_product_is, product_post, term, terms, terms_with};
use crate::compare::{content_order, inner_rows};
use crate::derivative::{
    extend_all, multi_derivative, multi_terms, multi_terms_readable, poly_derivative, poly_terms, poly_terms_readable,
    term_derivative,
};
use crate::display::{mixed_terms, mixed_text, subscript};
use crate::eval::anti_value;
use crate::iter::{drained_back, drained_front};
use crate::maxel::{
    arranged, first_of, pixel_rows, pixel_terms, pixel_terms_with, second_of, term_fold, term_step, unixel_rows,
    unixel_terms, unixel_terms_with, Term,
};
use crate::model::{children, is_forest, is_tree, items, lemma_tree_split, Row};
use crate::natural::{all_digits, decimal, digit_char, digits_value};
use crate::lexer::Tok;
use crate::parser::{parse_spec, Ex};
use crate::order::{colors_of, lemma_lex_facts, lemma_lex_trans, lex, mults_of};
use crate::set::{first_with, has_content, lemma_first_with, max_mult, meet_post, union_child, union_post};
use crate::value::{leaf_rows, mk_row, one_rows, row_with_color, row_with_mult};
use crate::variant::{variant_product, variant_product_tag, variant_sum};
use crate::{color_flip, color_xor, BoxKind, Color};
use vstd::prelude::*;

verus! {

/// Colors combine as a group of two elements: combining is commutative and associative,
/// black changes nothing, every color cancels itself, and flipping twice gives the color back.
pub proof fn law_colors(a: Color, b: Color, c: Color)
    ensures
        color_xor(a, b) == color_xor(b, a),
        color_xor(color_xor(a, b), c) == color_xor(a, color_xor(b, c)),
        color_xor(Color::Black, a) == a,
        color_xor(a, a) == Color::Black,
        color_flip(color_flip(a)) == a,
        color_xor(Color::Red, a) == color_flip(a),
{
}

/// Taking the anti-box twice gives the box back.
pub proof fn law_anti_twice(v: (BoxKind, Seq<Row>))
    requires
        v.1.len() > 0,
    ensures
        anti_value(anti_value(v)) == v,
{
    law_colors(v.1[0].color, v.1[0].color, v.1[0].color);
    assert(anti_value(anti_value(v)).1 =~= v.1);
}

/// Addition is commutative: the sum of `a` and `b` is the sum of `b` and `a`.
pub proof fn law_sum_commutes(a: Seq<Row>, b: Seq<Row>, out: BoxKind, r: Seq<Row>)
    requires
        sum_post(a, b, out, r),
    ensures
        sum_post(b, a, out, r),
        box_sum(a, b, out) == r,
        box_sum(b, a, out) == r,
{
    assert forall|c: Seq<Row>| #[trigger]
        tally(children(r), c) == tally(children(b), c) + tally(children(a), c) by {
        assert(tally(children(r), c) == tally(children(a), c) + tally(children(b), c));
    }
    lemma_sum_is(a, b, out, r);
    lemma_sum_is(b, a, out, r);
}

/// Comparing contents is a total order on contents: swapping the boxes negates the result,
/// the result is zero exactly when the rows below the first agree in multiplicities and
/// colors, and it is transitive.
pub proof fn law_content_order(a: Seq<Row>, b: Seq<Row>, c: Seq<Row>)
    ensures
        content_order(a, b) == -content_order(b, a),
        content_order(a, b) == 0 <==> (mults_of(inner_rows(a)) == mults_of(inner_rows(b)) && colors_of(
            inner_rows(a),
        ) == colors_of(inner_rows(b))),
        content_order(a, b) <= 0 && content_order(b, c) <= 0 ==> content_order(a, c) <= 0,
{
    let (ma, mb, mc) = (mults_of(inner_rows(a)), mults_of(inner_rows(b)), mults_of(inner_rows(c)));
    let (ca, cb, cc) = (colors_of(inner_rows(a)), colors_of(inner_rows(b)), colors_of(inner_rows(c)));
    lemma_lex_facts(ma, mb);
    lemma_lex_facts(ca, cb);
    lemma_lex_facts(mb, mc);
    lemma_lex_facts(cb, cc);
    lemma_lex_facts(ma, mc);
    lemma_lex_facts(ca, cc);
    if content_order(a, b) <= 0 && content_order(b, c) <= 0 {
        if lex(ma, mb) == 0 && lex(mb, mc) == 0 {
            lemma_lex_trans(ca, cb, cc);
        } else if lex(ma, mb) <= 0 && lex(mb, mc) <= 0 {
            lemma_lex_trans(ma, mb, mc);
        }
    }
}

/// The largest multiplicity of a content among boxes that all have multiplicity one is one.
proof fn lemma_max_mult_of_units(cs: Seq<Seq<Row>>, c: Seq<Row>)
    requires
        has_content(cs, c),
        forall|i: int| 0 <= i < cs.len() ==> (#[trigger] cs[i])[0].mult == 1,
    ensures
        max_mult(cs, c) == 1,
    decreases cs.len(),
{
    let d = cs.drop_last();
    crate::set::lemma_has_push(d, cs.last(), c);
    assert(d.push(cs.last()) =~= cs);
    if has_content(d, c) {
        lemma_max_mult_of_units(d, c);
    } else {
        crate::set::lemma_max_mult_absent(d, c);
    }
}

/// Every element of either set is an element of their union, every element of the union is
/// an element of one of them, and the union of two sets, whose elements all have
/// multiplicity one, is a set.
pub proof fn law_union(l: Seq<Row>, r: Seq<Row>, x: Seq<Row>, c: Seq<Row>)
    requires
        is_tree(l),
        is_tree(r),
        union_post(l, r, x),
    ensures
        has_content(children(l), c) || has_content(children(r), c) ==> has_content(children(x), c),
        has_content(children(x), c) ==> has_content(children(l), c) || has_content(children(r), c),
        (forall|i: int| 0 <= i < children(l).len() ==> (#[trigger] children(l)[i])[0].mult == 1) && (forall|
            i: int,
        |
            0 <= i < children(r).len() ==> (#[trigger] children(r)[i])[0].mult == 1) ==> forall|i: int|
            0 <= i < children(x).len() ==> (#[trigger] children(x)[i])[0].mult == 1,
{
    let both = children(l) + children(r);
    let cl = children(l);
    let cr = children(r);
    lemma_tree_split(l);
    lemma_tree_split(r);
    assert forall|j: int| 0 <= j < both.len() implies (#[trigger] both[j]).len() > 0 by {
        if j < cl.len() {
            assert(both[j] == cl[j]);
            assert(is_tree(cl[j]));
        } else {
            assert(both[j] == cr[j - cl.len()]);
            assert(is_tree(cr[j - cl.len()]));
        }
    }
    assert(has_content(both, c) <==> (has_content(cl, c) || has_content(cr, c))) by {
        if has_content(cl, c) {
            let i = choose|i: int| 0 <= i < cl.len() && content(#[trigger] cl[i]) == c;
            assert(both[i] == cl[i]);
        }
        if has_content(cr, c) {
            let i = choose|i: int| 0 <= i < cr.len() && content(#[trigger] cr[i]) == c;
            assert(both[cl.len() + i] == cr[i]);
        }
        if has_content(both, c) {
            let i = choose|i: int| 0 <= i < both.len() && content(#[trigger] both[i]) == c;
            if i < cl.len() {
                assert(both[i] == cl[i]);
            } else {
                assert(both[i] == cr[i - cl.len()]);
            }
        }
    }
    if has_content(both, c) {
        lemma_first_with(both, c);
        let y = union_child(both, c);
        let f = first_with(both, c);
        let fi = choose|fi: int| 0 <= fi < both.len() && both[fi] == f;
        assert(f.len() > 0);
        assert(content(y) =~= content(f));
        assert(children(x).contains(y));
        let k = choose|k: int| 0 <= k < children(x).len() && children(x)[k] == y;
        assert(content(children(x)[k]) == c);
    }
    if has_content(children(x), c) {
        let k = choose|k: int| 0 <= k < children(x).len() && content(#[trigger] children(x)[k]) == c;
        assert(children(x).contains(children(x)[k]));
    }
    if (forall|i: int| 0 <= i < cl.len() ==> (#[trigger] cl[i])[0].mult == 1) && (forall|i: int|
        0 <= i < cr.len() ==> (#[trigger] cr[i])[0].mult == 1) {
        assert forall|i: int| 0 <= i < children(x).len() implies (#[trigger] children(x)[i])[0].mult == 1 by {
            let y = children(x)[i];
            assert(children(x).contains(y));
            lemma_first_with(both, content(y));
            let f = first_with(both, content(y));
            let fi = choose|fi: int| 0 <= fi < both.len() && both[fi] == f;
            assert(f.len() > 0);
            assert forall|j: int| 0 <= j < both.len() implies (#[trigger] both[j])[0].mult == 1 by {
                if j < cl.len() {
                    assert(both[j] == cl[j]);
                } else {
                    assert(both[j] == cr[j - cl.len()]);
                }
            }
            lemma_max_mult_of_units(both, content(y));
        }
    }
}

/// Every element of an intersection is an element of both sets, with at most the
/// multiplicity that each gives it first.
pub proof fn law_intersection(l: Seq<Row>, r: Seq<Row>, x: Seq<Row>, i: int)
    requires
        is_tree(l),
        is_tree(r),
        meet_post(l, r, x),
        0 <= i < children(x).len(),
    ensures
        has_content(children(l), content(children(x)[i])),
        has_content(children(r), content(children(x)[i])),
        children(x)[i][0].mult <= first_with(children(l), content(children(x)[i]))[0].mult,
        children(x)[i][0].mult <= first_with(children(r), content(children(x)[i]))[0].mult,
{
    let y = children(x)[i];
    assert(children(x).contains(y));
    lemma_tree_split(l);
    lemma_tree_split(r);
    let c = content(y);
    lemma_first_with(children(l), c);
    lemma_first_with(children(r), c);
    let f = first_with(children(l), c);
    let g = first_with(children(r), c);
    let fi = choose|fi: int| 0 <= fi < children(l).len() && children(l)[fi] == f;
    let gi = choose|gi: int| 0 <= gi < children(r).len() && children(r)[gi] == g;
    assert(is_tree(children(l)[fi]));
    assert(is_tree(children(r)[gi]));
    assert(f.len() > 0);
    assert(content(crate::set::meet_child(children(l), children(r), c)) =~= content(f));
}

/// Reading back the decimal digits of a number gives the number.
pub proof fn law_decimal_round_trip(n: nat)
    ensures
        all_digits(decimal(n)),
        decimal(n).len() > 0,
        digits_value(decimal(n)) == n,
    decreases n,
{
    let m = n % 10;
    assert((digit_char(m) as u32 - '0' as u32) as nat == m) by {
        assert('0' as u32 == 48);
        assert('9' as u32 == 57);
    }
    if n >= 10 {
        law_decimal_round_trip(n / 10);
        let d = decimal(n / 10);
        assert(decimal(n) == d.push(digit_char(m)));
        assert(decimal(n).drop_last() =~= d);
        assert(n == (n / 10) * 10 + n % 10) by (nonlinear_arith);
        assert(digits_value(decimal(n)) == digits_value(d) * 10 + m);
        assert(digits_value(d) == n / 10);
    } else {
        assert(n % 10 == n);
        assert(decimal(n) == seq![digit_char(n)]);
        assert(decimal(n).drop_last() =~= Seq::<char>::empty());
        assert(digits_value(Seq::<char>::empty()) == 0);
        assert(digits_value(decimal(n)) == digits_value(decimal(n).drop_last()) * 10 + m);
    }
}

/// A number has as many subscript digits as decimal digits.
pub proof fn law_subscript_length(n: nat)
    ensures
        subscript(n).len() == decimal(n).len(),
{
}

/// Two boxes have a sum.
pub open spec fn summable(x: Seq<Row>, y: Seq<Row>) -> bool {
    exists|s: Seq<Row>| sum_post(x, y, BoxKind::Any, s)
}

/// Every child of the one box has a sum with every child of the other.
pub open spec fn children_summable(a: Seq<Row>, b: Seq<Row>) -> bool {
    forall|i: int, j: int|
        0 <= i < children(a).len() && 0 <= j < children(b).len() ==> #[trigger] summable(
            children(a)[i],
            children(b)[j],
        )
}

/// The terms of every box of `ys` with `x`, in order.
spec fn column(ys: Seq<Seq<Row>>, x: Seq<Row>) -> Seq<Seq<Row>> {
    Seq::new(ys.len(), |j: int| term(ys[j], x))
}

/// The term of two summable boxes does not depend on their order.
proof fn lemma_term_commutes(x: Seq<Row>, y: Seq<Row>)
    requires
        summable(x, y),
    ensures
        term(x, y) == term(y, x),
{
    let s = choose|s: Seq<Row>| sum_post(x, y, BoxKind::Any, s);
    law_sum_commutes(x, y, BoxKind::Any, s);
    assert(x[0].mult * y[0].mult == y[0].mult * x[0].mult) by (nonlinear_arith);
}

proof fn lemma_terms_empty(ys: Seq<Seq<Row>>, c: Seq<Row>)
    ensures
        tally(terms(ys, Seq::empty()), c) == 0,
    decreases ys.len(),
{
    if ys.len() > 0 {
        lemma_terms_empty(ys.drop_last(), c);
        assert(terms_with(ys.last(), Seq::empty()) =~= Seq::<Seq<Row>>::empty());
        lemma_tally_append(terms(ys.drop_last(), Seq::empty()), terms_with(ys.last(), Seq::empty()), c);
    }
}

/// One more box on the right adds its column of terms.
proof fn lemma_terms_push(ys: Seq<Seq<Row>>, xs: Seq<Seq<Row>>, x: Seq<Row>, c: Seq<Row>)
    ensures
        tally(terms(ys, xs.push(x)), c) == tally(terms(ys, xs), c) + tally(column(ys, x), c),
    decreases ys.len(),
{
    if ys.len() == 0 {
        assert(column(ys, x) =~= Seq::<Seq<Row>>::empty());
    } else {
        let yp = ys.drop_last();
        let y = ys.last();
        lemma_terms_push(yp, xs, x, c);
        assert(terms_with(y, xs.push(x)) =~= terms_with(y, xs).push(term(y, x)));
        lemma_tally_append(terms(yp, xs.push(x)), terms_with(y, xs.push(x)), c);
        lemma_tally_append(terms(yp, xs), terms_with(y, xs), c);
        assert(terms_with(y, xs).push(term(y, x)).drop_last() =~= terms_with(y, xs));
        assert(column(ys, x) =~= column(yp, x).push(term(y, x)));
        assert(column(ys, x).drop_last() =~= column(yp, x));
    }
}

/// With every pair summable, the terms of `xs` with `ys` count every content as the terms of
/// `ys` with `xs` do.
proof fn lemma_terms_commute(xs: Seq<Seq<Row>>, ys: Seq<Seq<Row>>, c: Seq<Row>)
    requires
        forall|i: int, j: int| 0 <= i < xs.len() && 0 <= j < ys.len() ==> #[trigger] summable(xs[i], ys[j]),
    ensures
        tally(terms(xs, ys), c) == tally(terms(ys, xs), c),
    decreases xs.len(),
{
    if xs.len() == 0 {
        assert(xs =~= Seq::<Seq<Row>>::empty());
        lemma_terms_empty(ys, c);
    } else {
        let xp = xs.drop_last();
        let x = xs.last();
        assert forall|i: int, j: int| 0 <= i < xp.len() && 0 <= j < ys.len() implies #[trigger] summable(
            xp[i],
            ys[j],
        ) by {
            assert(xp[i] == xs[i]);
        }
        lemma_terms_commute(xp, ys, c);
        lemma_tally_append(terms(xp, ys), terms_with(x, ys), c);
        assert(xp.push(x) =~= xs);
        lemma_terms_push(ys, xp, x, c);
        assert(column(ys, x) =~= terms_with(x, ys)) by {
            assert forall|j: int| 0 <= j < ys.len() implies column(ys, x)[j] == terms_with(x, ys)[j] by {
                assert(summable(xs[xs.len() - 1], ys[j]));
                lemma_term_commutes(x, ys[j]);
            }
        }
    }
}

/// Multiplication is commutative wherever the children of the two boxes have sums: the
/// product of `a` and `b` is the product of `b` and `a`.
pub proof fn law_product_commutes(a: Seq<Row>, b: Seq<Row>, r: Seq<Row>)
    requires
        product_post(a, b, r),
        children_summable(a, b),
    ensures
        product_post(b, a, r),
        box_product(a, b) == r,
        box_product(b, a) == r,
{
    assert forall|c: Seq<Row>| #[trigger] tally(children(r), c) == tally(terms(children(b), children(a)), c) by {
        lemma_terms_commute(children(a), children(b), c);
    }
    assert(a.len() * b.len() * (a.len() + b.len()) == b.len() * a.len() * (b.len() + a.len())) by (nonlinear_arith);
    lemma_product_is(a, b, r);
    lemma_product_is(b, a, r);
}

/// Adding an empty box changes nothing but the color: the sum takes the other box, its
/// color combined with the empty box's; adding the black empty box, zero, gives the box back.
pub proof fn law_zero_sum(z: Seq<Row>, b: Seq<Row>, bt: BoxKind)
    requires
        z.len() > 0,
        b.len() > 0,
    ensures
        variant_sum(z, BoxKind::Empty, b, bt) == b.update(0, row_with_color(b[0], color_xor(z[0].color, b[0].color))),
        variant_sum(b, bt, z, BoxKind::Empty) == (if bt == BoxKind::Empty {
            z.update(0, row_with_color(z[0], color_xor(b[0].color, z[0].color)))
        } else {
            b.update(0, row_with_color(b[0], color_xor(b[0].color, z[0].color)))
        }),
        z[0].color == Color::Black ==> variant_sum(z, BoxKind::Empty, b, bt) == b,
{
    if z[0].color == Color::Black {
        assert(b.update(0, row_with_color(b[0], b[0].color)) =~= b);
    }
}

/// Multiplying by an empty box gives an empty box, red exactly when one of the two is red.
pub proof fn law_zero_product(l: Seq<Row>, lt: BoxKind, r: Seq<Row>, rt: BoxKind)
    requires
        lt == BoxKind::Empty || rt == BoxKind::Empty,
    ensures
        variant_product(l, lt, r, rt) == leaf_rows(BoxKind::Empty, color_xor(l[0].color, r[0].color)),
        variant_product_tag(lt, rt, variant_product(l, lt, r, rt)) == BoxKind::Empty,
{
}

/// The box and its children have canonical children: what the library's sums and products
/// give.
pub open spec fn canonical_two_levels(x: Seq<Row>) -> bool {
    &&& is_tree(x)
    &&& canonical(children(x))
    &&& forall|i: int| 0 <= i < children(x).len() ==> #[trigger] canonical(children(children(x)[i]))
}

/// The empty box inside the number one.
spec fn unit_child() -> Seq<Row> {
    leaf_rows(BoxKind::Empty, Color::Black)
}

proof fn lemma_one_children()
    ensures
        is_tree(one_rows(Color::Black)),
        children(one_rows(Color::Black)) == seq![unit_child()],
        children(unit_child()) == Seq::<Seq<Row>>::empty(),
        is_tree(unit_child()),
{
    let o = one_rows(Color::Black);
    let d = o.drop_first();
    assert(d =~= unit_child());
    let e = unit_child();
    assert(e.drop_first() =~= Seq::<Row>::empty());
    assert(items(e.drop_first()) =~= Seq::<Seq<Row>>::empty());
    assert(is_forest(e.drop_first()));
    assert(is_tree(e));
    assert(e.take(1) =~= e);
    assert(e.skip(1) =~= Seq::<Row>::empty());
    assert(items(e.skip(1)) =~= Seq::<Seq<Row>>::empty());
    assert(items(d) =~= seq![e]);
    assert(is_forest(e.skip(1)));
    assert(is_forest(d));
}

/// Adding the empty unit box to a box with canonical children, either way round, gives the
/// box with multiplicity one.
proof fn lemma_sum_with_unit(y: Seq<Row>)
    requires
        is_tree(y),
        canonical(children(y)),
    ensures
        box_sum(y, unit_child(), BoxKind::Any) == y.update(0, row_with_mult(y[0], 1)),
        box_sum(unit_child(), y, BoxKind::Any) == y.update(0, row_with_mult(y[0], 1)),
{
    let e = unit_child();
    let y1 = y.update(0, row_with_mult(y[0], 1));
    lemma_one_children();
    assert(crate::model::same_lens(y, y1));
    crate::model::lemma_same_lens_tree(y, y1);
    assert(y1.drop_first() =~= y.drop_first());
    assert(children(y1) == children(y));
    assert forall|c: Seq<Row>| #[trigger] tally(children(y1), c) == tally(children(y), c) + tally(children(e), c) by {
        assert(tally(children(e), c) == 0);
    }
    assert forall|c: Seq<Row>| #[trigger] tally(children(y1), c) == tally(children(e), c) + tally(children(y), c) by {
        assert(tally(children(e), c) == 0);
    }
    law_colors(y[0].color, Color::Black, Color::Black);
    assert(sum_post(y, e, BoxKind::Any, y1));
    assert(sum_post(e, y, BoxKind::Any, y1));
    lemma_sum_is(y, e, BoxKind::Any, y1);
    lemma_sum_is(e, y, BoxKind::Any, y1);
}

/// The terms of boxes with the unit box, either way round, are the boxes themselves.
proof fn lemma_unit_terms(xs: Seq<Seq<Row>>)
    requires
        forall|i: int| 0 <= i < xs.len() ==> is_tree(#[trigger] xs[i]) && canonical(children(xs[i])),
    ensures
        terms(xs, seq![unit_child()]) == xs,
        terms_with(unit_child(), xs) == xs,
    decreases xs.len(),
{
    let e = unit_child();
    assert forall|i: int| 0 <= i < xs.len() implies #[trigger] term(xs[i], e) == xs[i] && term(e, xs[i]) == xs[i] by {
        let y = xs[i];
        assert(is_tree(y) && canonical(children(y)));
        lemma_sum_with_unit(y);
        assert(y[0].mult * 1 == y[0].mult);
        assert(term(y, e) =~= y);
        assert(term(e, y) =~= y);
    }
    assert(terms_with(e, xs) =~= xs) by {
        assert forall|j: int| 0 <= j < xs.len() implies terms_with(e, xs)[j] == xs[j] by {
            let y = xs[j];
            lemma_sum_with_unit(y);
            assert(y[0].mult * 1 == y[0].mult);
            assert(term(e, y) =~= y);
        }
    }
    if xs.len() > 0 {
        lemma_unit_terms(xs.drop_last());
        assert(terms_with(xs.last(), seq![e]) =~= seq![xs.last()]);
        assert(term(xs[xs.len() - 1], e) == xs[xs.len() - 1]);
        assert(xs.drop_last() + seq![xs.last()] =~= xs);
    } else {
        assert(terms(xs, seq![e]) =~= xs);
    }
}

/// One is the unit of multiplication: a box of multiplicity one whose kind absorbs that of a
/// number, and whose children and grandchildren are canonical, times one, or one times it,
/// is the box itself.
pub proof fn law_mul_one(x: Seq<Row>)
    requires
        canonical_two_levels(x),
        x[0].mult == 1,
        kind_add(x[0].kind, BoxKind::Num) == x[0].kind,
        kind_add(BoxKind::Num, x[0].kind) == x[0].kind,
    ensures
        box_product(x, one_rows(Color::Black)) == x,
        box_product(one_rows(Color::Black), x) == x,
{
    let o = one_rows(Color::Black);
    lemma_one_children();
    let cx = children(x);
    assert forall|i: int| 0 <= i < cx.len() implies is_tree(#[trigger] cx[i]) && canonical(children(cx[i])) by {
        assert(canonical(children(children(x)[i])));
    }
    lemma_unit_terms(cx);
    assert(terms(seq![unit_child()], cx) =~= terms_with(unit_child(), cx)) by {
        assert(seq![unit_child()].drop_last() =~= Seq::<Seq<Row>>::empty());
        assert(terms(Seq::<Seq<Row>>::empty(), cx) =~= Seq::<Seq<Row>>::empty());
    }
    let n = x.len();
    assert(n <= 1 + n * 2 * (n + 2)) by (nonlinear_arith);
    assert(n <= 1 + 2 * n * (2 + n)) by (nonlinear_arith);
    law_colors(x[0].color, Color::Black, Color::Black);
    assert(product_post(x, o, x));
    assert(product_post(o, x, x));
    lemma_product_is(x, o, x);
    lemma_product_is(o, x, x);
}

proof fn lemma_drained_front(r: Seq<Seq<Row>>)
    ensures
        drained_front(r) == r,
    decreases r.len(),
{
    if r.len() > 0 {
        lemma_drained_front(r.drop_first());
        assert(seq![r[0]] + r.drop_first() =~= r);
    }
}

proof fn lemma_drained_back(r: Seq<Seq<Row>>)
    ensures
        drained_back(r) == r.reverse(),
    decreases r.len(),
{
    if r.len() > 0 {
        lemma_drained_back(r.drop_last());
        assert(seq![r.last()] + r.drop_last().reverse() =~= r.reverse());
    }
}

/// Taking the children from the back gives them in reverse order: reversed, they are
/// what taking them from the front gives.
pub proof fn law_back_mirrors_front(r: Seq<Seq<Row>>)
    ensures
        drained_back(r).reverse() == drained_front(r),
{
    lemma_drained_front(r);
    lemma_drained_back(r);
    assert(r.reverse().reverse() =~= r);
}

/// The sum of the products of multiplicities of the terms with content `c`.
pub open spec fn term_weight(ts: Seq<Term>, c: Seq<Row>) -> nat
    decreases ts.len(),
{
    if ts.len() == 0 {
        0
    } else {
        term_weight(ts.drop_last(), c) + if content(ts.last().rows) == c {
            ts.last().left * ts.last().right
        } else {
            0
        }
    }
}

/// The boxes of `u` have distinct contents, each has the weight of its content as its
/// multiplicity, and every content of positive weight is among them.
pub open spec fn weighed(u: Seq<Seq<Row>>, ts: Seq<Term>) -> bool {
    &&& distinct_contents(u)
    &&& forall|k: int| 0 <= k < u.len() ==> (#[trigger] u[k]).len() > 0 && u[k][0].mult == term_weight(ts, content(u[k]))
    &&& forall|c: Seq<Row>| term_weight(ts, c) > 0 ==> has_content(u, c)
}

proof fn lemma_fold_weighed(ts: Seq<Term>)
    requires
        forall|i: int| 0 <= i < ts.len() ==> (#[trigger] ts[i]).rows.len() > 0,
    ensures
        weighed(term_fold(ts), ts),
    decreases ts.len(),
{
    if ts.len() > 0 {
        let p = ts.drop_last();
        let t = ts.last();
        assert forall|i: int| 0 <= i < p.len() implies (#[trigger] p[i]).rows.len() > 0 by {
            assert(p[i] == ts[i]);
        }
        lemma_fold_weighed(p);
        let u = term_fold(p);
        let v = term_step(u, t);
        assert(term_fold(ts) == v);
        assert forall|c: Seq<Row>| #[trigger] term_weight(ts, c) == term_weight(p, c) + (if content(t.rows) == c {
            t.left * t.right
        } else {
            0
        }) by {}
        if exists|j: int| 0 <= j < u.len() && content(#[trigger] u[j]) == content(t.rows) {
            let j = choose|j: int| 0 <= j < u.len() && content(#[trigger] u[j]) == content(t.rows);
            let o = u[j];
            let o2 = o.update(0, mk_row(o[0].kind, color_xor(t.color, o[0].color), o[0].mult + t.left * t.right, o[0].len));
            assert(v == u.update(j, o2));
            assert(content(o2) =~= content(o));
            assert forall|a: int, b: int| 0 <= a < v.len() && 0 <= b < v.len() && a != b implies content(
                #[trigger] v[a],
            ) != content(#[trigger] v[b]) by {
                assert(content(v[a]) == content(u[a]));
                assert(content(v[b]) == content(u[b]));
            }
            assert forall|k: int| 0 <= k < v.len() implies (#[trigger] v[k]).len() > 0 && v[k][0].mult == term_weight(
                ts,
                content(v[k]),
            ) by {
                if k != j {
                    assert(v[k] == u[k]);
                    assert(content(u[k]) != content(u[j]));
                }
            }
            assert forall|c: Seq<Row>| term_weight(ts, c) > 0 implies has_content(v, c) by {
                if term_weight(p, c) > 0 {
                    assert(has_content(u, c));
                    let k = choose|k: int| 0 <= k < u.len() && content(#[trigger] u[k]) == c;
                    assert(content(v[k]) == content(u[k]));
                } else {
                    assert(content(v[j]) == c);
                }
            }
        } else {
            let x = t.rows.update(0, row_with_mult(t.rows[0], t.left * t.right));
            assert(v == u.push(x));
            assert(content(x) =~= content(t.rows));
            assert forall|a: int, b: int| 0 <= a < v.len() && 0 <= b < v.len() && a != b implies content(
                #[trigger] v[a],
            ) != content(#[trigger] v[b]) by {
                if a < u.len() && b < u.len() {
                    assert(v[a] == u[a] && v[b] == u[b]);
                } else if a < u.len() {
                    assert(v[a] == u[a]);
                } else {
                    assert(v[b] == u[b]);
                }
            }
            assert forall|k: int| 0 <= k < v.len() implies (#[trigger] v[k]).len() > 0 && v[k][0].mult == term_weight(
                ts,
                content(v[k]),
            ) by {
                if k < u.len() {
                    assert(v[k] == u[k]);
                    assert(term_weight(p, content(u[k])) == u[k][0].mult);
                    if term_weight(p, content(t.rows)) > 0 {
                        assert(has_content(u, content(t.rows)));
                    }
                    assert(content(u[k]) != content(t.rows));
                } else {
                    assert(v[k] == x);
                    if term_weight(p, content(t.rows)) > 0 {
                        assert(has_content(u, content(t.rows)));
                    }
                }
            }
            assert forall|c: Seq<Row>| term_weight(ts, c) > 0 implies has_content(v, c) by {
                if term_weight(p, c) > 0 {
                    assert(has_content(u, c));
                    let k = choose|k: int| 0 <= k < u.len() && content(#[trigger] u[k]) == c;
                    assert(v[k] == u[k]);
                } else {
                    assert(content(v[u.len() as int]) == c);
                }
            }
        }
    } else {
        assert forall|c: Seq<Row>| term_weight(ts, c) == 0 by {}
    }
}

proof fn lemma_term_weight_append(a: Seq<Term>, b: Seq<Term>, c: Seq<Row>)
    ensures
        term_weight(a + b, c) == term_weight(a, c) + term_weight(b, c),
    decreases b.len(),
{
    if b.len() == 0 {
        assert(a + b =~= a);
    } else {
        assert((a + b).drop_last() =~= a + b.drop_last());
        lemma_term_weight_append(a, b.drop_last(), c);
    }
}

/// The sum, over the right pixels `[y, z]` that the pixel `lp = [x, y]` meets, of the
/// products of the two multiplicities, where `[x, z]` has content `c`.
pub open spec fn pixel_weight(lp: Seq<Row>, rs: Seq<Seq<Row>>, c: Seq<Row>) -> nat
    decreases rs.len(),
{
    if rs.len() == 0 {
        0
    } else {
        let rp = rs.last();
        pixel_weight(lp, rs.drop_last(), c) + if second_of(lp) == first_of(rp) && content(
            pixel_rows(first_of(lp), second_of(rp)),
        ) == c {
            lp[0].mult * rp[0].mult
        } else {
            0
        }
    }
}

/// The matrix-product weight of the content `c`: the sum over all matching pairs of pixels.
pub open spec fn maxel_weight(ls: Seq<Seq<Row>>, rs: Seq<Seq<Row>>, c: Seq<Row>) -> nat
    decreases ls.len(),
{
    if ls.len() == 0 {
        0
    } else {
        maxel_weight(ls.drop_last(), rs, c) + pixel_weight(ls.last(), rs, c)
    }
}

proof fn lemma_pixel_terms_weight(lp: Seq<Row>, rs: Seq<Seq<Row>>, c: Seq<Row>)
    ensures
        term_weight(pixel_terms_with(lp, rs), c) == pixel_weight(lp, rs, c),
        forall|i: int| 0 <= i < pixel_terms_with(lp, rs).len() ==> (#[trigger] pixel_terms_with(lp, rs)[i]).rows.len() > 0,
    decreases rs.len(),
{
    if rs.len() > 0 {
        lemma_pixel_terms_weight(lp, rs.drop_last(), c);
        let prev = pixel_terms_with(lp, rs.drop_last());
        let rp = rs.last();
        if second_of(lp) == first_of(rp) {
            let t = Term { rows: pixel_rows(first_of(lp), second_of(rp)), color: lp[0].color, left: lp[0].mult, right: rp[0].mult };
            assert(pixel_terms_with(lp, rs) == prev.push(t));
            assert(prev.push(t).drop_last() =~= prev);
            assert forall|i: int| 0 <= i < prev.push(t).len() implies (#[trigger] prev.push(t)[i]).rows.len() > 0 by {
                if i < prev.len() {
                    assert(prev.push(t)[i] == prev[i]);
                }
            }
        }
    }
}

proof fn lemma_maxel_terms_weight(ls: Seq<Seq<Row>>, rs: Seq<Seq<Row>>, c: Seq<Row>)
    ensures
        term_weight(pixel_terms(ls, rs), c) == maxel_weight(ls, rs, c),
        forall|i: int| 0 <= i < pixel_terms(ls, rs).len() ==> (#[trigger] pixel_terms(ls, rs)[i]).rows.len() > 0,
    decreases ls.len(),
{
    if ls.len() > 0 {
        lemma_maxel_terms_weight(ls.drop_last(), rs, c);
        lemma_pixel_terms_weight(ls.last(), rs, c);
        let a = pixel_terms(ls.drop_last(), rs);
        let b = pixel_terms_with(ls.last(), rs);
        lemma_term_weight_append(a, b, c);
        assert forall|i: int| 0 <= i < (a + b).len() implies (#[trigger] (a + b)[i]).rows.len() > 0 by {
            if i < a.len() {
                assert((a + b)[i] == a[i]);
            } else {
                assert((a + b)[i] == b[i - a.len()]);
            }
        }
    }
}

/// A maxel product multiplies like matrices: each pixel `[x, z]` of the product has as
/// multiplicity the sum, over the pairs of a left pixel `[x, y]` and a right pixel `[y, z]`,
/// of the products of their multiplicities; and every `[x, z]` with a non-zero sum is a
/// pixel of the product.
pub proof fn law_maxel_product(a: Seq<Row>, b: Seq<Row>, r: Seq<Row>)
    requires
        arranged(BoxKind::Maxel, term_fold(pixel_terms(children(a), children(b))), r),
    ensures
        forall|x: Seq<Row>| #[trigger] children(r).contains(x) ==> x[0].mult == maxel_weight(children(a), children(b), content(x)),
        forall|c: Seq<Row>| #[trigger] maxel_weight(children(a), children(b), c) > 0 ==> exists|x: Seq<Row>| #[trigger]
            children(r).contains(x) && content(x) == c,
{
    let ts = pixel_terms(children(a), children(b));
    let u = term_fold(ts);
    lemma_maxel_terms_weight(children(a), children(b), Seq::empty());
    lemma_fold_weighed(ts);
    assert forall|x: Seq<Row>| #[trigger] children(r).contains(x) implies x[0].mult == maxel_weight(children(a), children(b), content(x)) by {
        assert(u.contains(x));
        let k = choose|k: int| 0 <= k < u.len() && u[k] == x;
        lemma_maxel_terms_weight(children(a), children(b), content(x));
    }
    assert forall|c: Seq<Row>| #[trigger] maxel_weight(children(a), children(b), c) > 0 implies exists|x: Seq<Row>| #[trigger]
        children(r).contains(x) && content(x) == c by {
        lemma_maxel_terms_weight(children(a), children(b), c);
        assert(has_content(u, c));
        let k = choose|k: int| 0 <= k < u.len() && content(#[trigger] u[k]) == c;
        assert(u[k][0].mult == term_weight(ts, c));
        assert(u.contains(u[k]));
        assert(children(r).contains(u[k]));
    }
}

/// The sum, over the unixels `[y]` that the pixel `lp = [x, y]` meets, of the products of
/// the two multiplicities, where `[x]` has content `c`.
pub open spec fn unixel_weight(lp: Seq<Row>, rs: Seq<Seq<Row>>, c: Seq<Row>) -> nat
    decreases rs.len(),
{
    if rs.len() == 0 {
        0
    } else {
        let ru = rs.last();
        unixel_weight(lp, rs.drop_last(), c) + if second_of(lp) == first_of(ru) && content(unixel_rows(first_of(lp)))
            == c {
            lp[0].mult * ru[0].mult
        } else {
            0
        }
    }
}

/// The matrix-times-vector weight of the content `c`: the sum over all matching pairs.
pub open spec fn vexel_weight(ls: Seq<Seq<Row>>, rs: Seq<Seq<Row>>, c: Seq<Row>) -> nat
    decreases ls.len(),
{
    if ls.len() == 0 {
        0
    } else {
        vexel_weight(ls.drop_last(), rs, c) + unixel_weight(ls.last(), rs, c)
    }
}

proof fn lemma_unixel_terms_weight(lp: Seq<Row>, rs: Seq<Seq<Row>>, c: Seq<Row>)
    ensures
        term_weight(unixel_terms_with(lp, rs), c) == unixel_weight(lp, rs, c),
        forall|i: int| 0 <= i < unixel_terms_with(lp, rs).len() ==> (#[trigger] unixel_terms_with(lp, rs)[i]).rows.len() > 0,
    decreases rs.len(),
{
    if rs.len() > 0 {
        lemma_unixel_terms_weight(lp, rs.drop_last(), c);
        let prev = unixel_terms_with(lp, rs.drop_last());
        let ru = rs.last();
        if second_of(lp) == first_of(ru) {
            let t = Term { rows: unixel_rows(first_of(lp)), color: lp[0].color, left: lp[0].mult, right: ru[0].mult };
            assert(unixel_terms_with(lp, rs) == prev.push(t));
            assert(prev.push(t).drop_last() =~= prev);
            assert forall|i: int| 0 <= i < prev.push(t).len() implies (#[trigger] prev.push(t)[i]).rows.len() > 0 by {
                if i < prev.len() {
                    assert(prev.push(t)[i] == prev[i]);
                }
            }
        }
    }
}

proof fn lemma_vexel_terms_weight(ls: Seq<Seq<Row>>, rs: Seq<Seq<Row>>, c: Seq<Row>)
    ensures
        term_weight(unixel_terms(ls, rs), c) == vexel_weight(ls, rs, c),
        forall|i: int| 0 <= i < unixel_terms(ls, rs).len() ==> (#[trigger] unixel_terms(ls, rs)[i]).rows.len() > 0,
    decreases ls.len(),
{
    if ls.len() > 0 {
        lemma_vexel_terms_weight(ls.drop_last(), rs, c);
        lemma_unixel_terms_weight(ls.last(), rs, c);
        let a = unixel_terms(ls.drop_last(), rs);
        let b = unixel_terms_with(ls.last(), rs);
        lemma_term_weight_append(a, b, c);
        assert forall|i: int| 0 <= i < (a + b).len() implies (#[trigger] (a + b)[i]).rows.len() > 0 by {
            if i < a.len() {
                assert((a + b)[i] == a[i]);
            } else {
                assert((a + b)[i] == b[i - a.len()]);
            }
        }
    }
}

/// A maxel times a vexel multiplies like a matrix times a vector: each unixel `[x]` of the
/// product has as multiplicity the sum, over the pairs of a pixel `[x, y]` and a unixel
/// `[y]`, of the products of their multiplicities; and every `[x]` with a non-zero sum is
/// a unixel of the product.
pub proof fn law_maxel_vexel_product(a: Seq<Row>, b: Seq<Row>, r: Seq<Row>)
    requires
        arranged(BoxKind::Vexel, term_fold(unixel_terms(children(a), children(b))), r),
    ensures
        forall|x: Seq<Row>| #[trigger] children(r).contains(x) ==> x[0].mult == vexel_weight(children(a), children(b), content(x)),
        forall|c: Seq<Row>| #[trigger] vexel_weight(children(a), children(b), c) > 0 ==> exists|x: Seq<Row>| #[trigger]
            children(r).contains(x) && content(x) == c,
{
    let ts = unixel_terms(children(a), children(b));
    let u = term_fold(ts);
    lemma_vexel_terms_weight(children(a), children(b), Seq::empty());
    lemma_fold_weighed(ts);
    assert forall|x: Seq<Row>| #[trigger] children(r).contains(x) implies x[0].mult == vexel_weight(children(a), children(b), content(x)) by {
        assert(u.contains(x));
        let k = choose|k: int| 0 <= k < u.len() && u[k] == x;
        lemma_vexel_terms_weight(children(a), children(b), content(x));
    }
    assert forall|c: Seq<Row>| #[trigger] vexel_weight(children(a), children(b), c) > 0 implies exists|x: Seq<Row>| #[trigger]
        children(r).contains(x) && content(x) == c by {
        lemma_vexel_terms_weight(children(a), children(b), c);
        assert(has_content(u, c));
        let k = choose|k: int| 0 <= k < u.len() && content(#[trigger] u[k]) == c;
        assert(u[k][0].mult == term_weight(ts, c));
        assert(u.contains(u[k]));
        assert(children(r).contains(u[k]));
    }
}

/// The sum, over the children `y` of `ys`, of the products of the multiplicities of `x` and
/// `y`, where the product of `x` and `y` has content `c`.
pub open spec fn caret_row_weight(x: Seq<Row>, ys: Seq<Seq<Row>>, c: Seq<Row>) -> nat
    decreases ys.len(),
{
    if ys.len() == 0 {
        0
    } else {
        caret_row_weight(x, ys.drop_last(), c) + if content(box_product(x, ys.last())) == c {
            x[0].mult * ys.last()[0].mult
        } else {
            0
        }
    }
}

/// The sum, over all pairs of a child of the left box and a child of the right box whose
/// product has content `c`, of the products of their multiplicities.
pub open spec fn caret_weight(xs: Seq<Seq<Row>>, ys: Seq<Seq<Row>>, c: Seq<Row>) -> nat
    decreases xs.len(),
{
    if xs.len() == 0 {
        0
    } else {
        caret_weight(xs.drop_last(), ys, c) + caret_row_weight(xs.last(), ys, c)
    }
}

/// Every product of a child of the left box with a child of the right box is a black box.
pub open spec fn black_products(xs: Seq<Seq<Row>>, ys: Seq<Seq<Row>>) -> bool {
    forall|i: int, j: int|
        0 <= i < xs.len() && 0 <= j < ys.len() ==> #[trigger] box_product(xs[i], ys[j]).len() > 0 && box_product(
            xs[i],
            ys[j],
        )[0].color == Color::Black
}

/// Every box of the list is a black box.
pub open spec fn all_black(ts: Seq<Seq<Row>>) -> bool {
    forall|i: int| 0 <= i < ts.len() ==> (#[trigger] ts[i]).len() > 0 && ts[i][0].color == Color::Black
}

proof fn lemma_caret_fold_tally(ts: Seq<Seq<Row>>)
    requires
        all_black(ts),
    ensures
        all_black(caret_fold(ts)),
        distinct_contents(caret_fold(ts)),
        forall|c: Seq<Row>| #[trigger] tally(caret_fold(ts), c) == tally(ts, c),
    decreases ts.len(),
{
    if ts.len() > 0 {
        let p = ts.drop_last();
        let t = ts.last();
        assert forall|i: int| 0 <= i < p.len() implies (#[trigger] p[i]).len() > 0 && p[i][0].color == Color::Black by {
            assert(p[i] == ts[i]);
        }
        lemma_caret_fold_tally(p);
        let s = caret_fold(p);
        let v = caret_merge(s, t);
        assert(caret_fold(ts) == v);
        assert(t == ts[ts.len() - 1]);
        if crate::set::has_content(s, content(t)) {
            let k = content_index(s, content(t));
            assert(0 <= k < s.len() && content(s[k]) == content(t));
            let o = s[k];
            let o2 = o.update(0, row_with_mult(o[0], o[0].mult + t[0].mult));
            assert(crate::caret::caret_combine(o, t) == o2);
            let rest = s.remove(k);
            assert(content(o2) =~= content(o));
            assert(!crate::set::has_content(rest, content(o2))) by {
                if crate::set::has_content(rest, content(o2)) {
                    let m = choose|m: int| 0 <= m < rest.len() && content(#[trigger] rest[m]) == content(o2);
                    if m < k {
                        assert(rest[m] == s[m]);
                    } else {
                        assert(rest[m] == s[m + 1]);
                    }
                }
            }
            assert(v == rest.push(o2));
            assert(rest.insert(k, o) =~= s);
            assert forall|c: Seq<Row>| #[trigger] tally(v, c) == tally(ts, c) by {
                lemma_tally_insert(rest, k, o, c);
                assert(rest.push(o2) =~= rest.insert(rest.len() as int, o2));
                lemma_tally_insert(rest, rest.len() as int, o2, c);
                assert(ts =~= p.insert(p.len() as int, t));
                lemma_tally_insert(p, p.len() as int, t, c);
            }
            assert forall|i: int| 0 <= i < v.len() implies (#[trigger] v[i]).len() > 0 && v[i][0].color == Color::Black by {
                if i < rest.len() {
                    if i < k {
                        assert(v[i] == s[i]);
                    } else {
                        assert(v[i] == s[i + 1]);
                    }
                }
            }
            assert forall|a: int, b: int| 0 <= a < v.len() && 0 <= b < v.len() && a != b implies content(
                #[trigger] v[a],
            ) != content(#[trigger] v[b]) by {
                let ia = if a < rest.len() { if a < k { a } else { a + 1 } } else { k };
                let ib = if b < rest.len() { if b < k { b } else { b + 1 } } else { k };
                assert(content(v[a]) == content(s[ia]));
                assert(content(v[b]) == content(s[ib]));
            }
        } else {
            assert(v == s.push(t));
            assert forall|c: Seq<Row>| #[trigger] tally(v, c) == tally(ts, c) by {
                assert(s.push(t) =~= s.insert(s.len() as int, t));
                lemma_tally_insert(s, s.len() as int, t, c);
                assert(ts =~= p.insert(p.len() as int, t));
                lemma_tally_insert(p, p.len() as int, t, c);
            }
            assert forall|i: int| 0 <= i < v.len() implies (#[trigger] v[i]).len() > 0 && v[i][0].color == Color::Black by {
                if i < s.len() {
                    assert(v[i] == s[i]);
                }
            }
            assert forall|a: int, b: int| 0 <= a < v.len() && 0 <= b < v.len() && a != b implies content(
                #[trigger] v[a],
            ) != content(#[trigger] v[b]) by {
                if a < s.len() && b < s.len() {
                    assert(v[a] == s[a] && v[b] == s[b]);
                } else if a < s.len() {
                    assert(v[a] == s[a]);
                } else {
                    assert(v[b] == s[b]);
                }
            }
        }
    }
}

proof fn lemma_caret_row_terms(x: Seq<Row>, ys: Seq<Seq<Row>>, c: Seq<Row>)
    requires
        forall|j: int| 0 <= j < ys.len() ==> #[trigger] box_product(x, ys[j]).len() > 0 && box_product(x, ys[j])[0].color
            == Color::Black,
    ensures
        tally(caret_terms_with(x, ys), c) == caret_row_weight(x, ys, c),
        all_black(caret_terms_with(x, ys)),
    decreases ys.len(),
{
    if ys.len() > 0 {
        let q = ys.drop_last();
        assert forall|j: int| 0 <= j < q.len() implies #[trigger] box_product(x, q[j]).len() > 0 && box_product(x, q[j])[0].color
            == Color::Black by {
            assert(q[j] == ys[j]);
        }
        lemma_caret_row_terms(x, q, c);
        let y = ys.last();
        assert(box_product(x, ys[ys.len() - 1]).len() > 0);
        let t = caret_term(x, y);
        assert(caret_terms_with(x, ys) =~= caret_terms_with(x, q).push(t));
        assert(caret_terms_with(x, ys).drop_last() =~= caret_terms_with(x, q));
        let pr = box_product(x, y);
        assert(content(t) =~= content(pr));
        assert(t[0].color == Color::Black);
        assert(share(t, c) == (if content(pr) == c { (x[0].mult * y[0].mult) as int } else { 0 }));
        assert forall|i: int| 0 <= i < caret_terms_with(x, ys).len() implies (#[trigger] caret_terms_with(x, ys)[i]).len() > 0
            && caret_terms_with(x, ys)[i][0].color == Color::Black by {
            assert(box_product(x, ys[i]).len() > 0);
        }
    }
}

proof fn lemma_caret_terms_weight(xs: Seq<Seq<Row>>, ys: Seq<Seq<Row>>, c: Seq<Row>)
    requires
        black_products(xs, ys),
    ensures
        tally(caret_terms(xs, ys), c) == caret_weight(xs, ys, c),
        all_black(caret_terms(xs, ys)),
    decreases xs.len(),
{
    if xs.len() > 0 {
        let p = xs.drop_last();
        assert(black_products(p, ys)) by {
            assert forall|i: int, j: int| 0 <= i < p.len() && 0 <= j < ys.len() implies #[trigger] box_product(p[i], ys[j]).len() > 0
                && box_product(p[i], ys[j])[0].color == Color::Black by {
                assert(p[i] == xs[i]);
            }
        }
        lemma_caret_terms_weight(p, ys, c);
        let x = xs.last();
        assert forall|j: int| 0 <= j < ys.len() implies #[trigger] box_product(x, ys[j]).len() > 0 && box_product(x, ys[j])[0].color
            == Color::Black by {
            assert(x == xs[xs.len() - 1]);
        }
        lemma_caret_row_terms(x, ys, c);
        let a = caret_terms(p, ys);
        let b = caret_terms_with(x, ys);
        lemma_tally_append(a, b, c);
        assert forall|i: int| 0 <= i < (a + b).len() implies (#[trigger] (a + b)[i]).len() > 0 && (a + b)[i][0].color
            == Color::Black by {
            if i < a.len() {
                assert((a + b)[i] == a[i]);
            } else {
                assert((a + b)[i] == b[i - a.len()]);
            }
        }
    }
}

/// Where every product of a child of one box with a child of the other is black (as for
/// boxes whose children are all black), the caret adds up, for each content, the products
/// of the multiplicities of all pairs of children whose product has that content: every
/// child of the caret is black, with that sum as its multiplicity, and every content with a
/// non-zero sum has a child.
pub proof fn law_caret_sums(a: Seq<Row>, b: Seq<Row>, r: Seq<Row>)
    requires
        caret_post(a, b, r),
        black_products(children(a), children(b)),
    ensures
        forall|c: Seq<Row>| #[trigger] tally(children(r), c) == caret_weight(children(a), children(b), c),
        forall|i: int| 0 <= i < children(r).len() ==> (#[trigger] children(r)[i])[0].color == Color::Black
            && children(r)[i][0].mult == caret_weight(children(a), children(b), content(children(r)[i])),
{
    let ts = caret_terms(children(a), children(b));
    lemma_caret_terms_weight(children(a), children(b), Seq::empty());
    lemma_caret_fold_tally(ts);
    assert forall|c: Seq<Row>| #[trigger] tally(children(r), c) == caret_weight(children(a), children(b), c) by {
        lemma_caret_terms_weight(children(a), children(b), c);
    }
    assert forall|i: int| 0 <= i < children(r).len() implies (#[trigger] children(r)[i])[0].color == Color::Black
        && children(r)[i][0].mult == caret_weight(children(a), children(b), content(children(r)[i])) by {
        let x = children(r)[i];
        lemma_tally_distinct(children(r), content(x));
        assert(tally(children(r), content(x)) == caret_weight(children(a), children(b), content(x)));
        assert(x[0].mult > 0);
    }
}

proof fn lemma_extend_all_rows(h: Seq<Row>, ts: Seq<Seq<Row>>)
    requires
        h.len() == 1,
        forall|k: int| 0 <= k < ts.len() ==> (#[trigger] ts[k]).len() > 0,
    ensures
        extend_all(h, ts).len() == 1 + crate::model::flatten(ts).len(),
        extend_all(h, ts).skip(1) == crate::model::flatten(ts),
    decreases ts.len(),
{
    if ts.len() > 0 {
        let d = ts.drop_last();
        assert forall|k: int| 0 <= k < d.len() implies (#[trigger] d[k]).len() > 0 by {
            assert(d[k] == ts[k]);
        }
        lemma_extend_all_rows(h, d);
        let e = extend_all(h, d);
        let l = ts.last();
        assert(ts[ts.len() - 1] == l);
        assert(l.len() > 0);
        crate::model::lemma_flatten_push(d, l);
        assert(ts =~= d.push(l));
        assert(e.len() > 0);
        assert(crate::value::extended(e, l).skip(1) =~= e.skip(1) + l);
    }
}

proof fn lemma_flatten_at(ts: Seq<Seq<Row>>, k: int)
    requires
        0 <= k < ts.len(),
    ensures
        crate::model::flatten(ts.take(k)).len() + ts[k].len() <= crate::model::flatten(ts).len(),
        crate::model::flatten(ts).subrange(
            crate::model::flatten(ts.take(k)).len() as int,
            (crate::model::flatten(ts.take(k)).len() + ts[k].len()) as int,
        ) == ts[k],
{
    let a = ts.take(k);
    let b = ts.skip(k + 1);
    assert(ts =~= a.push(ts[k]) + b);
    crate::model::lemma_flatten_append(a.push(ts[k]), b);
    crate::model::lemma_flatten_push(a, ts[k]);
    let f = crate::model::flatten(ts);
    let o = crate::model::flatten(a).len() as int;
    assert(f.subrange(o, o + ts[k].len()) =~= ts[k]);
}

proof fn lemma_poly_terms_find(cs: Seq<Seq<Row>>, i: int) -> (k: int)
    requires
        0 <= i < cs.len(),
        cs[i][0].kind == BoxKind::Num,
    ensures
        0 <= k < poly_terms(cs).len(),
        poly_terms(cs)[k] == term_derivative(cs[i], 2),
    decreases cs.len(),
{
    let d = cs.drop_last();
    if i == cs.len() - 1 {
        assert(poly_terms(cs) == poly_terms(d).push(term_derivative(cs.last(), 2)));
        poly_terms(d).len() as int
    } else {
        assert(d[i] == cs[i]);
        let k = lemma_poly_terms_find(d, i);
        if cs.last()[0].kind == BoxKind::Num {
            assert(poly_terms(cs) == poly_terms(d).push(term_derivative(cs.last(), 2)));
        }
        k
    }
}

proof fn lemma_poly_terms_nonempty(cs: Seq<Seq<Row>>)
    requires
        poly_terms_readable(cs),
    ensures
        forall|k: int| 0 <= k < poly_terms(cs).len() ==> (#[trigger] poly_terms(cs)[k]).len() > 0,
    decreases cs.len(),
{
    if cs.len() > 0 {
        let d = cs.drop_last();
        assert(poly_terms_readable(d)) by {
            assert forall|i: int| 0 <= i < d.len() && (#[trigger] d[i])[0].kind == BoxKind::Num implies d[i].len() >= 2 by {
                assert(d[i] == cs[i]);
            }
        }
        lemma_poly_terms_nonempty(d);
        if cs.last()[0].kind == BoxKind::Num {
            let t = cs.last();
            assert(cs[cs.len() - 1] == t);
            let ps = poly_terms(d).push(term_derivative(t, 2));
            assert(poly_terms(cs) == ps);
            assert forall|k: int| 0 <= k < ps.len() implies (#[trigger] ps[k]).len() > 0 by {
                if k < poly_terms(d).len() {
                    assert(ps[k] == poly_terms(d)[k]);
                }
            }
        }
    }
}

/// The derivative of a polynumber holds, for every term `c·αᵉ`, the term `(c·e)·αᵉ⁻¹`: at
/// some row `p` of the result the rows of the term reappear with the coefficient `c·e`
/// and, for `e ≥ 2`, the exponent `e - 1`; for `e ≤ 1` they give the constant `c·e`.
pub proof fn law_poly_derivative(a: Seq<Row>, i: int) -> (p: int)
    requires
        0 <= i < children(a).len(),
        children(a)[i][0].kind == BoxKind::Num,
        poly_terms_readable(children(a)),
    ensures
        ({
            let t = children(a)[i];
            let d = poly_derivative(a);
            &&& 0 < p < d.len()
            &&& d[p].mult == t[0].mult * t[1].mult
            &&& d[p].color == t[0].color
            &&& t[1].mult >= 2 ==> p + t.len() <= d.len() && d[p].kind == t[0].kind && d[p + 1].mult == t[1].mult - 1
                && d[p + 1].kind == t[1].kind && d[p + 1].color == t[1].color && d.subrange(p + 2, p + t.len())
                == t.skip(2)
            &&& t[1].mult <= 1 ==> d[p].kind == BoxKind::Empty && d[p].len == 1
        }),
{
    let cs = children(a);
    let t = cs[i];
    assert(t.len() >= 2);
    let ts = poly_terms(cs);
    lemma_poly_terms_nonempty(cs);
    let k = lemma_poly_terms_find(cs, i);
    let kind = if crate::derivative::max_root_len(ts) == 1 {
        BoxKind::Num
    } else {
        a[0].kind
    };
    let h = seq![Row { kind, color: a[0].color, mult: a[0].mult, len: 1 }];
    let d = poly_derivative(a);
    assert(d == extend_all(h, ts));
    lemma_extend_all_rows(h, ts);
    lemma_flatten_at(ts, k);
    let o = crate::model::flatten(ts.take(k)).len() as int;
    let f = crate::model::flatten(ts);
    let u = ts[k];
    assert(u == term_derivative(t, 2));
    assert forall|m: int| 0 <= m < u.len() implies d[1 + o + m] == u[m] by {
        assert(d.skip(1)[o + m] == d[1 + o + m]);
        assert(f.subrange(o, o + u.len())[m] == f[o + m]);
    }
    let p = 1 + o;
    if t[1].mult >= 2 {
        assert(u.len() == t.len());
        assert(d[p] == u[0]);
        assert(d[p + 1] == u[1]);
        assert(d.subrange(p + 2, p + t.len()) =~= t.skip(2)) by {
            assert forall|m: int| 0 <= m < t.len() - 2 implies d.subrange(p + 2, p + t.len())[m] == t.skip(2)[m] by {
                assert(d[p + 2 + m] == u[2 + m]);
            }
        }
    } else {
        assert(d[p] == u[0]);
    }
    p
}

proof fn lemma_mixed_terms_at(t: Seq<Row>, j: int, n: Seq<char>, bn: Option<Seq<char>>)
    requires
        t.len() > 0,
        t[0].kind == BoxKind::Polynum,
        0 <= j <= children(t).len(),
    ensures
        mixed_terms(t, j, Some(n), bn).len() == children(t).len() - j,
        forall|i: int| j <= i < children(t).len() ==> #[trigger] mixed_terms(t, j, Some(n), bn)[i - j] == mixed_terms(
            t,
            i,
            Some(n),
            bn,
        )[0],
    decreases children(t).len() - j,
{
    if j < children(t).len() {
        lemma_mixed_terms_at(t, j + 1, n, bn);
        let first = mixed_terms(t, j, Some(n), bn);
        let rest = mixed_terms(t, j + 1, Some(n), bn);
        let c = children(t)[j];
        let term = if c[0].kind == BoxKind::Num {
            crate::display::plain(crate::display::alpha_term(c, n, j == 0))
        } else {
            crate::display::plain(crate::display::num_term(c, j == 0))
        };
        assert(first == term + rest);
        assert forall|i: int| j <= i < children(t).len() implies #[trigger] mixed_terms(t, j, Some(n), bn)[i - j]
            == mixed_terms(t, i, Some(n), bn)[0] by {
            if i > j {
                assert((term + rest)[i - j] == rest[i - j - 1]);
                assert(rest[i - (j + 1)] == mixed_terms(t, i, Some(n), bn)[0]);
            }
        }
    }
}

/// In the text of a polynumber whose variable has a name, each term is one piece, and each
/// term after the first is written after `" - "` when it is red and after `" + "` when it is
/// black; a red first term starts with `-`.
pub proof fn law_mixed_signs(t: Seq<Row>, alt: bool, n: Seq<char>, bn: Option<Seq<char>>, i: int)
    requires
        t.len() > 0,
        t[0].kind == BoxKind::Polynum,
        0 <= i < children(t).len(),
    ensures
        mixed_text(t, alt, Some(n), bn).len() == children(t).len(),
        ({
            let piece = mixed_text(t, alt, Some(n), bn)[i].0;
            let red = children(t)[i][0].color == Color::Red;
            &&& i > 0 ==> piece.take(3) == (if red {
                seq![' ', '-', ' ']
            } else {
                seq![' ', '+', ' ']
            })
            &&& i == 0 && red ==> piece.len() > 0 && piece[0] == '-'
        }),
{
    lemma_mixed_terms_at(t, 0, n, bn);
    assert(mixed_text(t, alt, Some(n), bn) == mixed_terms(t, 0, Some(n), bn));
    let piece = mixed_terms(t, i, Some(n), bn)[0].0;
    assert(mixed_terms(t, 0, Some(n), bn)[i - 0] == mixed_terms(t, i, Some(n), bn)[0]);
    assert(mixed_text(t, alt, Some(n), bn)[i] == mixed_terms(t, i, Some(n), bn)[0]);
    let c = children(t)[i];
    if c[0].kind == BoxKind::Num {
        assert(piece == crate::display::alpha_term(c, n, i == 0));
    } else {
        assert(piece == crate::display::num_term(c, i == 0));
    }
    if i > 0 {
        assert(piece.take(3) =~= crate::display::sign(c[0].color, false));
    }
}

/// The tokens of a set holding one number.
pub open spec fn number_set_tokens(m: nat) -> Seq<Tok> {
    seq![Tok::OpenSet, Tok::Num(m), Tok::CloseSet]
}

/// The expression of a set holding one number.
pub open spec fn number_set(m: nat) -> Ex {
    Ex::SetOf(seq![Ex::Num(m)])
}

/// A number followed by a closing set bracket parses as that number.
proof fn lemma_number_item(ts: Seq<Tok>, i: int, k: nat)
    requires
        0 <= i,
        i + 1 < ts.len(),
        ts[i] == Tok::Num(k),
        ts[i + 1] == Tok::CloseSet,
    ensures
        crate::parser::p_expr(ts, i) == Some(crate::parser::Parsed { ex: Ex::Num(k), next: i + 1, ok: true }),
{
    let r = crate::parser::Parsed { ex: Ex::Num(k), next: i + 1, ok: true };
    assert(crate::parser::minus_run(ts, i) == 0);
    assert(crate::parser::sub_opt(ts, i) == (Option::<nat>::None, i));
    assert(crate::parser::p_number(ts, i) == Some(r));
    assert(crate::parser::p_base(ts, i) == Some(r));
    assert(crate::parser::negated(crate::parser::with_pre(None, Ex::Num(k)), 0) == Ex::Num(k));
    assert(crate::parser::p_atom(ts, i) == Some(r));
    assert(crate::parser::p_caret(ts, i) == Some(r));
    assert(crate::parser::prod_tail(ts, i + 1, Ex::Num(k), true) == Some(r));
    assert(crate::parser::p_prod(ts, i) == Some(r));
    assert(crate::parser::sum_tail(ts, i + 1, Ex::Num(k), true) == Some(r));
    assert(crate::parser::p_sum(ts, i) == Some(r));
    assert(crate::parser::colored(ts, i, Tok::OpenSet) is None);
    assert(crate::parser::p_bracketed(ts, i, crate::parser::Shape::SetShape, crate::parser::Item::Plain) is None);
    assert(crate::parser::p_set_op(ts, i) is None);
}

proof fn lemma_number_set(ts: Seq<Tok>, i: int, k: nat)
    requires
        0 <= i,
        i + 2 < ts.len(),
        ts[i] == Tok::OpenSet,
        ts[i + 1] == Tok::Num(k),
        ts[i + 2] == Tok::CloseSet,
    ensures
        crate::parser::p_bracketed(ts, i, crate::parser::Shape::SetShape, crate::parser::Item::Plain) == Some(
            crate::parser::Parsed { ex: number_set(k), next: i + 3, ok: true },
        ),
{
    lemma_number_item(ts, i + 1, k);
    assert(crate::parser::sub_opt(ts, i) == (Option::<nat>::None, i));
    assert(crate::parser::colored(ts, i, Tok::OpenSet) == Some((Color::Black, i + 1)));
    assert(crate::parser::p_item(ts, i + 1, crate::parser::Item::Plain) == crate::parser::p_expr(ts, i + 1));
    assert(crate::parser::items_tail(ts, i + 2, crate::parser::Item::Plain, seq![Ex::Num(k)], true) == Some(
        (seq![Ex::Num(k)], i + 2, true),
    ));
    assert(crate::parser::p_items(ts, i + 1, crate::parser::Item::Plain) == Some((seq![Ex::Num(k)], i + 2, true)));
    assert(crate::parser::colored(ts, i + 2, Tok::CloseSet) == Some((Color::Black, i + 3)));
}

proof fn lemma_set_pair(m: nat, n: nat, op: Tok)
    requires
        op == Tok::Union || op == Tok::Intersection,
    ensures
        parse_spec(number_set_tokens(m) + seq![op] + number_set_tokens(n)) == Some(
            if op == Tok::Union {
                Ex::Union(Box::new(number_set(m)), Box::new(number_set(n)))
            } else {
                Ex::Intersection(Box::new(number_set(m)), Box::new(number_set(n)))
            },
        ),
{
    let ts = number_set_tokens(m) + seq![op] + number_set_tokens(n);
    assert(ts =~= seq![Tok::OpenSet, Tok::Num(m), Tok::CloseSet, op, Tok::OpenSet, Tok::Num(n), Tok::CloseSet]);
    lemma_number_set(ts, 0, m);
    lemma_number_set(ts, 4, n);
    let e = if op == Tok::Union {
        Ex::Union(Box::new(number_set(m)), Box::new(number_set(n)))
    } else {
        Ex::Intersection(Box::new(number_set(m)), Box::new(number_set(n)))
    };
    let r = crate::parser::Parsed { ex: e, next: 7, ok: true };
    assert(crate::parser::set_tail(ts, 7, e, true) == Some(r));
    assert(crate::parser::set_tail(ts, 3, number_set(m), true) == Some(r));
    assert(crate::parser::p_set_op(ts, 0) == Some(r));
    assert(crate::parser::p_expr(ts, 0) == Some(r));
}

/// The union sign between two sets parses as their union, and the intersection sign as
/// their intersection: `{m} ∪ {n}` and `{m} ∩ {n}`, for all numbers `m` and `n`.
pub proof fn law_set_operators(m: nat, n: nat)
    ensures
        parse_spec(number_set_tokens(m) + seq![Tok::Union] + number_set_tokens(n)) == Some(
            Ex::Union(Box::new(number_set(m)), Box::new(number_set(n))),
        ),
        parse_spec(number_set_tokens(m) + seq![Tok::Intersection] + number_set_tokens(n)) == Some(
            Ex::Intersection(Box::new(number_set(m)), Box::new(number_set(n))),
        ),
{
    lemma_set_pair(m, n, Tok::Union);
    lemma_set_pair(m, n, Tok::Intersection);
}

proof fn lemma_multi_terms_find(cs: Seq<Seq<Row>>, n: nat, i: int) -> (k: int)
    requires
        0 <= i < cs.len(),
        cs[i][0].kind == BoxKind::Polynum,
        cs[i][2].mult == n,
    ensures
        0 <= k < multi_terms(cs, n).len(),
        multi_terms(cs, n)[k] == term_derivative(cs[i], 3),
    decreases cs.len(),
{
    let d = cs.drop_last();
    if i == cs.len() - 1 {
        assert(multi_terms(cs, n) == multi_terms(d, n).push(term_derivative(cs.last(), 3)));
        multi_terms(d, n).len() as int
    } else {
        assert(d[i] == cs[i]);
        let k = lemma_multi_terms_find(d, n, i);
        if cs.last()[0].kind == BoxKind::Polynum && cs.last()[2].mult == n {
            assert(multi_terms(cs, n) == multi_terms(d, n).push(term_derivative(cs.last(), 3)));
        }
        k
    }
}

proof fn lemma_multi_terms_nonempty(cs: Seq<Seq<Row>>, n: nat)
    requires
        multi_terms_readable(cs),
    ensures
        forall|k: int| 0 <= k < multi_terms(cs, n).len() ==> (#[trigger] multi_terms(cs, n)[k]).len() > 0,
    decreases cs.len(),
{
    if cs.len() > 0 {
        let d = cs.drop_last();
        assert(multi_terms_readable(d)) by {
            assert forall|i: int| 0 <= i < d.len() && (#[trigger] d[i])[0].kind == BoxKind::Polynum implies d[i].len() >= 3 by {
                assert(d[i] == cs[i]);
            }
        }
        lemma_multi_terms_nonempty(d, n);
        if cs.last()[0].kind == BoxKind::Polynum && cs.last()[2].mult == n {
            let t = cs.last();
            assert(cs[cs.len() - 1] == t);
            let ps = multi_terms(d, n).push(term_derivative(t, 3));
            assert(multi_terms(cs, n) == ps);
            assert forall|k: int| 0 <= k < ps.len() implies (#[trigger] ps[k]).len() > 0 by {
                if k < multi_terms(d, n).len() {
                    assert(ps[k] == multi_terms(d, n)[k]);
                }
            }
        }
    }
}

/// The derivative of a multinumber in the variable with index `n` holds, for every term
/// `c·βₙᵉ` in that variable, the term `(c·e)·βₙᵉ⁻¹`: at some row `p` of the result the rows
/// of the term reappear with the coefficient `c·e` and, for `e ≥ 2`, the exponent `e - 1`;
/// for `e ≤ 1` they give the constant `c·e`.
pub proof fn law_multi_derivative(a: Seq<Row>, n: nat, i: int) -> (p: int)
    requires
        0 <= i < children(a).len(),
        children(a)[i][0].kind == BoxKind::Polynum,
        children(a)[i][2].mult == n,
        multi_terms_readable(children(a)),
    ensures
        ({
            let t = children(a)[i];
            let d = multi_derivative(a, n);
            &&& 0 < p < d.len()
            &&& d[p].mult == t[0].mult * t[1].mult
            &&& d[p].color == t[0].color
            &&& t[1].mult >= 2 ==> p + t.len() <= d.len() && d[p].kind == t[0].kind && d[p + 1].mult == t[1].mult - 1
                && d[p + 1].kind == t[1].kind && d[p + 1].color == t[1].color && d.subrange(p + 2, p + t.len())
                == t.skip(2)
            &&& t[1].mult <= 1 ==> d[p].kind == BoxKind::Empty && d[p].len == 1
        }),
{
    let cs = children(a);
    let t = cs[i];
    assert(t.len() >= 3);
    let ts = multi_terms(cs, n);
    lemma_multi_terms_nonempty(cs, n);
    let k = lemma_multi_terms_find(cs, n, i);
    let kind = if crate::derivative::max_root_len(ts) == 1 {
        BoxKind::Num
    } else if crate::derivative::max_root_len(ts) == 0 {
        BoxKind::Empty
    } else {
        a[0].kind
    };
    let h = seq![Row { kind, color: a[0].color, mult: a[0].mult, len: 1 }];
    let d = multi_derivative(a, n);
    assert(d == extend_all(h, ts));
    lemma_extend_all_rows(h, ts);
    lemma_flatten_at(ts, k);
    let o = crate::model::flatten(ts.take(k)).len() as int;
    let f = crate::model::flatten(ts);
    let u = ts[k];
    assert(u == term_derivative(t, 3));
    assert forall|m: int| 0 <= m < u.len() implies d[1 + o + m] == u[m] by {
        assert(d.skip(1)[o + m] == d[1 + o + m]);
        assert(f.subrange(o, o + u.len())[m] == f[o + m]);
    }
    let p = 1 + o;
    if t[1].mult >= 2 {
        assert(u.len() == t.len());
        assert(d[p] == u[0]);
        assert(d[p + 1] == u[1]);
        assert(d.subrange(p + 2, p + t.len()) =~= t.skip(2)) by {
            assert forall|m: int| 0 <= m < t.len() - 2 implies d.subrange(p + 2, p + t.len())[m] == t.skip(2)[m] by {
                assert(d[p + 2 + m] == u[2 + m]);
            }
        }
    } else {
        assert(d[p] == u[0]);
    }
    p
}

/// A number not followed by an exponent parses as that number at the level of powers.
proof fn lemma_number_power(ts: Seq<Tok>, i: int, k: nat)
    requires
        0 <= i < ts.len(),
        ts[i] == Tok::Num(k),
        crate::parser::tok_at(ts, i + 1) != Some(Tok::Caret),
        !(crate::parser::tok_at(ts, i + 1) matches Some(Tok::Superscript(_))),
    ensures
        crate::parser::p_caret(ts, i) == Some(crate::parser::Parsed { ex: Ex::Num(k), next: i + 1, ok: true }),
        crate::parser::p_bracketed(ts, i, crate::parser::Shape::SetShape, crate::parser::Item::Plain) is None,
{
    let r = crate::parser::Parsed { ex: Ex::Num(k), next: i + 1, ok: true };
    assert(crate::parser::minus_run(ts, i) == 0);
    assert(crate::parser::sub_opt(ts, i) == (Option::<nat>::None, i));
    assert(crate::parser::p_number(ts, i) == Some(r));
    assert(crate::parser::p_base(ts, i) == Some(r));
    assert(crate::parser::negated(crate::parser::with_pre(None, Ex::Num(k)), 0) == Ex::Num(k));
    assert(crate::parser::p_atom(ts, i) == Some(r));
    assert(crate::parser::colored(ts, i, Tok::OpenSet) is None);
}

/// The node that an arithmetic sign builds.
pub open spec fn arith_node(op: Tok, x: Ex, y: Ex) -> Ex {
    match op {
        Tok::Plus => Ex::Add(Box::new(x), Box::new(y)),
        Tok::Minus => Ex::Sub(Box::new(x), Box::new(y)),
        Tok::Multiply => Ex::Mul(Box::new(x), Box::new(y)),
        Tok::Divide => Ex::Div(Box::new(x), Box::new(y)),
        _ => Ex::Rem(Box::new(x), Box::new(y)),
    }
}

/// Each arithmetic sign between two numbers parses as its own operation: `m + n` as a sum,
/// `m - n` as a difference, `m * n` as a product, `m / n` as a quotient and `m % n` as a
/// remainder, for all numbers `m` and `n`.
pub proof fn law_arithmetic_operators(m: nat, n: nat, op: Tok)
    requires
        op == Tok::Plus || op == Tok::Minus || op == Tok::Multiply || op == Tok::Divide || op == Tok::Remainder,
    ensures
        parse_spec(seq![Tok::Num(m), op, Tok::Num(n)]) == Some(arith_node(op, Ex::Num(m), Ex::Num(n))),
{
    let ts = seq![Tok::Num(m), op, Tok::Num(n)];
    lemma_number_power(ts, 0, m);
    lemma_number_power(ts, 2, n);
    let e = arith_node(op, Ex::Num(m), Ex::Num(n));
    let r = crate::parser::Parsed { ex: e, next: 3, ok: true };
    assert(crate::parser::p_set_op(ts, 0) is None);
    if op == Tok::Plus || op == Tok::Minus {
        let a = crate::parser::Parsed { ex: Ex::Num(m), next: 1, ok: true };
        let b = crate::parser::Parsed { ex: Ex::Num(n), next: 3, ok: true };
        assert(crate::parser::prod_tail(ts, 1, Ex::Num(m), true) == Some(a));
        assert(crate::parser::p_prod(ts, 0) == Some(a));
        assert(crate::parser::prod_tail(ts, 3, Ex::Num(n), true) == Some(b));
        assert(crate::parser::p_prod(ts, 2) == Some(b));
        assert(crate::parser::sum_tail(ts, 3, e, true) == Some(r));
        assert(crate::parser::sum_tail(ts, 1, Ex::Num(m), true) == Some(r));
    } else {
        assert(crate::parser::prod_tail(ts, 3, e, true) == Some(r));
        assert(crate::parser::prod_tail(ts, 1, Ex::Num(m), true) == Some(r));
        assert(crate::parser::p_prod(ts, 0) == Some(r));
        assert(crate::parser::sum_tail(ts, 3, e, true) == Some(r));
    }
    assert(crate::parser::p_sum(ts, 0) == Some(r));
    assert(crate::parser::p_expr(ts, 0) == Some(r));
}

} // verus!
