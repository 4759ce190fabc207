//! The order in which the children of a box are kept.
//!
//! Children are kept with the larger sequence of multiplicities first, and
//! among equal multiplicities red before black, comparing sequences
//! lexicographically.  The total order additionally breaks ties by the
//! sequences of lengths and of kinds.
use crate::model::Row;
use crate::value::BoxValue;
use crate::{AnyBox, BoxKind, Color};
use vstd::prelude::*;

verus! {

/// Lexicographic comparison of integer sequences: -1, 0 or 1.
pub open spec fn lex(a: Seq<int>, b: Seq<int>) -> int
    decreases a.len(),
{
    if a.len() == 0 {
        if b.len() == 0 {
            0
        } else {
            -1
        }
    } else if b.len() == 0 {
        1
    } else if a[0] < b[0] {
        -1
    } else if a[0] > b[0] {
        1
    } else {
        lex(a.drop_first(), b.drop_first())
    }
}

/// The first comparison unless it is a tie.
pub open spec fn then(x: int, y: int) -> int {
    if x != 0 {
        x
    } else {
        y
    }
}

pub open spec fn color_rank(c: Color) -> int {
    match c {
        Color::Red => 0,
        Color::Black => 1,
    }
}

pub open spec fn kind_rank(k: BoxKind) -> int {
    match k {
        BoxKind::Any => 0,
        BoxKind::Empty => 1,
        BoxKind::Num => 2,
        BoxKind::Polynum => 3,
        BoxKind::Multinum => 4,
        BoxKind::Unixel => 5,
        BoxKind::Vexel => 6,
        BoxKind::Pixel => 7,
        BoxKind::Maxel => 8,
        BoxKind::SetBox => 9,
        BoxKind::List => 10,
    }
}

pub open spec fn mults_of(t: Seq<Row>) -> Seq<int> {
    Seq::new(t.len(), |i: int| t[i].mult as int)
}

pub open spec fn colors_of(t: Seq<Row>) -> Seq<int> {
    Seq::new(t.len(), |i: int| color_rank(t[i].color))
}

pub open spec fn lens_of(t: Seq<Row>) -> Seq<int> {
    Seq::new(t.len(), |i: int| t[i].len as int)
}

pub open spec fn kinds_of(t: Seq<Row>) -> Seq<int> {
    Seq::new(t.len(), |i: int| kind_rank(t[i].kind))
}

/// The comparison of boxes: larger multiplicities first, then red before black.
pub open spec fn key_order(a: Seq<Row>, b: Seq<Row>) -> int {
    then(lex(mults_of(b), mults_of(a)), lex(colors_of(a), colors_of(b)))
}

/// The comparison of boxes with ties broken by lengths and kinds.
pub open spec fn total_order(a: Seq<Row>, b: Seq<Row>) -> int {
    then(key_order(a, b), then(lex(lens_of(a), lens_of(b)), lex(kinds_of(a), kinds_of(b))))
}

/// The comparison selected by `total`.
pub open spec fn box_order(a: Seq<Row>, b: Seq<Row>, total: bool) -> int {
    if total {
        total_order(a, b)
    } else {
        key_order(a, b)
    }
}

/// Each box is at most the next ones.
pub open spec fn sorted_by(cs: Seq<Seq<Row>>, total: bool) -> bool {
    forall|i: int, j: int| 0 <= i < j < cs.len() ==> box_order(cs[i], cs[j], total) <= 0
}

/// Each box is strictly below the next ones in the total order.
pub open spec fn strictly_sorted(cs: Seq<Seq<Row>>) -> bool {
    forall|i: int, j: int| 0 <= i < j < cs.len() ==> total_order(cs[i], cs[j]) < 0
}

pub proof fn lemma_lex_range(a: Seq<int>, b: Seq<int>)
    ensures
        -1 <= lex(a, b) <= 1,
    decreases a.len(),
{
    if a.len() > 0 && b.len() > 0 && a[0] == b[0] {
        lemma_lex_range(a.drop_first(), b.drop_first());
    }
}

pub proof fn lemma_lex_antisym(a: Seq<int>, b: Seq<int>)
    ensures
        lex(a, b) == -lex(b, a),
    decreases a.len(),
{
    if a.len() > 0 && b.len() > 0 && a[0] == b[0] {
        lemma_lex_antisym(a.drop_first(), b.drop_first());
    }
}

pub proof fn lemma_lex_zero(a: Seq<int>, b: Seq<int>)
    ensures
        lex(a, b) == 0 <==> a == b,
    decreases a.len(),
{
    if a.len() > 0 && b.len() > 0 && a[0] == b[0] {
        lemma_lex_zero(a.drop_first(), b.drop_first());
        if a.drop_first() == b.drop_first() {
            assert(a =~= seq![a[0]] + a.drop_first());
            assert(b =~= seq![b[0]] + b.drop_first());
        }
        if a == b {
            assert(a.drop_first() =~= b.drop_first());
        }
    }
    if a.len() == 0 && b.len() == 0 {
        assert(a =~= b);
    }
}

pub proof fn lemma_lex_trans(a: Seq<int>, b: Seq<int>, c: Seq<int>)
    requires
        lex(a, b) <= 0,
        lex(b, c) <= 0,
    ensures
        lex(a, c) <= 0,
        (lex(a, b) < 0 || lex(b, c) < 0) ==> lex(a, c) < 0,
    decreases a.len(),
{
    if a.len() > 0 && b.len() > 0 && c.len() > 0 && a[0] == b[0] && b[0] == c[0] {
        lemma_lex_trans(a.drop_first(), b.drop_first(), c.drop_first());
    }
}

/// Facts about one component comparison used by the combined orders.
pub proof fn lemma_lex_facts(a: Seq<int>, b: Seq<int>)
    ensures
        lex(a, b) == -lex(b, a),
        lex(a, b) == 0 <==> a == b,
        -1 <= lex(a, b) <= 1,
{
    lemma_lex_antisym(a, b);
    lemma_lex_zero(a, b);
    lemma_lex_range(a, b);
}

pub proof fn lemma_rank_injective(c1: Color, c2: Color, k1: BoxKind, k2: BoxKind)
    ensures
        color_rank(c1) == color_rank(c2) ==> c1 == c2,
        kind_rank(k1) == kind_rank(k2) ==> k1 == k2,
{
    match c1 {
        Color::Red => {},
        Color::Black => {},
    }
    match k1 {
        BoxKind::Any => {},
        BoxKind::Empty => {},
        BoxKind::Num => {},
        BoxKind::Polynum => {},
        BoxKind::Multinum => {},
        BoxKind::Unixel => {},
        BoxKind::Vexel => {},
        BoxKind::Pixel => {},
        BoxKind::Maxel => {},
        BoxKind::SetBox => {},
        BoxKind::List => {},
    }
}

/// Boxes with equal projections are equal.
pub proof fn lemma_projections_eq(a: Seq<Row>, b: Seq<Row>)
    requires
        mults_of(a) == mults_of(b),
        colors_of(a) == colors_of(b),
        lens_of(a) == lens_of(b),
        kinds_of(a) == kinds_of(b),
    ensures
        a == b,
{
    assert(a.len() == mults_of(a).len());
    assert(b.len() == mults_of(b).len());
    assert forall|i: int| 0 <= i < a.len() implies a[i] == b[i] by {
        assert(mults_of(a)[i] == mults_of(b)[i]);
        assert(colors_of(a)[i] == colors_of(b)[i]);
        assert(lens_of(a)[i] == lens_of(b)[i]);
        assert(kinds_of(a)[i] == kinds_of(b)[i]);
        lemma_rank_injective(a[i].color, b[i].color, a[i].kind, b[i].kind);
        assert(mults_of(a)[i] == a[i].mult as int);
        assert(mults_of(b)[i] == b[i].mult as int);
        assert(lens_of(a)[i] == a[i].len as int);
        assert(lens_of(b)[i] == b[i].len as int);
        assert(colors_of(a)[i] == color_rank(a[i].color));
        assert(colors_of(b)[i] == color_rank(b[i].color));
        assert(kinds_of(a)[i] == kind_rank(a[i].kind));
        assert(kinds_of(b)[i] == kind_rank(b[i].kind));
        assert(a[i].mult == b[i].mult);
        assert(a[i].len == b[i].len);
        assert(a[i].color == b[i].color);
        assert(a[i].kind == b[i].kind);
    }
    assert(a =~= b);
}

/// The comparisons are antisymmetric, transitive, and the total one only ties on equal boxes.
pub proof fn lemma_order_facts(a: Seq<Row>, b: Seq<Row>, c: Seq<Row>, total: bool)
    ensures
        box_order(a, b, total) == -box_order(b, a, total),
        (box_order(a, b, total) <= 0 && box_order(b, c, total) <= 0) ==> box_order(a, c, total) <= 0,
        (box_order(a, b, total) <= 0 && box_order(b, c, total) < 0) ==> box_order(a, c, total) < 0,
        (box_order(a, b, total) < 0 && box_order(b, c, total) <= 0) ==> box_order(a, c, total) < 0,
        box_order(a, a, total) == 0,
        total_order(a, b) == 0 ==> a == b,
{
    lemma_lex_facts(mults_of(a), mults_of(b));
    lemma_lex_facts(mults_of(b), mults_of(c));
    lemma_lex_facts(mults_of(a), mults_of(c));
    lemma_lex_facts(colors_of(a), colors_of(b));
    lemma_lex_facts(colors_of(b), colors_of(c));
    lemma_lex_facts(colors_of(a), colors_of(c));
    lemma_lex_facts(lens_of(a), lens_of(b));
    lemma_lex_facts(lens_of(b), lens_of(c));
    lemma_lex_facts(lens_of(a), lens_of(c));
    lemma_lex_facts(kinds_of(a), kinds_of(b));
    lemma_lex_facts(kinds_of(b), kinds_of(c));
    lemma_lex_facts(kinds_of(a), kinds_of(c));
    lemma_lex_facts(mults_of(a), mults_of(a));
    lemma_lex_facts(colors_of(a), colors_of(a));
    lemma_lex_facts(lens_of(a), lens_of(a));
    lemma_lex_facts(kinds_of(a), kinds_of(a));
    if lex(mults_of(c), mults_of(b)) <= 0 && lex(mults_of(b), mults_of(a)) <= 0 {
        lemma_lex_trans(mults_of(c), mults_of(b), mults_of(a));
    }
    if lex(colors_of(a), colors_of(b)) <= 0 && lex(colors_of(b), colors_of(c)) <= 0 {
        lemma_lex_trans(colors_of(a), colors_of(b), colors_of(c));
    }
    if lex(lens_of(a), lens_of(b)) <= 0 && lex(lens_of(b), lens_of(c)) <= 0 {
        lemma_lex_trans(lens_of(a), lens_of(b), lens_of(c));
    }
    if lex(kinds_of(a), kinds_of(b)) <= 0 && lex(kinds_of(b), kinds_of(c)) <= 0 {
        lemma_lex_trans(kinds_of(a), kinds_of(b), kinds_of(c));
    }
    if total_order(a, b) == 0 {
        lemma_projections_eq(a, b);
    }
}

/// Compares two natural sequences of rows by one projection, on the range `start..end` of `a`
/// and `bstart..bend` of `b`, lexicographically.
pub(crate) fn lex_mults(a: &BoxValue<AnyBox>, b: &BoxValue<AnyBox>) -> (r: i8)
    requires
        a.inv(),
        b.inv(),
    ensures
        r as int == lex(mults_of(a@), mults_of(b@)),
{
    let n = a.kinds.len();
    let m = b.kinds.len();
    let mut i: usize = 0;
    proof {
        assert(mults_of(a@).skip(0) =~= mults_of(a@));
        assert(mults_of(b@).skip(0) =~= mults_of(b@));
    }
    while i < n && i < m
        invariant
            a.inv(),
            b.inv(),
            n == a@.len(),
            m == b@.len(),
            i <= n,
            i <= m,
            lex(mults_of(a@), mults_of(b@)) == lex(
                mults_of(a@).skip(i as int),
                mults_of(b@).skip(i as int),
            ),
        decreases n - i,
    {
        let x = &a.multiplicities[i];
        let y = &b.multiplicities[i];
        proof {
            assert(mults_of(a@).skip(i as int)[0] == x@);
            assert(mults_of(b@).skip(i as int)[0] == y@);
        }
        if x.lt(y) {
            return -1;
        }
        if y.lt(x) {
            return 1;
        }
        proof {
            assert(mults_of(a@).skip(i as int).drop_first() =~= mults_of(a@).skip(i + 1));
            assert(mults_of(b@).skip(i as int).drop_first() =~= mults_of(b@).skip(i + 1));
        }
        i = i + 1;
    }
    if i < n {
        1
    } else if i < m {
        -1
    } else {
        0
    }
}

pub(crate) fn lex_colors(a: &BoxValue<AnyBox>, b: &BoxValue<AnyBox>) -> (r: i8)
    requires
        a.inv(),
        b.inv(),
    ensures
        r as int == lex(colors_of(a@), colors_of(b@)),
{
    let n = a.kinds.len();
    let m = b.kinds.len();
    let mut i: usize = 0;
    proof {
        assert(colors_of(a@).skip(0) =~= colors_of(a@));
        assert(colors_of(b@).skip(0) =~= colors_of(b@));
    }
    while i < n && i < m
        invariant
            a.inv(),
            b.inv(),
            n == a@.len(),
            m == b@.len(),
            i <= n,
            i <= m,
            lex(colors_of(a@), colors_of(b@)) == lex(
                colors_of(a@).skip(i as int),
                colors_of(b@).skip(i as int),
            ),
        decreases n - i,
    {
        let x = a.colors[i];
        let y = b.colors[i];
        proof {
            assert(colors_of(a@).skip(i as int)[0] == color_rank(x));
            assert(colors_of(b@).skip(i as int)[0] == color_rank(y));
        }
        if x == Color::Red && y == Color::Black {
            return -1;
        }
        if x == Color::Black && y == Color::Red {
            return 1;
        }
        proof {
            assert(colors_of(a@).skip(i as int).drop_first() =~= colors_of(a@).skip(i + 1));
            assert(colors_of(b@).skip(i as int).drop_first() =~= colors_of(b@).skip(i + 1));
        }
        i = i + 1;
    }
    if i < n {
        1
    } else if i < m {
        -1
    } else {
        0
    }
}

fn lex_lens(a: &BoxValue<AnyBox>, b: &BoxValue<AnyBox>) -> (r: i8)
    requires
        a.inv(),
        b.inv(),
    ensures
        r as int == lex(lens_of(a@), lens_of(b@)),
{
    let n = a.kinds.len();
    let m = b.kinds.len();
    let mut i: usize = 0;
    proof {
        assert(lens_of(a@).skip(0) =~= lens_of(a@));
        assert(lens_of(b@).skip(0) =~= lens_of(b@));
    }
    while i < n && i < m
        invariant
            a.inv(),
            b.inv(),
            n == a@.len(),
            m == b@.len(),
            i <= n,
            i <= m,
            lex(lens_of(a@), lens_of(b@)) == lex(
                lens_of(a@).skip(i as int),
                lens_of(b@).skip(i as int),
            ),
        decreases n - i,
    {
        let x = a.lengths[i];
        let y = b.lengths[i];
        proof {
            assert(lens_of(a@).skip(i as int)[0] == x as int);
            assert(lens_of(b@).skip(i as int)[0] == y as int);
        }
        if x < y {
            return -1;
        }
        if y < x {
            return 1;
        }
        proof {
            assert(lens_of(a@).skip(i as int).drop_first() =~= lens_of(a@).skip(i + 1));
            assert(lens_of(b@).skip(i as int).drop_first() =~= lens_of(b@).skip(i + 1));
        }
        i = i + 1;
    }
    if i < n {
        1
    } else if i < m {
        -1
    } else {
        0
    }
}

/// The rank of a kind as a machine integer.
fn kind_index(k: BoxKind) -> (r: u8)
    ensures
        r as int == kind_rank(k),
{
    match k {
        BoxKind::Any => 0,
        BoxKind::Empty => 1,
        BoxKind::Num => 2,
        BoxKind::Polynum => 3,
        BoxKind::Multinum => 4,
        BoxKind::Unixel => 5,
        BoxKind::Vexel => 6,
        BoxKind::Pixel => 7,
        BoxKind::Maxel => 8,
        BoxKind::SetBox => 9,
        BoxKind::List => 10,
    }
}

fn lex_kinds(a: &BoxValue<AnyBox>, b: &BoxValue<AnyBox>) -> (r: i8)
    requires
        a.inv(),
        b.inv(),
    ensures
        r as int == lex(kinds_of(a@), kinds_of(b@)),
{
    let n = a.kinds.len();
    let m = b.kinds.len();
    let mut i: usize = 0;
    proof {
        assert(kinds_of(a@).skip(0) =~= kinds_of(a@));
        assert(kinds_of(b@).skip(0) =~= kinds_of(b@));
    }
    while i < n && i < m
        invariant
            a.inv(),
            b.inv(),
            n == a@.len(),
            m == b@.len(),
            i <= n,
            i <= m,
            lex(kinds_of(a@), kinds_of(b@)) == lex(
                kinds_of(a@).skip(i as int),
                kinds_of(b@).skip(i as int),
            ),
        decreases n - i,
    {
        let x = kind_index(a.kinds[i]);
        let y = kind_index(b.kinds[i]);
        proof {
            assert(kinds_of(a@).skip(i as int)[0] == x as int);
            assert(kinds_of(b@).skip(i as int)[0] == y as int);
        }
        if x < y {
            return -1;
        }
        if y < x {
            return 1;
        }
        proof {
            assert(kinds_of(a@).skip(i as int).drop_first() =~= kinds_of(a@).skip(i + 1));
            assert(kinds_of(b@).skip(i as int).drop_first() =~= kinds_of(b@).skip(i + 1));
        }
        i = i + 1;
    }
    if i < n {
        1
    } else if i < m {
        -1
    } else {
        0
    }
}

/// Compares two boxes by multiplicities then colors, and with `total` also by lengths and kinds.
pub fn compare_boxes(a: &BoxValue<AnyBox>, b: &BoxValue<AnyBox>, total: bool) -> (r: i8)
    requires
        a.inv(),
        b.inv(),
    ensures
        r as int == box_order(a@, b@, total),
{
    let m = lex_mults(b, a);
    if m != 0 {
        return m;
    }
    let c = lex_colors(a, b);
    if c != 0 || !total {
        return c;
    }
    let l = lex_lens(a, b);
    if l != 0 {
        return l;
    }
    lex_kinds(a, b)
}

} // verus!
