//! The box value: a box stored row by row in four parallel vectors.
use crate::model::{is_forest, is_tree, row_with_len, Row};
use crate::natural::Natural;
use crate::{AnyBox, BoxKind, BoxType, Color, EmptyBox, MultinumBox, NumBox, PolynumBox};
use core::marker::PhantomData;
use vstd::prelude::*;

verus! {

/// A box stored in pre-order, one row per box: its kind, color, multiplicity
/// and number of rows of the subtree it starts.
#[derive(Debug, PartialEq, Eq, Hash)]
pub struct BoxValue<T: BoxType> {
    pub kinds: Vec<BoxKind>,
    pub colors: Vec<Color>,
    pub multiplicities: Vec<Natural>,
    pub lengths: Vec<u32>,
    pub _marker: PhantomData<T>,
}

impl<T: BoxType> Clone for BoxValue<T> {
    fn clone(&self) -> (r: Self) {
        BoxValue {
            kinds: self.kinds.clone(),
            colors: self.colors.clone(),
            multiplicities: self.multiplicities.clone(),
            lengths: self.lengths.clone(),
            _marker: PhantomData,
        }
    }
}

impl<T: BoxType> View for BoxValue<T> {
    type V = Seq<Row>;

    open spec fn view(&self) -> Seq<Row> {
        Seq::new(
            self.kinds@.len(),
            |i: int|
                Row {
                    kind: self.kinds@[i],
                    color: self.colors@[i],
                    mult: self.multiplicities@[i]@,
                    len: self.lengths@[i] as nat,
                },
        )
    }
}

/// A row with a new multiplicity.
pub open spec fn row_with_mult(r: Row, mult: nat) -> Row {
    Row { kind: r.kind, color: r.color, mult, len: r.len }
}

/// A row with a new color.
pub open spec fn row_with_color(r: Row, color: Color) -> Row {
    Row { kind: r.kind, color, mult: r.mult, len: r.len }
}

/// A row with a new kind.
pub open spec fn row_with_kind(r: Row, kind: BoxKind) -> Row {
    Row { kind, color: r.color, mult: r.mult, len: r.len }
}

/// The first row of a box with the given kind, color and multiplicity that has no rows yet
/// besides itself.
pub open spec fn head_row(kind: BoxKind, color: Color, mult: nat) -> Row {
    Row { kind, color, mult, len: 1 }
}

/// The rows that `extend` produces from `a` and `b`.
pub open spec fn extended(a: Seq<Row>, b: Seq<Row>) -> Seq<Row> {
    if a.len() > 0 {
        a.update(0, row_with_len(a[0], a[0].len + b[0].len)) + b
    } else {
        a + b
    }
}

/// The rows that `wrap` produces: a new first row holding the box with its multiplicity scaled.
pub open spec fn wrapped(kind: BoxKind, t: Seq<Row>, mul: nat) -> Seq<Row> {
    seq![Row { kind, color: Color::Black, mult: 1, len: 1 + t[0].len }] + t.update(
        0,
        row_with_mult(t[0], mul * t[0].mult),
    )
}

impl<T: BoxType> BoxValue<T> {
    /// The four vectors have the same length.
    pub open spec fn inv(&self) -> bool {
        &&& self.colors@.len() == self.kinds@.len()
        &&& self.multiplicities@.len() == self.kinds@.len()
        &&& self.lengths@.len() == self.kinds@.len()
    }

    /// The rows form one box.
    pub open spec fn wf(&self) -> bool {
        self.inv() && is_tree(self@)
    }

    /// Initializes an empty raw box
    pub fn new() -> (r: Self)
        ensures
            r.inv(),
            r@ == Seq::<Row>::empty(),
    {
        let r = BoxValue {
            kinds: Vec::new(),
            colors: Vec::new(),
            multiplicities: Vec::new(),
            lengths: Vec::new(),
            _marker: PhantomData,
        };
        proof {
            assert(r@ =~= Seq::<Row>::empty());
        }
        r
    }

    /// Constructs a box from the given vectors
    pub fn new_with(
        kinds: Vec<BoxKind>,
        colors: Vec<Color>,
        multiplicities: Vec<Natural>,
        lengths: Vec<u32>,
    ) -> (r: Self)
        ensures
            r.kinds@ == kinds@,
            r.colors@ == colors@,
            r.multiplicities@ == multiplicities@,
            r.lengths@ == lengths@,
    {
        BoxValue { kinds, colors, multiplicities, lengths, _marker: PhantomData }
    }

    /// Returns the kind of box
    pub fn kind(&self) -> (r: BoxKind)
        ensures
            r == T::KIND,
    {
        T::KIND
    }

    /// Returns the number of rows.
    pub fn rows(&self) -> (r: usize)
        requires
            self.inv(),
        ensures
            r == self@.len(),
    {
        self.kinds.len()
    }

    /// Returns the k-th kind
    pub fn get_kind(&self, index: usize) -> (r: BoxKind)
        requires
            self.inv(),
            index < self@.len(),
        ensures
            r == self@[index as int].kind,
    {
        self.kinds[index]
    }

    /// Returns the k-th color
    pub fn get_color(&self, index: usize) -> (r: Color)
        requires
            self.inv(),
            index < self@.len(),
        ensures
            r == self@[index as int].color,
    {
        self.colors[index]
    }

    /// Returns the k-th multiplicity
    pub fn get_multiplicity(&self, index: usize) -> (r: Natural)
        requires
            self.inv(),
            index < self@.len(),
        ensures
            r@ == self@[index as int].mult,
    {
        self.multiplicities[index].copy()
    }

    /// Returns the k-th length
    pub fn get_length(&self, index: usize) -> (r: u32)
        requires
            self.inv(),
            index < self@.len(),
        ensures
            r as nat == self@[index as int].len,
    {
        self.lengths[index]
    }

    /// Set the k-th kind
    pub fn set_kind(&mut self, index: usize, kind: BoxKind)
        requires
            old(self).inv(),
            index < old(self)@.len(),
        ensures
            final(self).inv(),
            final(self)@ == old(self)@.update(index as int, row_with_kind(old(self)@[index as int], kind)),
    {
        self.kinds.set(index, kind);
        proof {
            assert(self@ =~= old(self)@.update(index as int, row_with_kind(old(self)@[index as int], kind)));
        }
    }

    /// Set the k-th color
    pub fn set_color(&mut self, index: usize, col: Color)
        requires
            old(self).inv(),
            index < old(self)@.len(),
        ensures
            final(self).inv(),
            final(self)@ == old(self)@.update(index as int, row_with_color(old(self)@[index as int], col)),
    {
        self.colors.set(index, col);
        proof {
            assert(self@ =~= old(self)@.update(index as int, row_with_color(old(self)@[index as int], col)));
        }
    }

    /// Set the k-th multiplicity
    pub fn set_multiplicity(&mut self, index: usize, mul: Natural)
        requires
            old(self).inv(),
            index < old(self)@.len(),
        ensures
            final(self).inv(),
            final(self)@ == old(self)@.update(index as int, row_with_mult(old(self)@[index as int], mul@)),
    {
        let ghost m = mul@;
        self.multiplicities.set(index, mul);
        proof {
            assert(self@ =~= old(self)@.update(index as int, row_with_mult(old(self)@[index as int], m)));
        }
    }

    /// Set the k-th length
    pub fn set_length(&mut self, index: usize, len: u32)
        requires
            old(self).inv(),
            index < old(self)@.len(),
        ensures
            final(self).inv(),
            final(self)@ == old(self)@.update(index as int, row_with_len(old(self)@[index as int], len as nat)),
    {
        self.lengths.set(index, len);
        proof {
            assert(self@ =~= old(self)@.update(index as int, row_with_len(old(self)@[index as int], len as nat)));
        }
    }

    /// Remove the k-th row (without adjusting the lengths)
    pub fn remove(&mut self, index: usize)
        requires
            old(self).inv(),
            index < old(self)@.len(),
        ensures
            final(self).inv(),
            final(self)@ == old(self)@.remove(index as int),
    {
        self.kinds.remove(index);
        self.colors.remove(index);
        self.multiplicities.remove(index);
        self.lengths.remove(index);
        proof {
            assert(self@ =~= old(self)@.remove(index as int));
        }
    }

    /// Appends one row at the end.
    pub fn push_row(&mut self, kind: BoxKind, color: Color, mult: Natural, len: u32)
        requires
            old(self).inv(),
        ensures
            final(self).inv(),
            final(self)@ == old(self)@.push(Row { kind, color, mult: mult@, len: len as nat }),
    {
        let ghost m = mult@;
        self.kinds.push(kind);
        self.colors.push(color);
        self.multiplicities.push(mult);
        self.lengths.push(len);
        proof {
            assert(self@ =~= old(self)@.push(Row { kind, color, mult: m, len: len as nat }));
        }
    }

    /// Push a single row
    pub fn push(&mut self, kind: BoxKind, color: Color, multiplicity: Natural)
        requires
            old(self).inv(),
            old(self)@.len() > 0,
            old(self)@[0].len < u32::MAX,
        ensures
            final(self).inv(),
            final(self)@ == old(self)@.push(Row { kind, color, mult: multiplicity@, len: 1 }).update(
                0,
                row_with_len(old(self)@[0], old(self)@[0].len + 1),
            ),
    {
        self.push_row(kind, color, multiplicity, 1);
        let l = self.get_length(0);
        self.set_length(0, l + 1);
    }

    /// Appends the rows of another box, leaving all lengths as they are.
    pub fn append_rows<U: BoxType>(&mut self, value: BoxValue<U>)
        requires
            old(self).inv(),
            value.inv(),
        ensures
            final(self).inv(),
            final(self)@ == old(self)@ + value@,
    {
        let mut value = value;
        let ghost v = value@;
        self.kinds.append(&mut value.kinds);
        self.colors.append(&mut value.colors);
        self.multiplicities.append(&mut value.multiplicities);
        self.lengths.append(&mut value.lengths);
        proof {
            assert(self@ =~= old(self)@ + v);
        }
    }

    /// Extends the box with another box
    pub fn extend<U: BoxType>(&mut self, value: BoxValue<U>)
        requires
            old(self).inv(),
            value.inv(),
            value@.len() > 0,
            old(self)@.len() > 0 ==> old(self)@[0].len + value@[0].len <= u32::MAX,
        ensures
            final(self).inv(),
            final(self)@ == extended(old(self)@, value@),
    {
        if self.lengths.len() > 0 {
            let l = self.lengths[0];
            let add = value.lengths[0];
            self.set_length(0, l + add);
        }
        self.append_rows(value);
    }

    /// Extends the box with another box and outer multiplicity
    pub fn extend_with_mul<U: BoxType>(&mut self, value: BoxValue<U>, mul: Natural)
        requires
            old(self).inv(),
            value.inv(),
            value@.len() > 0,
            old(self)@.len() > 0 ==> old(self)@[0].len + value@[0].len <= u32::MAX,
        ensures
            final(self).inv(),
            final(self)@ == extended(old(self)@, value@.update(0, row_with_mult(value@[0], mul@))),
    {
        let mut value = value;
        value.set_multiplicity(0, mul);
        self.extend(value);
    }

    /// A copy of the rows `start..end`.
    pub fn slice(&self, start: usize, end: usize) -> (r: BoxValue<AnyBox>)
        requires
            self.inv(),
            start <= end <= self@.len(),
        ensures
            r.inv(),
            r@ == self@.subrange(start as int, end as int),
    {
        let mut r = BoxValue::<AnyBox>::new();
        let mut i = start;
        while i < end
            invariant
                self.inv(),
                start <= i <= end <= self@.len(),
                r.inv(),
                r@ == self@.subrange(start as int, i as int),
            decreases end - i,
        {
            let m = self.multiplicities[i].copy();
            r.push_row(self.kinds[i], self.colors[i], m, self.lengths[i]);
            i = i + 1;
            proof {
                assert(r@ =~= self@.subrange(start as int, i as int));
            }
        }
        r
    }

    /// A copy of the whole box.
    pub fn duplicate(&self) -> (r: Self)
        requires
            self.inv(),
        ensures
            r.inv(),
            r@ == self@,
    {
        let n = self.kinds.len();
        let s = self.slice(0, n);
        proof {
            assert(s@ =~= self@);
        }
        s.cast()
    }

    /// Casts this box to another box type
    pub fn cast<U: BoxType>(self) -> (r: BoxValue<U>)
        ensures
            r.kinds@ == self.kinds@,
            r.colors@ == self.colors@,
            r.multiplicities@ == self.multiplicities@,
            r.lengths@ == self.lengths@,
            r@ == self@,
            self.inv() ==> r.inv(),
    {
        let r = BoxValue::<U>::new_with(self.kinds, self.colors, self.multiplicities, self.lengths);
        proof {
            assert(r@ =~= self@);
        }
        r
    }

    /// Tests if the box is an anti-box
    pub fn is_anti(&self) -> (r: bool)
        requires
            self.inv(),
            self@.len() > 0,
        ensures
            r == (self@[0].color == Color::Red),
    {
        self.get_color(0) == Color::Red
    }

    /// Invert the color of the box
    pub fn into_anti(self) -> (r: Self)
        requires
            self.inv(),
            self@.len() > 0,
        ensures
            r.inv(),
            r@ == self@.update(0, row_with_color(self@[0], crate::color_flip(self@[0].color))),
    {
        let mut s = self;
        let col = s.get_color(0);
        if col == Color::Black {
            s.set_color(0, Color::Red);
        } else {
            s.set_color(0, Color::Black);
        }
        s
    }

    /// Wrap a box in another box and apply the given multiplicity
    pub fn wrap<U: BoxType>(self, mul: Natural) -> (r: BoxValue<U>)
        requires
            self.inv(),
            self@.len() > 0,
            self@[0].len < u32::MAX,
        ensures
            r.inv(),
            r@ == wrapped(U::KIND, self@, mul@),
    {
        let mut s = self;
        let prev_mul = s.get_multiplicity(0);
        s.set_multiplicity(0, mul.mul(&prev_mul));
        let mut result = BoxValue::<U>::new();
        result.push_row(U::KIND, Color::Black, Natural::one(), 1);
        let ghost before = result@;
        result.extend(s);
        proof {
            assert(result@ =~= wrapped(U::KIND, self@, mul@));
        }
        result
    }
}

/// A row.
pub open spec fn mk_row(kind: BoxKind, color: Color, mult: nat, len: nat) -> Row {
    Row { kind, color, mult, len }
}

/// A box of the given kind and color without children.
pub open spec fn leaf_rows(kind: BoxKind, color: Color) -> Seq<Row> {
    seq![mk_row(kind, color, 1, 1)]
}

/// The number one with the given outer color.
pub open spec fn one_rows(color: Color) -> Seq<Row> {
    seq![mk_row(BoxKind::Num, color, 1, 2), mk_row(BoxKind::Empty, Color::Black, 1, 1)]
}

/// The variable alpha with the given outer color.
pub open spec fn alpha_rows(color: Color) -> Seq<Row> {
    seq![
        mk_row(BoxKind::Polynum, color, 1, 3),
        mk_row(BoxKind::Num, Color::Black, 1, 2),
        mk_row(BoxKind::Empty, Color::Black, 1, 1),
    ]
}

/// The variable beta with index `n` and the given outer color; index zero gives alpha.
pub open spec fn beta_rows(color: Color, n: nat) -> Seq<Row> {
    if n > 0 {
        seq![
            mk_row(BoxKind::Multinum, color, 1, 4),
            mk_row(BoxKind::Polynum, Color::Black, 1, 3),
            mk_row(BoxKind::Num, Color::Black, 1, 2),
            mk_row(BoxKind::Empty, Color::Black, n, 1),
        ]
    } else {
        alpha_rows(color)
    }
}

/// The box of an integer: an empty box for zero, otherwise a number box holding one empty
/// box with the absolute value as multiplicity, red when the integer is negative.
pub open spec fn int_rows(v: int) -> Seq<Row> {
    if v == 0 {
        leaf_rows(BoxKind::Empty, Color::Black)
    } else {
        seq![
            mk_row(BoxKind::Num, Color::Black, 1, 2),
            mk_row(
                BoxKind::Empty,
                if v > 0 { Color::Black } else { Color::Red },
                (if v > 0 { v } else { -v }) as nat,
                1,
            ),
        ]
    }
}

impl BoxValue<AnyBox> {
    /// Construct an empty box
    pub fn empty() -> (r: Self)
        ensures
            r.wf(),
            r@ == leaf_rows(BoxKind::Any, Color::Black),
    {
        let mut r = BoxValue::new();
        r.push_row(BoxKind::Any, Color::Black, Natural::one(), 1);
        proof {
            assert(r@ =~= leaf_rows(BoxKind::Any, Color::Black));
            assert(r@.drop_first().len() == 0);
        }
        r
    }

    /// Construct an empty red box
    pub fn anti_empty() -> (r: Self)
        ensures
            r.wf(),
            r@ == leaf_rows(BoxKind::Any, Color::Red),
    {
        let mut r = BoxValue::new();
        r.push_row(BoxKind::Any, Color::Red, Natural::one(), 1);
        proof {
            assert(r@ =~= leaf_rows(BoxKind::Any, Color::Red));
            assert(r@.drop_first().len() == 0);
        }
        r
    }
}

impl BoxValue<EmptyBox> {
    /// Construct an empty black box
    pub fn zero() -> (r: Self)
        ensures
            r.wf(),
            r@ == leaf_rows(BoxKind::Empty, Color::Black),
    {
        let mut r = BoxValue::new();
        r.push_row(BoxKind::Empty, Color::Black, Natural::one(), 1);
        proof {
            assert(r@ =~= leaf_rows(BoxKind::Empty, Color::Black));
            assert(r@.drop_first().len() == 0);
        }
        r
    }

    /// Construct an empty red box
    pub fn anti_zero() -> (r: Self)
        ensures
            r.wf(),
            r@ == leaf_rows(BoxKind::Empty, Color::Red),
    {
        let mut r = BoxValue::new();
        r.push_row(BoxKind::Empty, Color::Red, Natural::one(), 1);
        proof {
            assert(r@ =~= leaf_rows(BoxKind::Empty, Color::Red));
            assert(r@.drop_first().len() == 0);
        }
        r
    }
}

/// The rows built by pushing `rows` onto an empty box form a box.
proof fn lemma_chain_tree(s: Seq<Row>)
    requires
        s.len() >= 1,
        forall|i: int| 0 <= i < s.len() ==> (#[trigger] s[i]).len == s.len() - i,
    ensures
        is_tree(s),
    decreases s.len(),
{
    let t = s.drop_first();
    if t.len() > 0 {
        assert forall|i: int| 0 <= i < t.len() implies (#[trigger] t[i]).len == t.len() - i by {
            assert(t[i] == s[i + 1]);
        }
        lemma_chain_tree(t);
        assert(t.take(t[0].len as int) =~= t);
        assert(t.skip(t[0].len as int).len() == 0);
        assert(is_forest(t.skip(t[0].len as int)));
        assert(is_forest(t));
    } else {
        assert(is_forest(t));
    }
}

impl BoxValue<NumBox> {
    /// Construct the box representing the number one
    pub fn one() -> (r: Self)
        ensures
            r.wf(),
            r@ == one_rows(Color::Black),
    {
        let mut r = BoxValue::new();
        r.push_row(BoxKind::Num, Color::Black, Natural::one(), 2);
        r.push_row(BoxKind::Empty, Color::Black, Natural::one(), 1);
        proof {
            assert(r@ =~= one_rows(Color::Black));
            lemma_chain_tree(r@);
        }
        r
    }

    /// Construct the anti-box representing the number one
    pub fn anti_one() -> (r: Self)
        ensures
            r.wf(),
            r@ == one_rows(Color::Red),
    {
        let mut r = BoxValue::new();
        r.push_row(BoxKind::Num, Color::Red, Natural::one(), 2);
        r.push_row(BoxKind::Empty, Color::Black, Natural::one(), 1);
        proof {
            assert(r@ =~= one_rows(Color::Red));
            lemma_chain_tree(r@);
        }
        r
    }

    /// The box of a natural number.
    pub fn from_natural(value: Natural) -> (r: Self)
        ensures
            r.wf(),
            r@ == int_rows(value@ as int),
    {
        let mut r = BoxValue::new();
        if value.is_zero() {
            r.push_row(BoxKind::Empty, Color::Black, Natural::one(), 1);
            proof {
                assert(r@ =~= int_rows(value@ as int));
                assert(r@.drop_first().len() == 0);
            }
        } else {
            r.push_row(BoxKind::Num, Color::Black, Natural::one(), 2);
            r.push_row(BoxKind::Empty, Color::Black, value, 1);
            proof {
                assert(r@ =~= int_rows(value@ as int));
                lemma_chain_tree(r@);
            }
        }
        r
    }

    /// The box of a signed number given by its sign and absolute value.
    pub fn from_sign_abs(negative: bool, abs: Natural) -> (r: Self)
        ensures
            r.wf(),
            r@ == int_rows(if negative { -(abs@ as int) } else { abs@ as int }),
    {
        let mut r = BoxValue::new();
        if abs.is_zero() {
            r.push_row(BoxKind::Empty, Color::Black, Natural::one(), 1);
            proof {
                assert(r@ =~= int_rows(if negative { -(abs@ as int) } else { abs@ as int }));
                assert(r@.drop_first().len() == 0);
            }
        } else {
            r.push_row(BoxKind::Num, Color::Black, Natural::one(), 2);
            let c = if negative { Color::Red } else { Color::Black };
            r.push_row(BoxKind::Empty, c, abs, 1);
            proof {
                assert(r@ =~= int_rows(if negative { -(abs@ as int) } else { abs@ as int }));
                lemma_chain_tree(r@);
            }
        }
        r
    }

    pub fn from_u32(value: u32) -> (r: Self)
        ensures
            r.wf(),
            r@ == int_rows(value as int),
    {
        BoxValue::from_natural(Natural::from_u32(value))
    }

    pub fn from_u64(value: u64) -> (r: Self)
        ensures
            r.wf(),
            r@ == int_rows(value as int),
    {
        BoxValue::from_natural(Natural::from_u64(value))
    }

    pub fn from_i32(value: i32) -> (r: Self)
        ensures
            r.wf(),
            r@ == int_rows(value as int),
    {
        let neg = value < 0;
        let abs: u64 = if neg { (-(value as i64)) as u64 } else { value as u64 };
        BoxValue::from_sign_abs(neg, Natural::from_u64(abs))
    }

    pub fn from_i64(value: i64) -> (r: Self)
        ensures
            r.wf(),
            r@ == int_rows(value as int),
    {
        let neg = value < 0;
        let abs: u64 = if neg {
            if value == i64::MIN {
                0x8000_0000_0000_0000u64
            } else {
                (-value) as u64
            }
        } else {
            value as u64
        };
        BoxValue::from_sign_abs(neg, Natural::from_u64(abs))
    }
}

impl BoxValue<PolynumBox> {
    /// Construct the variable alpha
    pub fn alpha() -> (r: Self)
        ensures
            r.wf(),
            r@ == alpha_rows(Color::Black),
    {
        BoxValue::alpha_colored(Color::Black)
    }

    /// Construct the variable anti-alpha
    pub fn anti_alpha() -> (r: Self)
        ensures
            r.wf(),
            r@ == alpha_rows(Color::Red),
    {
        BoxValue::alpha_colored(Color::Red)
    }

    fn alpha_colored(color: Color) -> (r: Self)
        ensures
            r.wf(),
            r@ == alpha_rows(color),
    {
        let mut r = BoxValue::new();
        r.push_row(BoxKind::Polynum, color, Natural::one(), 3);
        r.push_row(BoxKind::Num, Color::Black, Natural::one(), 2);
        r.push_row(BoxKind::Empty, Color::Black, Natural::one(), 1);
        proof {
            assert(r@ =~= alpha_rows(color));
            lemma_chain_tree(r@);
        }
        r
    }
}

impl BoxValue<MultinumBox> {
    /// Construct the variable beta
    pub fn beta(n: Natural) -> (r: Self)
        ensures
            r.wf(),
            r@ == beta_rows(Color::Black, n@),
    {
        BoxValue::beta_colored(Color::Black, n)
    }

    /// Construct the variable anti-beta
    pub fn anti_beta(n: Natural) -> (r: Self)
        ensures
            r.wf(),
            r@ == beta_rows(Color::Red, n@),
    {
        BoxValue::beta_colored(Color::Red, n)
    }

    fn beta_colored(color: Color, n: Natural) -> (r: Self)
        ensures
            r.wf(),
            r@ == beta_rows(color, n@),
    {
        let mut r = BoxValue::new();
        if n.is_zero() {
            r.push_row(BoxKind::Polynum, color, Natural::one(), 3);
            r.push_row(BoxKind::Num, Color::Black, Natural::one(), 2);
            r.push_row(BoxKind::Empty, Color::Black, Natural::one(), 1);
        } else {
            r.push_row(BoxKind::Multinum, color, Natural::one(), 4);
            r.push_row(BoxKind::Polynum, Color::Black, Natural::one(), 3);
            r.push_row(BoxKind::Num, Color::Black, Natural::one(), 2);
            r.push_row(BoxKind::Empty, Color::Black, n, 1);
        }
        proof {
            assert(r@ =~= beta_rows(color, n@));
            lemma_chain_tree(r@);
        }
        r
    }
}

} // verus!
