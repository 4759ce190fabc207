//! Arbitrary-precision natural numbers used as multiplicities.
//!
//! The value is held as little-endian 64-bit limbs; all arithmetic is done by
//! the `malachite` crate, to which the limbs are handed over.
use core::str::FromStr;
use malachite::base::num::arithmetic::traits::SaturatingSub;
use vstd::prelude::*;

verus! {

/// The base of one limb.
pub open spec fn limb_base() -> nat {
    0x1_0000_0000_0000_0000nat
}

/// The value of a little-endian sequence of 64-bit limbs.
pub open spec fn limbs_value(s: Seq<u64>) -> nat
    decreases s.len(),
{
    if s.len() == 0 {
        0
    } else {
        s[0] as nat + limb_base() * limbs_value(s.drop_first())
    }
}

/// The decimal digit character for a number below ten.
pub open spec fn digit_char(d: nat) -> char {
    if d == 0 {
        '0'
    } else if d == 1 {
        '1'
    } else if d == 2 {
        '2'
    } else if d == 3 {
        '3'
    } else if d == 4 {
        '4'
    } else if d == 5 {
        '5'
    } else if d == 6 {
        '6'
    } else if d == 7 {
        '7'
    } else if d == 8 {
        '8'
    } else {
        '9'
    }
}

/// The decimal representation of a natural number, without leading zeros.
pub open spec fn decimal(n: nat) -> Seq<char>
    decreases n,
{
    if n < 10 {
        seq![digit_char(n)]
    } else {
        decimal(n / 10).push(digit_char(n % 10))
    }
}

/// An arbitrary-precision natural number.
#[derive(Debug, Clone, PartialEq, Eq, Hash)]
pub struct Natural {
    limbs: Vec<u64>,
}

impl View for Natural {
    type V = nat;

    closed spec fn view(&self) -> nat {
        limbs_value(self.limbs@)
    }
}

/// Addition, computed by `malachite`'s `Natural + Natural`, which returns the exact sum.
#[verifier::external_body]
fn malachite_add(a: &Natural, b: &Natural) -> (r: Natural)
    ensures
        r@ == a@ + b@,
{
    let x = malachite::Natural::from_limbs_asc(&a.limbs);
    let y = malachite::Natural::from_limbs_asc(&b.limbs);
    Natural { limbs: (x + y).to_limbs_asc() }
}

/// Multiplication, computed by `malachite`'s `Natural * Natural`, which returns the exact product.
#[verifier::external_body]
fn malachite_mul(a: &Natural, b: &Natural) -> (r: Natural)
    ensures
        r@ == a@ * b@,
{
    let x = malachite::Natural::from_limbs_asc(&a.limbs);
    let y = malachite::Natural::from_limbs_asc(&b.limbs);
    Natural { limbs: (x * y).to_limbs_asc() }
}

/// Truncated subtraction, computed by `malachite`'s `SaturatingSub`, which returns
/// `a - b` when `b <= a` and zero otherwise.
#[verifier::external_body]
fn malachite_saturating_sub(a: &Natural, b: &Natural) -> (r: Natural)
    ensures
        r@ == (if a@ >= b@ { (a@ - b@) as nat } else { 0nat }),
{
    let x = malachite::Natural::from_limbs_asc(&a.limbs);
    let y = malachite::Natural::from_limbs_asc(&b.limbs);
    Natural { limbs: x.saturating_sub(y).to_limbs_asc() }
}

/// Floor division, computed by `malachite`'s `Natural / Natural`, which rounds down and
/// panics only when the divisor is zero.
#[verifier::external_body]
fn malachite_div(a: &Natural, b: &Natural) -> (r: Natural)
    requires
        b@ > 0,
    ensures
        r@ == a@ / b@,
{
    let x = malachite::Natural::from_limbs_asc(&a.limbs);
    let y = malachite::Natural::from_limbs_asc(&b.limbs);
    Natural { limbs: (x / y).to_limbs_asc() }
}

/// Numeric comparison, computed by `malachite`'s `PartialOrd::lt` on naturals.
#[verifier::external_body]
fn malachite_lt(a: &Natural, b: &Natural) -> (r: bool)
    ensures
        r == (a@ < b@),
{
    malachite::Natural::from_limbs_asc(&a.limbs) < malachite::Natural::from_limbs_asc(&b.limbs)
}

/// Numeric equality, computed by `malachite`'s `PartialEq::eq` on naturals.
#[verifier::external_body]
fn malachite_eq(a: &Natural, b: &Natural) -> (r: bool)
    ensures
        r == (a@ == b@),
{
    malachite::Natural::from_limbs_asc(&a.limbs) == malachite::Natural::from_limbs_asc(&b.limbs)
}

/// The decimal digits of the number, computed by `malachite`'s `Display`, which writes
/// the number in base ten without sign or leading zeros.
#[verifier::external_body]
fn malachite_to_decimal(a: &Natural) -> (r: Vec<char>)
    ensures
        r@ == decimal(a@),
{
    malachite::Natural::from_limbs_asc(&a.limbs).to_string().chars().collect()
}

/// The value of a sequence of decimal digit characters.
pub open spec fn digits_value(s: Seq<char>) -> nat
    decreases s.len(),
{
    if s.len() == 0 {
        0
    } else {
        digits_value(s.drop_last()) * 10 + ((s.last() as u32 - '0' as u32) as nat)
    }
}

/// All characters are ASCII decimal digits.
pub open spec fn all_digits(s: Seq<char>) -> bool {
    forall|i: int| 0 <= i < s.len() ==> '0' <= #[trigger] s[i] <= '9'
}

/// Parsing of a decimal string, computed by `malachite`'s `FromStr`, which accepts a
/// non-empty string of ASCII digits and returns its value.
#[verifier::external_body]
fn malachite_from_decimal(s: &Vec<char>) -> (r: Natural)
    requires
        s@.len() > 0,
        all_digits(s@),
    ensures
        r@ == digits_value(s@),
{
    let text: String = s.iter().collect();
    Natural { limbs: malachite::Natural::from_str(&text).unwrap().to_limbs_asc() }
}

/// The number as a `usize`, computed by `malachite`'s `TryFrom<&Natural> for usize`,
/// which succeeds exactly when the value fits.
#[verifier::external_body]
fn malachite_to_usize(a: &Natural) -> (r: Option<usize>)
    ensures
        r matches Some(v) ==> v as nat == a@,
        r is None ==> a@ > usize::MAX,
{
    usize::try_from(&malachite::Natural::from_limbs_asc(&a.limbs)).ok()
}

impl Natural {
    /// The number zero.
    pub fn zero() -> (r: Natural)
        ensures
            r@ == 0,
    {
        let r = Natural { limbs: Vec::new() };
        proof {
            assert(r.limbs@.len() == 0);
        }
        r
    }

    /// A number from a machine integer.
    pub fn from_u64(v: u64) -> (r: Natural)
        ensures
            r@ == v as nat,
    {
        if v == 0 {
            Natural::zero()
        } else {
            let mut limbs = Vec::new();
            limbs.push(v);
            let r = Natural { limbs };
            proof {
                assert(r.limbs@.drop_first().len() == 0);
                assert(limbs_value(r.limbs@.drop_first()) == 0);
            }
            r
        }
    }

    /// A number from a 32-bit machine integer.
    pub fn from_u32(v: u32) -> (r: Natural)
        ensures
            r@ == v as nat,
    {
        Natural::from_u64(v as u64)
    }

    /// The number one.
    pub fn one() -> (r: Natural)
        ensures
            r@ == 1,
    {
        Natural::from_u64(1)
    }

    /// A copy with the same value.
    pub fn copy(&self) -> (r: Natural)
        ensures
            r@ == self@,
    {
        let mut limbs: Vec<u64> = Vec::new();
        let mut i: usize = 0;
        while i < self.limbs.len()
            invariant
                i <= self.limbs.len(),
                limbs@ == self.limbs@.take(i as int),
            decreases self.limbs.len() - i,
        {
            limbs.push(self.limbs[i]);
            i = i + 1;
            proof {
                assert(limbs@ =~= self.limbs@.take(i as int));
            }
        }
        proof {
            assert(limbs@ =~= self.limbs@);
        }
        Natural { limbs }
    }

    pub fn add(&self, other: &Natural) -> (r: Natural)
        ensures
            r@ == self@ + other@,
    {
        malachite_add(self, other)
    }

    pub fn mul(&self, other: &Natural) -> (r: Natural)
        ensures
            r@ == self@ * other@,
    {
        malachite_mul(self, other)
    }

    pub fn saturating_sub(&self, other: &Natural) -> (r: Natural)
        ensures
            r@ == (if self@ >= other@ { (self@ - other@) as nat } else { 0nat }),
    {
        malachite_saturating_sub(self, other)
    }

    pub fn div(&self, other: &Natural) -> (r: Natural)
        requires
            other@ > 0,
        ensures
            r@ == self@ / other@,
    {
        malachite_div(self, other)
    }

    pub fn lt(&self, other: &Natural) -> (r: bool)
        ensures
            r == (self@ < other@),
    {
        malachite_lt(self, other)
    }

    pub fn eq(&self, other: &Natural) -> (r: bool)
        ensures
            r == (self@ == other@),
    {
        malachite_eq(self, other)
    }

    pub fn is_zero(&self) -> (r: bool)
        ensures
            r == (self@ == 0),
    {
        let z = Natural::zero();
        malachite_eq(self, &z)
    }

    pub fn is_one(&self) -> (r: bool)
        ensures
            r == (self@ == 1),
    {
        let o = Natural::one();
        malachite_eq(self, &o)
    }

    /// The larger of two numbers.
    pub fn max(&self, other: &Natural) -> (r: Natural)
        ensures
            r@ == (if self@ >= other@ { self@ } else { other@ }),
    {
        if malachite_lt(self, other) {
            other.copy()
        } else {
            self.copy()
        }
    }

    /// The smaller of two numbers.
    pub fn min(&self, other: &Natural) -> (r: Natural)
        ensures
            r@ == (if self@ <= other@ { self@ } else { other@ }),
    {
        if malachite_lt(other, self) {
            other.copy()
        } else {
            self.copy()
        }
    }

    /// The decimal digits of the number.
    pub fn to_decimal(&self) -> (r: Vec<char>)
        ensures
            r@ == decimal(self@),
    {
        malachite_to_decimal(self)
    }

    /// The number written by a non-empty string of decimal digits.
    pub fn from_decimal(digits: &Vec<char>) -> (r: Natural)
        requires
            digits@.len() > 0,
            all_digits(digits@),
        ensures
            r@ == digits_value(digits@),
    {
        malachite_from_decimal(digits)
    }

    /// The number as a `usize`, if it fits.
    pub fn to_usize(&self) -> (r: Option<usize>)
        ensures
            r matches Some(v) ==> v as nat == self@,
            r is None ==> self@ > usize::MAX,
    {
        malachite_to_usize(self)
    }
}

} // verus!
