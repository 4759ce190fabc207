//! Operator and conversion impls, forwarding to the verified methods.
use crate::add::BoxAdd;
use crate::mul::BoxMul;
use crate::natural::Natural;
use crate::sub::sub_fits;
use crate::value::{int_rows, BoxValue};
use crate::add::{box_sum, sum_post};
use crate::mul::{box_product, product_post};
use crate::sub::{box_difference, variant_difference, variant_difference_tag};
use crate::variant::{
    add_fits, add_out, both_numeric, can_add, can_mul, mul_fits, variant_product, variant_product_tag,
    variant_sum, variant_sum_tag, BoxVariant,
};
use crate::sub::can_sub;
use crate::{BoxKind, BoxType, NumBox};
use core::ops::{Add, Mul, Sub};
use vstd::prelude::*;

verus! {

impl<L: BoxType + BoxAdd<R>, R: BoxType> Add<BoxValue<R>> for BoxValue<L> {
    type Output = BoxValue<<L as BoxAdd<R>>::Output>;

    fn add(self, rhs: BoxValue<R>) -> (r: Self::Output)
        ensures
            r.wf(),
            r@.len() < self@.len() + rhs@.len(),
            sum_post(self@, rhs@, <L as BoxAdd<R>>::Output::KIND, r@),
            r@ == box_sum(self@, rhs@, <L as BoxAdd<R>>::Output::KIND),
    {
        self.add_boxes(rhs)
    }
}

impl<L: BoxType + BoxAdd<R>, R: BoxType> vstd::std_specs::ops::AddSpecImpl<BoxValue<R>> for BoxValue<L> {
    open spec fn obeys_add_spec() -> bool {
        false
    }

    open spec fn add_req(self, rhs: BoxValue<R>) -> bool {
        self.wf() && rhs.wf() && self@.len() + rhs@.len() < u32::MAX
    }

    open spec fn add_spec(self, rhs: BoxValue<R>) -> Self::Output {
        arbitrary()
    }
}

impl<L: BoxType + BoxMul<R>, R: BoxType> Mul<BoxValue<R>> for BoxValue<L> {
    type Output = BoxValue<<L as BoxMul<R>>::Output>;

    fn mul(self, rhs: BoxValue<R>) -> (r: Self::Output)
        ensures
            r.wf(),
            r@.len() <= 1 + self@.len() * rhs@.len() * (self@.len() + rhs@.len()),
            product_post(self@, rhs@, r@),
            r@ == box_product(self@, rhs@),
    {
        self.mul_boxes(rhs)
    }
}

impl<L: BoxType + BoxMul<R>, R: BoxType> vstd::std_specs::ops::MulSpecImpl<BoxValue<R>> for BoxValue<L> {
    open spec fn obeys_mul_spec() -> bool {
        false
    }

    open spec fn mul_req(self, rhs: BoxValue<R>) -> bool {
        self.wf() && rhs.wf() && crate::mul::product_fits(self@, rhs@)
    }

    open spec fn mul_spec(self, rhs: BoxValue<R>) -> Self::Output {
        arbitrary()
    }
}

impl<T: BoxType> Sub for BoxValue<T> {
    type Output = Self;

    fn sub(self, rhs: Self) -> (r: Self)
        ensures
            r.wf(),
            r@ == box_difference(self@, rhs@, T::KIND),
    {
        self.sub_boxes(rhs)
    }
}

impl<T: BoxType> vstd::std_specs::ops::SubSpecImpl for BoxValue<T> {
    open spec fn obeys_sub_spec() -> bool {
        false
    }

    open spec fn sub_req(self, rhs: Self) -> bool {
        self.wf() && rhs.wf() && sub_fits(self@, rhs@)
    }

    open spec fn sub_spec(self, rhs: Self) -> Self {
        arbitrary()
    }
}

impl Add for BoxVariant {
    type Output = Self;

    fn add(self, rhs: Self) -> (r: Self)
        ensures
            r.wf(),
            r@ == variant_sum(self@, self.tag(), rhs@, rhs.tag()),
            r.tag() == variant_sum_tag(self.tag(), rhs.tag(), r@),
            self.tag() != BoxKind::Empty && rhs.tag() != BoxKind::Empty ==> sum_post(
                self@,
                rhs@,
                add_out(self.tag(), rhs.tag()),
                r@,
            ),
    {
        BoxVariant::add(self, rhs)
    }
}

impl vstd::std_specs::ops::AddSpecImpl for BoxVariant {
    open spec fn obeys_add_spec() -> bool {
        false
    }

    open spec fn add_req(self, rhs: Self) -> bool {
        self.wf() && rhs.wf() && can_add(self.tag(), rhs.tag()) && add_fits(self@, rhs@)
    }

    open spec fn add_spec(self, rhs: Self) -> Self {
        arbitrary()
    }
}

impl Mul for BoxVariant {
    type Output = Self;

    fn mul(self, rhs: Self) -> (r: Self)
        ensures
            r.wf(),
            r@ == variant_product(self@, self.tag(), rhs@, rhs.tag()),
            r.tag() == variant_product_tag(self.tag(), rhs.tag(), r@),
            both_numeric(self.tag(), rhs.tag()) ==> product_post(self@, rhs@, r@),
    {
        BoxVariant::mul(self, rhs)
    }
}

impl vstd::std_specs::ops::MulSpecImpl for BoxVariant {
    open spec fn obeys_mul_spec() -> bool {
        false
    }

    open spec fn mul_req(self, rhs: Self) -> bool {
        self.wf() && rhs.wf() && can_mul(self.tag(), rhs.tag()) && crate::variant::mul_shapes(
            self@,
            self.tag(),
            rhs@,
            rhs.tag(),
        ) && crate::variant::variant_mul_fits(self@, self.tag(), rhs@, rhs.tag())
    }

    open spec fn mul_spec(self, rhs: Self) -> Self {
        arbitrary()
    }
}

impl Sub for BoxVariant {
    type Output = Self;

    fn sub(self, rhs: Self) -> (r: Self)
        ensures
            r.wf(),
            r@ == variant_difference(self@, self.tag(), rhs@, rhs.tag()),
            r.tag() == variant_difference_tag(self@, self.tag(), rhs@, rhs.tag()),
    {
        BoxVariant::sub(self, rhs)
    }
}

impl vstd::std_specs::ops::SubSpecImpl for BoxVariant {
    open spec fn obeys_sub_spec() -> bool {
        false
    }

    open spec fn sub_req(self, rhs: Self) -> bool {
        self.wf() && rhs.wf() && can_sub(self.tag(), self@, rhs.tag(), rhs@) && sub_fits(self@, rhs@)
    }

    open spec fn sub_spec(self, rhs: Self) -> Self {
        arbitrary()
    }
}

impl From<u32> for BoxValue<NumBox> {
    fn from(v: u32) -> (r: Self)
        ensures
            r.wf(),
            r@ == int_rows(v as int),
    {
        BoxValue::from_u32(v)
    }
}

impl vstd::std_specs::convert::FromSpecImpl<u32> for BoxValue<NumBox> {
    open spec fn obeys_from_spec() -> bool {
        false
    }

    open spec fn from_spec(v: u32) -> Self {
        arbitrary()
    }
}

impl From<u32> for BoxVariant {
    fn from(v: u32) -> (r: Self)
        ensures
            r.wf(),
            r@ == int_rows(v as int),
            r.tag() == int_rows(v as int)[0].kind,
    {
        BoxVariant::repack_raw(BoxValue::<NumBox>::from_u32(v))
    }
}

impl vstd::std_specs::convert::FromSpecImpl<u32> for BoxVariant {
    open spec fn obeys_from_spec() -> bool {
        false
    }

    open spec fn from_spec(v: u32) -> Self {
        arbitrary()
    }
}

impl<T: BoxType> Mul<BoxValue<T>> for u32 {
    type Output = BoxValue<T>;

    fn mul(self, rhs: BoxValue<T>) -> (r: BoxValue<T>)
        ensures
            r.wf(),
            r@ == box_product(int_rows(self as int), rhs@),
            r@.len() <= 1 + int_rows(self as int).len() * rhs@.len() * (int_rows(self as int).len() + rhs@.len()),
    {
        BoxValue::scale(self as i64, rhs)
    }
}

impl<T: BoxType> vstd::std_specs::ops::MulSpecImpl<BoxValue<T>> for u32 {
    open spec fn obeys_mul_spec() -> bool {
        false
    }

    open spec fn mul_req(self, rhs: BoxValue<T>) -> bool {
        rhs.wf() && mul_fits(int_rows(self as int), rhs@)
    }

    open spec fn mul_spec(self, rhs: BoxValue<T>) -> BoxValue<T> {
        arbitrary()
    }
}

impl Mul<BoxVariant> for u32 {
    type Output = BoxVariant;

    fn mul(self, rhs: BoxVariant) -> (r: BoxVariant)
        ensures
            r.wf(),
            r@ == variant_product(int_rows(self as int), BoxKind::Num, rhs@, rhs.tag()),
            r.tag() == variant_product_tag(BoxKind::Num, rhs.tag(), r@),
            both_numeric(BoxKind::Num, rhs.tag()) ==> product_post(int_rows(self as int), rhs@, r@),
    {
        BoxVariant::scale(self as i64, rhs)
    }
}

impl vstd::std_specs::ops::MulSpecImpl<BoxVariant> for u32 {
    open spec fn obeys_mul_spec() -> bool {
        false
    }

    open spec fn mul_req(self, rhs: BoxVariant) -> bool {
        rhs.wf() && (rhs.tag() == BoxKind::Empty || crate::variant::both_numeric(BoxKind::Num, rhs.tag()))
            && mul_fits(int_rows(self as int), rhs@)
    }

    open spec fn mul_spec(self, rhs: BoxVariant) -> BoxVariant {
        arbitrary()
    }
}

impl From<u64> for BoxValue<NumBox> {
    fn from(v: u64) -> (r: Self)
        ensures
            r.wf(),
            r@ == int_rows(v as int),
    {
        BoxValue::from_u64(v)
    }
}

impl vstd::std_specs::convert::FromSpecImpl<u64> for BoxValue<NumBox> {
    open spec fn obeys_from_spec() -> bool {
        false
    }

    open spec fn from_spec(v: u64) -> Self {
        arbitrary()
    }
}

impl From<u64> for BoxVariant {
    fn from(v: u64) -> (r: Self)
        ensures
            r.wf(),
            r@ == int_rows(v as int),
            r.tag() == int_rows(v as int)[0].kind,
    {
        BoxVariant::repack_raw(BoxValue::<NumBox>::from_u64(v))
    }
}

impl vstd::std_specs::convert::FromSpecImpl<u64> for BoxVariant {
    open spec fn obeys_from_spec() -> bool {
        false
    }

    open spec fn from_spec(v: u64) -> Self {
        arbitrary()
    }
}

impl From<i32> for BoxValue<NumBox> {
    fn from(v: i32) -> (r: Self)
        ensures
            r.wf(),
            r@ == int_rows(v as int),
    {
        BoxValue::from_i32(v)
    }
}

impl vstd::std_specs::convert::FromSpecImpl<i32> for BoxValue<NumBox> {
    open spec fn obeys_from_spec() -> bool {
        false
    }

    open spec fn from_spec(v: i32) -> Self {
        arbitrary()
    }
}

impl From<i32> for BoxVariant {
    fn from(v: i32) -> (r: Self)
        ensures
            r.wf(),
            r@ == int_rows(v as int),
            r.tag() == int_rows(v as int)[0].kind,
    {
        BoxVariant::repack_raw(BoxValue::<NumBox>::from_i32(v))
    }
}

impl vstd::std_specs::convert::FromSpecImpl<i32> for BoxVariant {
    open spec fn obeys_from_spec() -> bool {
        false
    }

    open spec fn from_spec(v: i32) -> Self {
        arbitrary()
    }
}

impl<T: BoxType> Mul<BoxValue<T>> for i32 {
    type Output = BoxValue<T>;

    fn mul(self, rhs: BoxValue<T>) -> (r: BoxValue<T>)
        ensures
            r.wf(),
            r@ == box_product(int_rows(self as int), rhs@),
            r@.len() <= 1 + int_rows(self as int).len() * rhs@.len() * (int_rows(self as int).len() + rhs@.len()),
    {
        BoxValue::scale(self as i64, rhs)
    }
}

impl<T: BoxType> vstd::std_specs::ops::MulSpecImpl<BoxValue<T>> for i32 {
    open spec fn obeys_mul_spec() -> bool {
        false
    }

    open spec fn mul_req(self, rhs: BoxValue<T>) -> bool {
        rhs.wf() && mul_fits(int_rows(self as int), rhs@)
    }

    open spec fn mul_spec(self, rhs: BoxValue<T>) -> BoxValue<T> {
        arbitrary()
    }
}

impl Mul<BoxVariant> for i32 {
    type Output = BoxVariant;

    fn mul(self, rhs: BoxVariant) -> (r: BoxVariant)
        ensures
            r.wf(),
            r@ == variant_product(int_rows(self as int), BoxKind::Num, rhs@, rhs.tag()),
            r.tag() == variant_product_tag(BoxKind::Num, rhs.tag(), r@),
            both_numeric(BoxKind::Num, rhs.tag()) ==> product_post(int_rows(self as int), rhs@, r@),
    {
        BoxVariant::scale(self as i64, rhs)
    }
}

impl vstd::std_specs::ops::MulSpecImpl<BoxVariant> for i32 {
    open spec fn obeys_mul_spec() -> bool {
        false
    }

    open spec fn mul_req(self, rhs: BoxVariant) -> bool {
        rhs.wf() && (rhs.tag() == BoxKind::Empty || crate::variant::both_numeric(BoxKind::Num, rhs.tag()))
            && mul_fits(int_rows(self as int), rhs@)
    }

    open spec fn mul_spec(self, rhs: BoxVariant) -> BoxVariant {
        arbitrary()
    }
}

impl From<i64> for BoxValue<NumBox> {
    fn from(v: i64) -> (r: Self)
        ensures
            r.wf(),
            r@ == int_rows(v as int),
    {
        BoxValue::from_i64(v)
    }
}

impl vstd::std_specs::convert::FromSpecImpl<i64> for BoxValue<NumBox> {
    open spec fn obeys_from_spec() -> bool {
        false
    }

    open spec fn from_spec(v: i64) -> Self {
        arbitrary()
    }
}

impl From<i64> for BoxVariant {
    fn from(v: i64) -> (r: Self)
        ensures
            r.wf(),
            r@ == int_rows(v as int),
            r.tag() == int_rows(v as int)[0].kind,
    {
        BoxVariant::repack_raw(BoxValue::<NumBox>::from_i64(v))
    }
}

impl vstd::std_specs::convert::FromSpecImpl<i64> for BoxVariant {
    open spec fn obeys_from_spec() -> bool {
        false
    }

    open spec fn from_spec(v: i64) -> Self {
        arbitrary()
    }
}

impl<T: BoxType> Mul<BoxValue<T>> for i64 {
    type Output = BoxValue<T>;

    fn mul(self, rhs: BoxValue<T>) -> (r: BoxValue<T>)
        ensures
            r.wf(),
            r@ == box_product(int_rows(self as int), rhs@),
            r@.len() <= 1 + int_rows(self as int).len() * rhs@.len() * (int_rows(self as int).len() + rhs@.len()),
    {
        BoxValue::scale(self as i64, rhs)
    }
}

impl<T: BoxType> vstd::std_specs::ops::MulSpecImpl<BoxValue<T>> for i64 {
    open spec fn obeys_mul_spec() -> bool {
        false
    }

    open spec fn mul_req(self, rhs: BoxValue<T>) -> bool {
        rhs.wf() && mul_fits(int_rows(self as int), rhs@)
    }

    open spec fn mul_spec(self, rhs: BoxValue<T>) -> BoxValue<T> {
        arbitrary()
    }
}

impl Mul<BoxVariant> for i64 {
    type Output = BoxVariant;

    fn mul(self, rhs: BoxVariant) -> (r: BoxVariant)
        ensures
            r.wf(),
            r@ == variant_product(int_rows(self as int), BoxKind::Num, rhs@, rhs.tag()),
            r.tag() == variant_product_tag(BoxKind::Num, rhs.tag(), r@),
            both_numeric(BoxKind::Num, rhs.tag()) ==> product_post(int_rows(self as int), rhs@, r@),
    {
        BoxVariant::scale(self as i64, rhs)
    }
}

impl vstd::std_specs::ops::MulSpecImpl<BoxVariant> for i64 {
    open spec fn obeys_mul_spec() -> bool {
        false
    }

    open spec fn mul_req(self, rhs: BoxVariant) -> bool {
        rhs.wf() && (rhs.tag() == BoxKind::Empty || crate::variant::both_numeric(BoxKind::Num, rhs.tag()))
            && mul_fits(int_rows(self as int), rhs@)
    }

    open spec fn mul_spec(self, rhs: BoxVariant) -> BoxVariant {
        arbitrary()
    }
}

impl From<Natural> for BoxValue<NumBox> {
    fn from(v: Natural) -> (r: Self)
        ensures
            r.wf(),
            r@ == int_rows(v@ as int),
    {
        BoxValue::from_natural(v)
    }
}

impl vstd::std_specs::convert::FromSpecImpl<Natural> for BoxValue<NumBox> {
    open spec fn obeys_from_spec() -> bool {
        false
    }

    open spec fn from_spec(v: Natural) -> Self {
        arbitrary()
    }
}

impl From<Natural> for BoxVariant {
    fn from(v: Natural) -> (r: Self)
        ensures
            r.wf(),
            r@ == int_rows(v@ as int),
            r.tag() == int_rows(v@ as int)[0].kind,
    {
        BoxVariant::repack_raw(BoxValue::<NumBox>::from_natural(v))
    }
}

impl vstd::std_specs::convert::FromSpecImpl<Natural> for BoxVariant {
    open spec fn obeys_from_spec() -> bool {
        false
    }

    open spec fn from_spec(v: Natural) -> Self {
        arbitrary()
    }
}

} // verus!
