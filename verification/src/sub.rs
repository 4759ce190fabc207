//! Subtraction: adding the product with minus one.
use crate::add::{box_sum, BoxAdd};
use crate::model::Row;
use crate::mul::{box_product, BoxMul};
use crate::natural::Natural;
use crate::value::{int_rows, BoxValue};
use crate::variant::{
    add_fits, can_add, can_mul, mul_fits, variant_product, variant_product_tag, variant_sum,
    variant_sum_tag, BoxVariant,
};
use crate::{BoxKind, BoxType, NumBox};
use vstd::prelude::*;

verus! {

/// Rows small enough to subtract `b` from `a`.
pub open spec fn sub_fits(a: Seq<Row>, b: Seq<Row>) -> bool {
    &&& mul_fits(int_rows(-1), b)
    &&& a.len() + 1 + 2 * b.len() * (2 + b.len()) < u32::MAX
}

/// The rows of `a - b`.
pub open spec fn box_difference(a: Seq<Row>, b: Seq<Row>, out: BoxKind) -> Seq<Row> {
    box_sum(a, box_product(int_rows(-1), b), out)
}

impl<T: BoxType> BoxValue<T> {
    /// The product of an integer with a box.
    pub fn scale(v: i64, rhs: Self) -> (r: Self)
        requires
            rhs.wf(),
            mul_fits(int_rows(v as int), rhs@),
        ensures
            r.wf(),
            r@ == box_product(int_rows(v as int), rhs@),
            r@.len() <= 1 + int_rows(v as int).len() * rhs@.len() * (int_rows(v as int).len()
                + rhs@.len()),
    {
        let factor: BoxValue<T> = BoxValue::<NumBox>::from_i64(v).cast();
        factor.mul_boxes(rhs)
    }

    /// Subtracts a box.
    pub fn sub_boxes(self, rhs: Self) -> (r: Self)
        requires
            self.wf(),
            rhs.wf(),
            sub_fits(self@, rhs@),
        ensures
            r.wf(),
            r@ == box_difference(self@, rhs@, T::KIND),
    {
        let ghost b = rhs@.len();
        let neg = BoxValue::<T>::scale(-1, rhs);
        proof {
            assert(int_rows(-1).len() == 2);
            assert(2 * b * (2 + b) == int_rows(-1).len() * b * (int_rows(-1).len() + b));
        }
        self.add_boxes(neg)
    }
}

/// Boxes of these variants can be subtracted.
pub open spec fn can_sub(a: BoxKind, at: Seq<Row>, b: BoxKind, bt: Seq<Row>) -> bool {
    &&& (b == BoxKind::Empty || crate::variant::both_numeric(BoxKind::Num, b))
    &&& can_add(a, variant_product_tag(BoxKind::Num, b, variant_product(int_rows(-1), BoxKind::Num, bt, b)))
}

/// The rows of the difference of two variants.
pub open spec fn variant_difference(a: Seq<Row>, at: BoxKind, b: Seq<Row>, bt: BoxKind) -> Seq<Row> {
    let p = variant_product(int_rows(-1), BoxKind::Num, b, bt);
    variant_sum(a, at, p, variant_product_tag(BoxKind::Num, bt, p))
}

/// The variant of the difference of two variants.
pub open spec fn variant_difference_tag(a: Seq<Row>, at: BoxKind, b: Seq<Row>, bt: BoxKind) -> BoxKind {
    let p = variant_product(int_rows(-1), BoxKind::Num, b, bt);
    variant_sum_tag(at, variant_product_tag(BoxKind::Num, bt, p), variant_difference(a, at, b, bt))
}

impl BoxVariant {
    /// The product of an integer with a box.
    pub fn scale(v: i64, rhs: Self) -> (r: Self)
        requires
            rhs.wf(),
            rhs.tag() == BoxKind::Empty || crate::variant::both_numeric(BoxKind::Num, rhs.tag()),
            mul_fits(int_rows(v as int), rhs@),
        ensures
            r.wf(),
            r@ == variant_product(int_rows(v as int), BoxKind::Num, rhs@, rhs.tag()),
            r.tag() == variant_product_tag(BoxKind::Num, rhs.tag(), r@),
            crate::variant::both_numeric(BoxKind::Num, rhs.tag()) ==> crate::mul::product_post(int_rows(v as int), rhs@, r@),
    {
        let factor = BoxVariant::Num(BoxValue::<NumBox>::from_i64(v));
        factor.mul(rhs)
    }

    /// Subtracts a box.
    pub fn sub(self, rhs: Self) -> (r: Self)
        requires
            self.wf(),
            rhs.wf(),
            can_sub(self.tag(), self@, rhs.tag(), rhs@),
            sub_fits(self@, rhs@),
        ensures
            r.wf(),
            r@ == variant_difference(self@, self.tag(), rhs@, rhs.tag()),
            r.tag() == variant_difference_tag(self@, self.tag(), rhs@, rhs.tag()),
    {
        let ghost b = rhs@.len();
        let neg = BoxVariant::scale(-1, rhs);
        proof {
            assert(int_rows(-1).len() == 2);
            if rhs.tag() != BoxKind::Empty {
                assert(neg@.len() <= 1 + 2 * b * (2 + b)) by {
                    assert(2 * b * (2 + b) == int_rows(-1).len() * b * (int_rows(-1).len() + b));
                }
            }
        }
        self.add(neg)
    }
}

} // verus!
