//! A box together with its runtime type.
use crate::add::{box_sum, sum_post};
use crate::canon::content;
use crate::model::Row;
use crate::maxel::{all_pixels, all_unixels, maxel_product, maxel_vexel_product};
use crate::mul::{box_product, product_post};
use crate::natural::Natural;
use crate::model::row_with_len;
use crate::value::{
    int_rows, leaf_rows, one_rows, alpha_rows, beta_rows, row_with_color, row_with_kind,
    row_with_mult, wrapped, BoxValue,
};
use crate::{
    color_flip, color_xor, AnyBox, BoxKind, BoxType, Color, EmptyBox, ListBox, MaxelBox, MultinumBox,
    NumBox, PixelBox, PolynumBox, SetBox, UnixelBox, VexelBox,
};
use vstd::prelude::*;

verus! {

/// Kind of boxes that can exist in a store
#[derive(Debug, Clone, PartialEq, Eq, Hash)]
pub enum BoxVariant {
    Any(BoxValue<AnyBox>),
    Empty(BoxValue<EmptyBox>),
    Num(BoxValue<NumBox>),
    Polynum(BoxValue<PolynumBox>),
    Multinum(BoxValue<MultinumBox>),
    Unixel(BoxValue<UnixelBox>),
    Vexel(BoxValue<VexelBox>),
    Pixel(BoxValue<PixelBox>),
    Maxel(BoxValue<MaxelBox>),
    SetBox(BoxValue<SetBox>),
    List(BoxValue<ListBox>),
}

impl View for BoxVariant {
    type V = Seq<Row>;

    open spec fn view(&self) -> Seq<Row> {
        match self {
            BoxVariant::Any(v) => v@,
            BoxVariant::Empty(v) => v@,
            BoxVariant::Num(v) => v@,
            BoxVariant::Polynum(v) => v@,
            BoxVariant::Multinum(v) => v@,
            BoxVariant::Unixel(v) => v@,
            BoxVariant::Vexel(v) => v@,
            BoxVariant::Pixel(v) => v@,
            BoxVariant::Maxel(v) => v@,
            BoxVariant::SetBox(v) => v@,
            BoxVariant::List(v) => v@,
        }
    }
}

impl BoxVariant {
    /// The kind named by the variant.
    pub open spec fn tag(&self) -> BoxKind {
        match self {
            BoxVariant::Any(_) => BoxKind::Any,
            BoxVariant::Empty(_) => BoxKind::Empty,
            BoxVariant::Num(_) => BoxKind::Num,
            BoxVariant::Polynum(_) => BoxKind::Polynum,
            BoxVariant::Multinum(_) => BoxKind::Multinum,
            BoxVariant::Unixel(_) => BoxKind::Unixel,
            BoxVariant::Vexel(_) => BoxKind::Vexel,
            BoxVariant::Pixel(_) => BoxKind::Pixel,
            BoxVariant::Maxel(_) => BoxKind::Maxel,
            BoxVariant::SetBox(_) => BoxKind::SetBox,
            BoxVariant::List(_) => BoxKind::List,
        }
    }

    /// The vectors of the inner box have equal lengths.
    pub open spec fn inv(&self) -> bool {
        match self {
            BoxVariant::Any(v) => v.inv(),
            BoxVariant::Empty(v) => v.inv(),
            BoxVariant::Num(v) => v.inv(),
            BoxVariant::Polynum(v) => v.inv(),
            BoxVariant::Multinum(v) => v.inv(),
            BoxVariant::Unixel(v) => v.inv(),
            BoxVariant::Vexel(v) => v.inv(),
            BoxVariant::Pixel(v) => v.inv(),
            BoxVariant::Maxel(v) => v.inv(),
            BoxVariant::SetBox(v) => v.inv(),
            BoxVariant::List(v) => v.inv(),
        }
    }

    /// The inner box is well formed.
    pub open spec fn wf(&self) -> bool {
        self.inv() && crate::model::is_tree(self@)
    }
}

/// Static conversion into [`BoxVariant`]
pub trait IntoVariant: BoxType {
    /// The variant holding a box of this type.
    spec fn variant_of(value: BoxValue<Self>) -> BoxVariant;

    fn into_variant(value: BoxValue<Self>) -> (r: BoxVariant)
        ensures
            r == Self::variant_of(value),
            r@ == value@,
            r.tag() == Self::KIND,
            r.inv() == value.inv(),
    ;
}

impl IntoVariant for AnyBox {
    open spec fn variant_of(value: BoxValue<Self>) -> BoxVariant {
        BoxVariant::Any(value)
    }

    fn into_variant(v: BoxValue<Self>) -> (r: BoxVariant) {
        BoxVariant::Any(v)
    }
}

impl IntoVariant for EmptyBox {
    open spec fn variant_of(value: BoxValue<Self>) -> BoxVariant {
        BoxVariant::Empty(value)
    }

    fn into_variant(v: BoxValue<Self>) -> (r: BoxVariant) {
        BoxVariant::Empty(v)
    }
}

impl IntoVariant for NumBox {
    open spec fn variant_of(value: BoxValue<Self>) -> BoxVariant {
        BoxVariant::Num(value)
    }

    fn into_variant(v: BoxValue<Self>) -> (r: BoxVariant) {
        BoxVariant::Num(v)
    }
}

impl IntoVariant for PolynumBox {
    open spec fn variant_of(value: BoxValue<Self>) -> BoxVariant {
        BoxVariant::Polynum(value)
    }

    fn into_variant(v: BoxValue<Self>) -> (r: BoxVariant) {
        BoxVariant::Polynum(v)
    }
}

impl IntoVariant for MultinumBox {
    open spec fn variant_of(value: BoxValue<Self>) -> BoxVariant {
        BoxVariant::Multinum(value)
    }

    fn into_variant(v: BoxValue<Self>) -> (r: BoxVariant) {
        BoxVariant::Multinum(v)
    }
}

impl IntoVariant for UnixelBox {
    open spec fn variant_of(value: BoxValue<Self>) -> BoxVariant {
        BoxVariant::Unixel(value)
    }

    fn into_variant(v: BoxValue<Self>) -> (r: BoxVariant) {
        BoxVariant::Unixel(v)
    }
}

impl IntoVariant for VexelBox {
    open spec fn variant_of(value: BoxValue<Self>) -> BoxVariant {
        BoxVariant::Vexel(value)
    }

    fn into_variant(v: BoxValue<Self>) -> (r: BoxVariant) {
        BoxVariant::Vexel(v)
    }
}

impl IntoVariant for PixelBox {
    open spec fn variant_of(value: BoxValue<Self>) -> BoxVariant {
        BoxVariant::Pixel(value)
    }

    fn into_variant(v: BoxValue<Self>) -> (r: BoxVariant) {
        BoxVariant::Pixel(v)
    }
}

impl IntoVariant for MaxelBox {
    open spec fn variant_of(value: BoxValue<Self>) -> BoxVariant {
        BoxVariant::Maxel(value)
    }

    fn into_variant(v: BoxValue<Self>) -> (r: BoxVariant) {
        BoxVariant::Maxel(v)
    }
}

impl IntoVariant for SetBox {
    open spec fn variant_of(value: BoxValue<Self>) -> BoxVariant {
        BoxVariant::SetBox(value)
    }

    fn into_variant(v: BoxValue<Self>) -> (r: BoxVariant) {
        BoxVariant::SetBox(v)
    }
}

impl IntoVariant for ListBox {
    open spec fn variant_of(value: BoxValue<Self>) -> BoxVariant {
        BoxVariant::List(value)
    }

    fn into_variant(v: BoxValue<Self>) -> (r: BoxVariant) {
        BoxVariant::List(v)
    }
}

impl<T: IntoVariant> From<BoxValue<T>> for BoxVariant {
    fn from(value: BoxValue<T>) -> (r: Self)
        ensures
            r@ == value@,
            r.tag() == T::KIND,
            r.inv() == value.inv(),
    {
        T::into_variant(value)
    }
}

impl<T: IntoVariant> vstd::std_specs::convert::FromSpecImpl<BoxValue<T>> for BoxVariant {
    open spec fn obeys_from_spec() -> bool {
        true
    }

    open spec fn from_spec(v: BoxValue<T>) -> Self {
        T::variant_of(v)
    }
}

/// Both kinds are number-like.
pub open spec fn both_numeric(l: BoxKind, r: BoxKind) -> bool {
    (l == BoxKind::Num || l == BoxKind::Polynum || l == BoxKind::Multinum) && (r == BoxKind::Num || r
        == BoxKind::Polynum || r == BoxKind::Multinum)
}

/// The larger of two number-like kinds.
pub open spec fn numeric_join(l: BoxKind, r: BoxKind) -> BoxKind {
    if l == BoxKind::Multinum || r == BoxKind::Multinum {
        BoxKind::Multinum
    } else if l == BoxKind::Polynum || r == BoxKind::Polynum {
        BoxKind::Polynum
    } else {
        BoxKind::Num
    }
}

/// Boxes of these variants can be added.
pub open spec fn can_add(l: BoxKind, r: BoxKind) -> bool {
    l == BoxKind::Empty || r == BoxKind::Empty || both_numeric(l, r) || (l == BoxKind::Vexel && r
        == BoxKind::Vexel) || (l == BoxKind::Maxel && r == BoxKind::Maxel)
}

/// The output kind of adding boxes of these variants.
pub open spec fn add_out(l: BoxKind, r: BoxKind) -> BoxKind {
    if both_numeric(l, r) {
        numeric_join(l, r)
    } else {
        l
    }
}

/// The rows of the sum of two variants.
pub open spec fn variant_sum(l: Seq<Row>, lt: BoxKind, r: Seq<Row>, rt: BoxKind) -> Seq<Row> {
    if lt == BoxKind::Empty {
        r.update(0, row_with_color(r[0], color_xor(l[0].color, r[0].color)))
    } else if rt == BoxKind::Empty {
        l.update(0, row_with_color(l[0], color_xor(l[0].color, r[0].color)))
    } else {
        box_sum(l, r, add_out(lt, rt))
    }
}

/// The variant of the sum of two variants.
pub open spec fn variant_sum_tag(lt: BoxKind, rt: BoxKind, rows: Seq<Row>) -> BoxKind {
    if lt == BoxKind::Empty {
        rt
    } else if rt == BoxKind::Empty {
        lt
    } else {
        rows[0].kind
    }
}

/// Boxes of these variants can be multiplied.
pub open spec fn can_mul(l: BoxKind, r: BoxKind) -> bool {
    l == BoxKind::Empty || r == BoxKind::Empty || both_numeric(l, r) || (l == BoxKind::Maxel && (r
        == BoxKind::Maxel || r == BoxKind::Vexel))
}

/// The children of maxels and vexels have the shapes that their product reads.
pub open spec fn mul_shapes(l: Seq<Row>, lt: BoxKind, r: Seq<Row>, rt: BoxKind) -> bool {
    &&& (lt == BoxKind::Maxel && rt == BoxKind::Maxel) ==> all_pixels(l) && all_pixels(r)
    &&& (lt == BoxKind::Maxel && rt == BoxKind::Vexel) ==> all_pixels(l) && all_unixels(r)
}

/// The rows of the product of two variants.
pub open spec fn variant_product(l: Seq<Row>, lt: BoxKind, r: Seq<Row>, rt: BoxKind) -> Seq<Row> {
    if lt == BoxKind::Empty || rt == BoxKind::Empty {
        leaf_rows(BoxKind::Empty, color_xor(l[0].color, r[0].color))
    } else if lt == BoxKind::Maxel && rt == BoxKind::Maxel {
        maxel_product(l, r)
    } else if lt == BoxKind::Maxel && rt == BoxKind::Vexel {
        maxel_vexel_product(l, r)
    } else {
        box_product(l, r)
    }
}

/// The variant of the product of two variants.
pub open spec fn variant_product_tag(lt: BoxKind, rt: BoxKind, rows: Seq<Row>) -> BoxKind {
    if lt == BoxKind::Empty || rt == BoxKind::Empty {
        BoxKind::Empty
    } else {
        rows[0].kind
    }
}

/// Rows small enough to be added.
pub open spec fn add_fits(l: Seq<Row>, r: Seq<Row>) -> bool {
    l.len() + r.len() < u32::MAX
}

/// Rows small enough to be multiplied.
pub open spec fn mul_fits(l: Seq<Row>, r: Seq<Row>) -> bool {
    l.len() * r.len() * (l.len() + r.len()) < u32::MAX
}

/// The product of two variants fits in the rows' lengths: nothing is asked where one side is
/// empty; otherwise within the bound on the largest possible product, or, with the sums of
/// children fitting, as the product actually is.
pub open spec fn variant_mul_fits(l: Seq<Row>, lt: BoxKind, r: Seq<Row>, rt: BoxKind) -> bool {
    ||| lt == BoxKind::Empty
    ||| rt == BoxKind::Empty
    ||| mul_fits(l, r)
    ||| (l.len() + r.len() < u32::MAX && variant_product(l, lt, r, rt).len() <= u32::MAX)
}

impl BoxVariant {
    pub fn get_kind(&self, idx: usize) -> (r: BoxKind)
        requires
            self.inv(),
            idx < self@.len(),
        ensures
            r == self@[idx as int].kind,
    {
        match self {
            BoxVariant::Any(inner) => inner.get_kind(idx),
            BoxVariant::Empty(inner) => inner.get_kind(idx),
            BoxVariant::Num(inner) => inner.get_kind(idx),
            BoxVariant::Polynum(inner) => inner.get_kind(idx),
            BoxVariant::Multinum(inner) => inner.get_kind(idx),
            BoxVariant::Unixel(inner) => inner.get_kind(idx),
            BoxVariant::Vexel(inner) => inner.get_kind(idx),
            BoxVariant::Pixel(inner) => inner.get_kind(idx),
            BoxVariant::Maxel(inner) => inner.get_kind(idx),
            BoxVariant::SetBox(inner) => inner.get_kind(idx),
            BoxVariant::List(inner) => inner.get_kind(idx),
        }
    }

    pub fn get_color(&self, idx: usize) -> (r: Color)
        requires
            self.inv(),
            idx < self@.len(),
        ensures
            r == self@[idx as int].color,
    {
        match self {
            BoxVariant::Any(inner) => inner.get_color(idx),
            BoxVariant::Empty(inner) => inner.get_color(idx),
            BoxVariant::Num(inner) => inner.get_color(idx),
            BoxVariant::Polynum(inner) => inner.get_color(idx),
            BoxVariant::Multinum(inner) => inner.get_color(idx),
            BoxVariant::Unixel(inner) => inner.get_color(idx),
            BoxVariant::Vexel(inner) => inner.get_color(idx),
            BoxVariant::Pixel(inner) => inner.get_color(idx),
            BoxVariant::Maxel(inner) => inner.get_color(idx),
            BoxVariant::SetBox(inner) => inner.get_color(idx),
            BoxVariant::List(inner) => inner.get_color(idx),
        }
    }

    pub fn get_multiplicity(&self, idx: usize) -> (r: Natural)
        requires
            self.inv(),
            idx < self@.len(),
        ensures
            r@ == self@[idx as int].mult,
    {
        match self {
            BoxVariant::Any(inner) => inner.get_multiplicity(idx),
            BoxVariant::Empty(inner) => inner.get_multiplicity(idx),
            BoxVariant::Num(inner) => inner.get_multiplicity(idx),
            BoxVariant::Polynum(inner) => inner.get_multiplicity(idx),
            BoxVariant::Multinum(inner) => inner.get_multiplicity(idx),
            BoxVariant::Unixel(inner) => inner.get_multiplicity(idx),
            BoxVariant::Vexel(inner) => inner.get_multiplicity(idx),
            BoxVariant::Pixel(inner) => inner.get_multiplicity(idx),
            BoxVariant::Maxel(inner) => inner.get_multiplicity(idx),
            BoxVariant::SetBox(inner) => inner.get_multiplicity(idx),
            BoxVariant::List(inner) => inner.get_multiplicity(idx),
        }
    }

    pub fn get_length(&self, idx: usize) -> (r: u32)
        requires
            self.inv(),
            idx < self@.len(),
        ensures
            r as nat == self@[idx as int].len,
    {
        match self {
            BoxVariant::Any(inner) => inner.get_length(idx),
            BoxVariant::Empty(inner) => inner.get_length(idx),
            BoxVariant::Num(inner) => inner.get_length(idx),
            BoxVariant::Polynum(inner) => inner.get_length(idx),
            BoxVariant::Multinum(inner) => inner.get_length(idx),
            BoxVariant::Unixel(inner) => inner.get_length(idx),
            BoxVariant::Vexel(inner) => inner.get_length(idx),
            BoxVariant::Pixel(inner) => inner.get_length(idx),
            BoxVariant::Maxel(inner) => inner.get_length(idx),
            BoxVariant::SetBox(inner) => inner.get_length(idx),
            BoxVariant::List(inner) => inner.get_length(idx),
        }
    }

    /// The number of rows.
    pub fn rows(&self) -> (r: usize)
        requires
            self.inv(),
        ensures
            r == self@.len(),
    {
        match self {
            BoxVariant::Any(inner) => inner.rows(),
            BoxVariant::Empty(inner) => inner.rows(),
            BoxVariant::Num(inner) => inner.rows(),
            BoxVariant::Polynum(inner) => inner.rows(),
            BoxVariant::Multinum(inner) => inner.rows(),
            BoxVariant::Unixel(inner) => inner.rows(),
            BoxVariant::Vexel(inner) => inner.rows(),
            BoxVariant::Pixel(inner) => inner.rows(),
            BoxVariant::Maxel(inner) => inner.rows(),
            BoxVariant::SetBox(inner) => inner.rows(),
            BoxVariant::List(inner) => inner.rows(),
        }
    }

    pub fn set_kind(&mut self, idx: usize, kind: BoxKind)
        requires
            old(self).inv(),
            idx < old(self)@.len(),
        ensures
            final(self).inv(),
            final(self).tag() == old(self).tag(),
            final(self)@ == old(self)@.update(idx as int, row_with_kind(old(self)@[idx as int], kind)),
    {
        match self {
            BoxVariant::Any(inner) => inner.set_kind(idx, kind),
            BoxVariant::Empty(inner) => inner.set_kind(idx, kind),
            BoxVariant::Num(inner) => inner.set_kind(idx, kind),
            BoxVariant::Polynum(inner) => inner.set_kind(idx, kind),
            BoxVariant::Multinum(inner) => inner.set_kind(idx, kind),
            BoxVariant::Unixel(inner) => inner.set_kind(idx, kind),
            BoxVariant::Vexel(inner) => inner.set_kind(idx, kind),
            BoxVariant::Pixel(inner) => inner.set_kind(idx, kind),
            BoxVariant::Maxel(inner) => inner.set_kind(idx, kind),
            BoxVariant::SetBox(inner) => inner.set_kind(idx, kind),
            BoxVariant::List(inner) => inner.set_kind(idx, kind),
        }
    }

    pub fn set_color(&mut self, idx: usize, col: Color)
        requires
            old(self).inv(),
            idx < old(self)@.len(),
        ensures
            final(self).inv(),
            final(self).tag() == old(self).tag(),
            final(self)@ == old(self)@.update(idx as int, row_with_color(old(self)@[idx as int], col)),
    {
        match self {
            BoxVariant::Any(inner) => inner.set_color(idx, col),
            BoxVariant::Empty(inner) => inner.set_color(idx, col),
            BoxVariant::Num(inner) => inner.set_color(idx, col),
            BoxVariant::Polynum(inner) => inner.set_color(idx, col),
            BoxVariant::Multinum(inner) => inner.set_color(idx, col),
            BoxVariant::Unixel(inner) => inner.set_color(idx, col),
            BoxVariant::Vexel(inner) => inner.set_color(idx, col),
            BoxVariant::Pixel(inner) => inner.set_color(idx, col),
            BoxVariant::Maxel(inner) => inner.set_color(idx, col),
            BoxVariant::SetBox(inner) => inner.set_color(idx, col),
            BoxVariant::List(inner) => inner.set_color(idx, col),
        }
    }

    pub fn set_multiplicity(&mut self, idx: usize, mul: Natural)
        requires
            old(self).inv(),
            idx < old(self)@.len(),
        ensures
            final(self).inv(),
            final(self).tag() == old(self).tag(),
            final(self)@ == old(self)@.update(idx as int, row_with_mult(old(self)@[idx as int], mul@)),
    {
        match self {
            BoxVariant::Any(inner) => inner.set_multiplicity(idx, mul),
            BoxVariant::Empty(inner) => inner.set_multiplicity(idx, mul),
            BoxVariant::Num(inner) => inner.set_multiplicity(idx, mul),
            BoxVariant::Polynum(inner) => inner.set_multiplicity(idx, mul),
            BoxVariant::Multinum(inner) => inner.set_multiplicity(idx, mul),
            BoxVariant::Unixel(inner) => inner.set_multiplicity(idx, mul),
            BoxVariant::Vexel(inner) => inner.set_multiplicity(idx, mul),
            BoxVariant::Pixel(inner) => inner.set_multiplicity(idx, mul),
            BoxVariant::Maxel(inner) => inner.set_multiplicity(idx, mul),
            BoxVariant::SetBox(inner) => inner.set_multiplicity(idx, mul),
            BoxVariant::List(inner) => inner.set_multiplicity(idx, mul),
        }
    }

    pub fn set_length(&mut self, idx: usize, len: u32)
        requires
            old(self).inv(),
            idx < old(self)@.len(),
        ensures
            final(self).inv(),
            final(self).tag() == old(self).tag(),
            final(self)@ == old(self)@.update(idx as int, row_with_len(old(self)@[idx as int], len as nat)),
    {
        match self {
            BoxVariant::Any(inner) => inner.set_length(idx, len),
            BoxVariant::Empty(inner) => inner.set_length(idx, len),
            BoxVariant::Num(inner) => inner.set_length(idx, len),
            BoxVariant::Polynum(inner) => inner.set_length(idx, len),
            BoxVariant::Multinum(inner) => inner.set_length(idx, len),
            BoxVariant::Unixel(inner) => inner.set_length(idx, len),
            BoxVariant::Vexel(inner) => inner.set_length(idx, len),
            BoxVariant::Pixel(inner) => inner.set_length(idx, len),
            BoxVariant::Maxel(inner) => inner.set_length(idx, len),
            BoxVariant::SetBox(inner) => inner.set_length(idx, len),
            BoxVariant::List(inner) => inner.set_length(idx, len),
        }
    }

    /// Returns the underlying box as any box
    pub fn into_any_raw(self) -> (r: BoxValue<AnyBox>)
        ensures
            r@ == self@,
            r.inv() == self.inv(),
    {
        match self {
            BoxVariant::Any(inner) => inner.cast::<AnyBox>(),
            BoxVariant::Empty(inner) => inner.cast::<AnyBox>(),
            BoxVariant::Num(inner) => inner.cast::<AnyBox>(),
            BoxVariant::Polynum(inner) => inner.cast::<AnyBox>(),
            BoxVariant::Multinum(inner) => inner.cast::<AnyBox>(),
            BoxVariant::Unixel(inner) => inner.cast::<AnyBox>(),
            BoxVariant::Vexel(inner) => inner.cast::<AnyBox>(),
            BoxVariant::Pixel(inner) => inner.cast::<AnyBox>(),
            BoxVariant::Maxel(inner) => inner.cast::<AnyBox>(),
            BoxVariant::SetBox(inner) => inner.cast::<AnyBox>(),
            BoxVariant::List(inner) => inner.cast::<AnyBox>(),
        }
    }

    /// Convert into any box
    pub fn into_any(self) -> (r: BoxVariant)
        ensures
            r@ == self@,
            r.tag() == BoxKind::Any,
            r.inv() == self.inv(),
    {
        BoxVariant::Any(self.into_any_raw())
    }

    /// A copy of the variant.
    pub fn duplicate(&self) -> (r: BoxVariant)
        requires
            self.inv(),
        ensures
            r@ == self@,
            r.tag() == self.tag(),
            r.inv(),
    {
        match self {
            BoxVariant::Any(inner) => BoxVariant::Any(inner.duplicate()),
            BoxVariant::Empty(inner) => BoxVariant::Empty(inner.duplicate()),
            BoxVariant::Num(inner) => BoxVariant::Num(inner.duplicate()),
            BoxVariant::Polynum(inner) => BoxVariant::Polynum(inner.duplicate()),
            BoxVariant::Multinum(inner) => BoxVariant::Multinum(inner.duplicate()),
            BoxVariant::Unixel(inner) => BoxVariant::Unixel(inner.duplicate()),
            BoxVariant::Vexel(inner) => BoxVariant::Vexel(inner.duplicate()),
            BoxVariant::Pixel(inner) => BoxVariant::Pixel(inner.duplicate()),
            BoxVariant::Maxel(inner) => BoxVariant::Maxel(inner.duplicate()),
            BoxVariant::SetBox(inner) => BoxVariant::SetBox(inner.duplicate()),
            BoxVariant::List(inner) => BoxVariant::List(inner.duplicate()),
        }
    }

    /// Check if is is an anti-box
    pub fn is_anti(&self) -> (r: bool)
        requires
            self.inv(),
            self@.len() > 0,
        ensures
            r == (self@[0].color == Color::Red),
    {
        self.get_color(0) == Color::Red
    }

    /// Create a zero
    pub fn zero() -> (r: Self)
        ensures
            r.wf(),
            r.tag() == BoxKind::Empty,
            r@ == leaf_rows(BoxKind::Empty, Color::Black),
    {
        BoxVariant::Empty(BoxValue::zero())
    }

    /// Create an anti-zero
    pub fn anti_zero() -> (r: Self)
        ensures
            r.wf(),
            r.tag() == BoxKind::Empty,
            r@ == leaf_rows(BoxKind::Empty, Color::Red),
    {
        BoxVariant::Empty(BoxValue::anti_zero())
    }

    /// Create a one
    pub fn one() -> (r: Self)
        ensures
            r.wf(),
            r.tag() == BoxKind::Num,
            r@ == one_rows(Color::Black),
    {
        BoxVariant::Num(BoxValue::one())
    }

    /// Create an anti-one
    pub fn anti_one() -> (r: Self)
        ensures
            r.wf(),
            r.tag() == BoxKind::Num,
            r@ == one_rows(Color::Red),
    {
        BoxVariant::Num(BoxValue::anti_one())
    }

    /// Create an alpha
    pub fn alpha() -> (r: Self)
        ensures
            r.wf(),
            r.tag() == BoxKind::Polynum,
            r@ == alpha_rows(Color::Black),
    {
        BoxVariant::Polynum(BoxValue::alpha())
    }

    /// Create an anti-alpha
    pub fn anti_alpha() -> (r: Self)
        ensures
            r.wf(),
            r.tag() == BoxKind::Polynum,
            r@ == alpha_rows(Color::Red),
    {
        BoxVariant::Polynum(BoxValue::anti_alpha())
    }

    /// Create a beta
    pub fn beta(idx: Natural) -> (r: Self)
        ensures
            r.wf(),
            r.tag() == BoxKind::Multinum,
            r@ == beta_rows(Color::Black, idx@),
    {
        BoxVariant::Multinum(BoxValue::beta(idx))
    }

    /// Create an anti-beta
    pub fn anti_beta(idx: Natural) -> (r: Self)
        ensures
            r.wf(),
            r.tag() == BoxKind::Multinum,
            r@ == beta_rows(Color::Red, idx@),
    {
        BoxVariant::Multinum(BoxValue::anti_beta(idx))
    }

    /// Wrap the box in an empty box
    pub fn wrap<U: BoxType + IntoVariant>(self, mul: Natural) -> (r: Self)
        requires
            self.inv(),
            self@.len() > 0,
            self@[0].len < u32::MAX,
        ensures
            r.inv(),
            r.tag() == U::KIND,
            r@ == wrapped(U::KIND, self@, mul@),
    {
        let raw = self.into_any_raw();
        let w = raw.wrap::<U>(mul);
        U::into_variant(w)
    }

    /// Convert a box into its anti-box
    pub fn into_anti(self) -> (r: Self)
        requires
            self.inv(),
            self@.len() > 0,
        ensures
            r.inv(),
            r.tag() == self.tag(),
            r@ == self@.update(0, row_with_color(self@[0], color_flip(self@[0].color))),
    {
        let mut s = self;
        let col = s.get_color(0);
        match col {
            Color::Black => s.set_color(0, Color::Red),
            Color::Red => s.set_color(0, Color::Black),
        }
        s
    }

    /// Repack the box based on its runtime type
    pub fn repack_raw<T: BoxType>(raw: BoxValue<T>) -> (r: Self)
        requires
            raw.inv(),
            raw@.len() > 0,
        ensures
            r.inv(),
            r@ == raw@,
            r.tag() == raw@[0].kind,
    {
        match raw.kinds[0] {
            BoxKind::Any => BoxVariant::Any(raw.cast()),
            BoxKind::Empty => BoxVariant::Empty(raw.cast()),
            BoxKind::Num => BoxVariant::Num(raw.cast()),
            BoxKind::Polynum => BoxVariant::Polynum(raw.cast()),
            BoxKind::Multinum => BoxVariant::Multinum(raw.cast()),
            BoxKind::Unixel => BoxVariant::Unixel(raw.cast()),
            BoxKind::Vexel => BoxVariant::Vexel(raw.cast()),
            BoxKind::Pixel => BoxVariant::Pixel(raw.cast()),
            BoxKind::Maxel => BoxVariant::Maxel(raw.cast()),
            BoxKind::SetBox => BoxVariant::SetBox(raw.cast()),
            BoxKind::List => BoxVariant::List(raw.cast()),
        }
    }

    /// Compares contents; boxes of different variants, and unixels and pixels, never compare equal.
    pub fn is_eq_content(&self, other: &Self) -> (r: bool)
        requires
            self.inv(),
            other.inv(),
            self@.len() > 0,
            other@.len() > 0,
        ensures
            r == (self.tag() == other.tag() && self.tag() != BoxKind::Unixel && self.tag()
                != BoxKind::Pixel && content(self@) == content(other@)),
    {
        match (self, other) {
            (BoxVariant::Any(l), BoxVariant::Any(r)) => l.is_eq_content(r),
            (BoxVariant::Empty(l), BoxVariant::Empty(r)) => l.is_eq_content(r),
            (BoxVariant::Num(l), BoxVariant::Num(r)) => l.is_eq_content(r),
            (BoxVariant::Polynum(l), BoxVariant::Polynum(r)) => l.is_eq_content(r),
            (BoxVariant::Multinum(l), BoxVariant::Multinum(r)) => l.is_eq_content(r),
            (BoxVariant::Vexel(l), BoxVariant::Vexel(r)) => l.is_eq_content(r),
            (BoxVariant::Maxel(l), BoxVariant::Maxel(r)) => l.is_eq_content(r),
            (BoxVariant::SetBox(l), BoxVariant::SetBox(r)) => l.is_eq_content(r),
            (BoxVariant::List(l), BoxVariant::List(r)) => l.is_eq_content(r),
            (_, _) => false,
        }
    }

    pub fn sort_immediate_children(&mut self)
        requires
            old(self).wf(),
        ensures
            final(self).wf(),
            final(self).tag() == old(self).tag(),
            final(self)@[0] == old(self)@[0],
            crate::model::children(final(self)@).to_multiset() == crate::model::children(old(self)@).to_multiset(),
            crate::order::sorted_by(crate::model::children(final(self)@), false),
    {
        match self {
            BoxVariant::Any(inner) => inner.sort_immediate_children(),
            BoxVariant::Empty(inner) => inner.sort_immediate_children(),
            BoxVariant::Num(inner) => inner.sort_immediate_children(),
            BoxVariant::Polynum(inner) => inner.sort_immediate_children(),
            BoxVariant::Multinum(inner) => inner.sort_immediate_children(),
            BoxVariant::Unixel(inner) => inner.sort_immediate_children(),
            BoxVariant::Vexel(inner) => inner.sort_immediate_children(),
            BoxVariant::Pixel(inner) => inner.sort_immediate_children(),
            BoxVariant::Maxel(inner) => inner.sort_immediate_children(),
            BoxVariant::SetBox(inner) => inner.sort_immediate_children(),
            BoxVariant::List(inner) => inner.sort_immediate_children(),
        }
    }

    /// Adds two boxes.
    pub fn add(self, rhs: Self) -> (r: Self)
        requires
            self.wf(),
            rhs.wf(),
            can_add(self.tag(), rhs.tag()),
            add_fits(self@, rhs@),
        ensures
            r.wf(),
            r@ == variant_sum(self@, self.tag(), rhs@, rhs.tag()),
            r.tag() == variant_sum_tag(self.tag(), rhs.tag(), r@),
            self.tag() != BoxKind::Empty && rhs.tag() != BoxKind::Empty ==> sum_post(
                self@,
                rhs@,
                add_out(self.tag(), rhs.tag()),
                r@,
            ),
    {
        let ghost ls = self@;
        let ghost rs = rhs@;
        match (self, rhs) {
            (BoxVariant::Empty(l), r) => {
                let mut r = r;
                let l_col = l.get_color(0);
                let r_col = r.get_color(0);
                r.set_color(0, l_col + r_col);
                proof {
                    assert(r@.drop_first() =~= rs.drop_first());
                    assert(r@ =~= seq![r@[0]] + r@.drop_first());
                    assert(rs =~= seq![rs[0]] + rs.drop_first());
                }
                r
            },
            (l, BoxVariant::Empty(r)) => {
                let mut l = l;
                let l_col = l.get_color(0);
                let r_col = r.get_color(0);
                l.set_color(0, l_col + r_col);
                proof {
                    assert(l@.drop_first() =~= ls.drop_first());
                    assert(l@ =~= seq![l@[0]] + l@.drop_first());
                    assert(ls =~= seq![ls[0]] + ls.drop_first());
                }
                l
            },
            (BoxVariant::Num(l), BoxVariant::Num(r)) => BoxVariant::repack_raw(l.add_boxes(r)),
            (BoxVariant::Num(l), BoxVariant::Polynum(r)) => BoxVariant::repack_raw(l.add_boxes(r)),
            (BoxVariant::Polynum(l), BoxVariant::Num(r)) => BoxVariant::repack_raw(l.add_boxes(r)),
            (BoxVariant::Polynum(l), BoxVariant::Polynum(r)) => BoxVariant::repack_raw(l.add_boxes(r)),
            (BoxVariant::Num(l), BoxVariant::Multinum(r)) => BoxVariant::repack_raw(l.add_boxes(r)),
            (BoxVariant::Multinum(l), BoxVariant::Num(r)) => BoxVariant::repack_raw(l.add_boxes(r)),
            (BoxVariant::Polynum(l), BoxVariant::Multinum(r)) => BoxVariant::repack_raw(l.add_boxes(r)),
            (BoxVariant::Multinum(l), BoxVariant::Polynum(r)) => BoxVariant::repack_raw(l.add_boxes(r)),
            (BoxVariant::Multinum(l), BoxVariant::Multinum(r)) => BoxVariant::repack_raw(l.add_boxes(r)),
            (BoxVariant::Vexel(l), BoxVariant::Vexel(r)) => BoxVariant::repack_raw(l.add_boxes(r)),
            (BoxVariant::Maxel(l), BoxVariant::Maxel(r)) => BoxVariant::repack_raw(l.add_boxes(r)),
            (_, _) => {
                proof {
                    assert(false);
                }
                BoxVariant::zero()
            },
        }
    }

    /// Multiplies two boxes.
    pub fn mul(self, rhs: Self) -> (r: Self)
        requires
            self.wf(),
            rhs.wf(),
            can_mul(self.tag(), rhs.tag()),
            mul_shapes(self@, self.tag(), rhs@, rhs.tag()),
            variant_mul_fits(self@, self.tag(), rhs@, rhs.tag()),
        ensures
            r.wf(),
            r@ == variant_product(self@, self.tag(), rhs@, rhs.tag()),
            r.tag() == variant_product_tag(self.tag(), rhs.tag(), r@),
            both_numeric(self.tag(), rhs.tag()) ==> product_post(self@, rhs@, r@),
    {
        match (self, rhs) {
            (BoxVariant::Empty(l), r) => {
                let l_col = l.get_color(0);
                let r_col = r.get_color(0);
                match l_col * r_col {
                    Color::Black => BoxVariant::zero(),
                    Color::Red => BoxVariant::anti_zero(),
                }
            },
            (l, BoxVariant::Empty(r)) => {
                let l_col = l.get_color(0);
                let r_col = r.get_color(0);
                match l_col * r_col {
                    Color::Black => BoxVariant::zero(),
                    Color::Red => BoxVariant::anti_zero(),
                }
            },
            (BoxVariant::Num(l), BoxVariant::Num(r)) => BoxVariant::repack_raw(l.mul_boxes(r)),
            (BoxVariant::Num(l), BoxVariant::Polynum(r)) => BoxVariant::repack_raw(l.mul_boxes(r)),
            (BoxVariant::Polynum(l), BoxVariant::Num(r)) => BoxVariant::repack_raw(l.mul_boxes(r)),
            (BoxVariant::Polynum(l), BoxVariant::Polynum(r)) => BoxVariant::repack_raw(l.mul_boxes(r)),
            (BoxVariant::Num(l), BoxVariant::Multinum(r)) => BoxVariant::repack_raw(l.mul_boxes(r)),
            (BoxVariant::Multinum(l), BoxVariant::Num(r)) => BoxVariant::repack_raw(l.mul_boxes(r)),
            (BoxVariant::Polynum(l), BoxVariant::Multinum(r)) => BoxVariant::repack_raw(l.mul_boxes(r)),
            (BoxVariant::Multinum(l), BoxVariant::Polynum(r)) => BoxVariant::repack_raw(l.mul_boxes(r)),
            (BoxVariant::Multinum(l), BoxVariant::Multinum(r)) => BoxVariant::repack_raw(l.mul_boxes(r)),
            (BoxVariant::Maxel(l), BoxVariant::Vexel(r)) => BoxVariant::repack_raw(l.mul_max_vex(r)),
            (BoxVariant::Maxel(l), BoxVariant::Maxel(r)) => BoxVariant::repack_raw(BoxValue::mul_max(l, r)),
            (_, _) => {
                proof {
                    assert(false);
                }
                BoxVariant::zero()
            },
        }
    }
}

} // verus!
