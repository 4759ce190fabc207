use vstd::prelude::*;

pub mod add;
pub mod canon;
pub mod caret;
pub mod compare;
pub mod derivative;
pub mod display;
pub mod div;
pub mod eval;
pub mod iter;
pub mod laws;
pub mod lexer;
pub mod maxel;
pub mod model;
pub mod mul;
pub mod natural;
pub mod ops;
pub mod order;
pub mod parser;
pub mod set;
pub mod sort;
pub mod store;
pub mod sub;
pub mod tree;
pub mod value;
pub mod variant;

pub use model::Row;
pub use natural::Natural;
pub use value::BoxValue;
pub use variant::{BoxVariant, IntoVariant};

verus! {

/// Color of a box: a black box counts positively, a red (anti-)box negatively.
#[derive(Debug, Clone, Copy, Hash, PartialEq, Eq, Structural, PartialOrd, Ord)]
pub enum Color {
    Red,
    Black,
}

/// The color obtained by combining two colors: equal colors give black, different ones red.
pub open spec fn color_xor(a: Color, b: Color) -> Color {
    if a == b { Color::Black } else { Color::Red }
}

/// The other color.
pub open spec fn color_flip(c: Color) -> Color {
    match c {
        Color::Black => Color::Red,
        Color::Red => Color::Black,
    }
}

impl Color {
    pub fn invert(self) -> (r: Self)
        ensures
            r == color_flip(self),
    {
        match self {
            Color::Black => Color::Red,
            Color::Red => Color::Black,
        }
    }
}

/// Kind of boxes that can exist in a store
#[derive(Debug, Clone, Copy, Hash, PartialEq, Eq, Structural, PartialOrd, Ord)]
pub enum BoxKind {
    Any,
    Empty,
    Num,
    Polynum,
    Multinum,
    Unixel,
    Vexel,
    Pixel,
    Maxel,
    SetBox,
    List,
}

/// The kind of a number-like box whose deepest child has the given number of rows.
pub open spec fn kind_of_depth(depth: nat) -> BoxKind {
    if depth == 0 {
        BoxKind::Empty
    } else if depth == 1 {
        BoxKind::Num
    } else if depth == 2 {
        BoxKind::Polynum
    } else if depth == 3 {
        BoxKind::Multinum
    } else {
        BoxKind::Any
    }
}

impl BoxKind {
    pub fn get_kind_from_depth(depth: u32) -> (r: BoxKind)
        ensures
            r == kind_of_depth(depth as nat),
    {
        match depth {
            0 => BoxKind::Empty,
            1 => BoxKind::Num,
            2 => BoxKind::Polynum,
            3 => BoxKind::Multinum,
            _ => BoxKind::Any,
        }
    }
}

/// Trait for types of boxes
pub trait BoxType: Sized + Clone + PartialEq + Eq + core::fmt::Debug {
    const KIND: BoxKind;
}

/// Implementations of the [`BoxType`] trait
#[derive(Debug, Clone, Copy, PartialEq, Eq, Hash)]
pub struct AnyBox;

impl BoxType for AnyBox {
    const KIND: BoxKind = BoxKind::Any;
}

#[derive(Debug, Clone, Copy, PartialEq, Eq, Hash)]
pub struct EmptyBox;

impl BoxType for EmptyBox {
    const KIND: BoxKind = BoxKind::Empty;
}

#[derive(Debug, Clone, Copy, PartialEq, Eq, Hash)]
pub struct NumBox;

impl BoxType for NumBox {
    const KIND: BoxKind = BoxKind::Num;
}

#[derive(Debug, Clone, Copy, PartialEq, Eq, Hash)]
pub struct PolynumBox;

impl BoxType for PolynumBox {
    const KIND: BoxKind = BoxKind::Polynum;
}

#[derive(Debug, Clone, Copy, PartialEq, Eq, Hash)]
pub struct MultinumBox;

impl BoxType for MultinumBox {
    const KIND: BoxKind = BoxKind::Multinum;
}

#[derive(Debug, Clone, Copy, PartialEq, Eq, Hash)]
pub struct PixelBox;

impl BoxType for PixelBox {
    const KIND: BoxKind = BoxKind::Pixel;
}

#[derive(Debug, Clone, Copy, PartialEq, Eq, Hash)]
pub struct MaxelBox;

impl BoxType for MaxelBox {
    const KIND: BoxKind = BoxKind::Maxel;
}

#[derive(Debug, Clone, Copy, PartialEq, Eq, Hash)]
pub struct UnixelBox;

impl BoxType for UnixelBox {
    const KIND: BoxKind = BoxKind::Unixel;
}

#[derive(Debug, Clone, Copy, PartialEq, Eq, Hash)]
pub struct VexelBox;

impl BoxType for VexelBox {
    const KIND: BoxKind = BoxKind::Vexel;
}

#[derive(Debug, Clone, Copy, PartialEq, Eq, Hash)]
pub struct SetBox;

impl BoxType for SetBox {
    const KIND: BoxKind = BoxKind::SetBox;
}

#[derive(Debug, Clone, Copy, PartialEq, Eq, Hash)]
pub struct ListBox;

impl BoxType for ListBox {
    const KIND: BoxKind = BoxKind::List;
}

} // verus!
