//! Comparing two boxes by their contents below the first row.
use crate::model::Row;
use crate::order::{colors_of, lex, lex_colors, lex_mults, mults_of, then};
use crate::value::BoxValue;
use crate::BoxType;
use core::cmp::Ordering;
use vstd::prelude::*;
use vstd::std_specs::cmp::PartialOrdSpecImpl;

verus! {

/// The rows of a box below its first row, up to the length recorded in the first row.
pub open spec fn inner_rows(a: Seq<Row>) -> Seq<Row> {
    a.subrange(1, a[0].len as int)
}

/// The comparison of the contents of two boxes: multiplicities first, then colors (red
/// before black), lexicographically.
pub open spec fn content_order(a: Seq<Row>, b: Seq<Row>) -> int {
    then(
        lex(mults_of(inner_rows(a)), mults_of(inner_rows(b))),
        lex(colors_of(inner_rows(a)), colors_of(inner_rows(b))),
    )
}

/// The recorded length of the first row is a valid end of the rows.
pub open spec fn shaped<T: BoxType>(v: &BoxValue<T>) -> bool {
    v.inv() && v@.len() > 0 && 1 <= v@[0].len <= v@.len()
}

/// The ordering that a comparison result stands for.
pub open spec fn ordering_of(x: int) -> Ordering {
    if x < 0 {
        Ordering::Less
    } else if x > 0 {
        Ordering::Greater
    } else {
        Ordering::Equal
    }
}

impl<T: BoxType> BoxValue<T> {
    /// Compares the contents of two boxes: -1, 0 or 1.
    pub fn compare_content(&self, other: &Self) -> (r: i8)
        requires
            shaped(self),
            shaped(other),
        ensures
            r as int == content_order(self@, other@),
    {
        let la = self.get_length(0) as usize;
        let lb = other.get_length(0) as usize;
        let sa = self.slice(1, la);
        let sb = other.slice(1, lb);
        let m = lex_mults(&sa, &sb);
        if m != 0 {
            return m;
        }
        lex_colors(&sa, &sb)
    }

    /// Whether the recorded length of the first row is a valid end of the rows.
    pub fn is_shaped(&self) -> (r: bool)
        ensures
            r == shaped(self),
    {
        let n = self.kinds.len();
        if self.colors.len() != n || self.multiplicities.len() != n || self.lengths.len() != n || n == 0 {
            return false;
        }
        let l = self.lengths[0] as usize;
        1 <= l && l <= n
    }
}

impl<T: BoxType> PartialOrd for BoxValue<T> {
    fn partial_cmp(&self, other: &Self) -> (r: Option<Ordering>) {
        if self.is_shaped() && other.is_shaped() {
            let c = self.compare_content(other);
            if c < 0 {
                Some(Ordering::Less)
            } else if c > 0 {
                Some(Ordering::Greater)
            } else {
                Some(Ordering::Equal)
            }
        } else {
            None
        }
    }
}

impl<T: BoxType> PartialOrdSpecImpl for BoxValue<T> {
    open spec fn obeys_partial_cmp_spec() -> bool {
        true
    }

    open spec fn partial_cmp_spec(&self, other: &Self) -> Option<Ordering> {
        if shaped(self) && shaped(other) {
            Some(ordering_of(content_order(self@, other@)))
        } else {
            None
        }
    }
}

} // verus!
