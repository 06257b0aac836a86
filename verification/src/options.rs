//! Per-column encoding options and the null-sentinel policy.
//!
//! Each column is encoded under a set of flags: `descending` inverts the
//! encoded bytes so that larger values compare smaller, `nulls_last` moves
//! nulls after all non-null values, and `unordered` selects a cheaper variant
//! that is still invertible but makes no ordering promise.

use vstd::prelude::*;

verus! {

/// Reserved byte marking a null when nulls sort first.
pub const NULL_SENTINEL_FIRST: u8 = 0x00;
/// Reserved byte marking a null when nulls sort last.
pub const NULL_SENTINEL_LAST: u8 = 0xFF;

/// Per-column flags controlling sort direction, null position, and the
/// unordered (hash/equality only) mode.
#[derive(Clone, Copy, PartialEq, Eq, Structural, Debug)]
pub struct RowEncodingOptions {
    /// Invert every encoded byte so larger values compare smaller.
    pub descending: bool,
    /// Place nulls after all non-null values.
    pub nulls_last: bool,
    /// Invertible but not order-preserving; for hashing and equality only.
    pub unordered: bool,
}

/// The single byte that marks a null in the first position of a column's
/// encoding: `0xFF` when nulls sort last, `0x00` otherwise.
pub open spec fn spec_null_sentinel(opt: RowEncodingOptions) -> u8 {
    if opt.nulls_last {
        NULL_SENTINEL_LAST
    } else {
        NULL_SENTINEL_FIRST
    }
}

impl RowEncodingOptions {
    /// Ascending, nulls first, ordered: the default encoding.
    pub fn new_sorted() -> (r: Self)
        ensures
            !r.descending,
            !r.nulls_last,
            !r.unordered,
    {
        RowEncodingOptions { descending: false, nulls_last: false, unordered: false }
    }

    /// The invertible variant with no ordering promise.
    pub fn new_unsorted() -> (r: Self)
        ensures
            !r.descending,
            !r.nulls_last,
            r.unordered,
    {
        RowEncodingOptions { descending: false, nulls_last: false, unordered: true }
    }

    /// The byte written for a null value in this column.
    ///
    /// Non-null encodings never start with either reserved sentinel, so with
    /// `0x00` nulls sort before every value and with `0xFF` after every value.
    pub fn null_sentinel(&self) -> (r: u8)
        ensures
            r == spec_null_sentinel(*self),
    {
        if self.nulls_last {
            NULL_SENTINEL_LAST
        } else {
            NULL_SENTINEL_FIRST
        }
    }
}

} // verus!
