//! Output container for decoded variable-length values.
//!
//! A binary-view array stores one byte sequence per row plus an optional
//! validity bitmap. While no null has been seen the bitmap is absent and
//! every row is valid; the decoder promotes the array to carry a bitmap the
//! first time it meets a null, so an all-non-null column never pays for one.

use vstd::prelude::*;

verus! {

/// Variable-length values with an optional validity bitmap. Without a
/// bitmap every stored value is valid; with one, rows whose bit is false are
/// null and hold an empty placeholder.
#[derive(Debug)]
pub struct BinaryViewArray {
    pub values: Vec<Vec<u8>>,
    pub validity: Option<Vec<bool>>,
}

impl BinaryViewArray {
    /// A bitmap, when present, has one bit per stored value.
    pub open spec fn wf(&self) -> bool {
        match self.validity {
            None => true,
            Some(v) => v@.len() == self.values@.len(),
        }
    }

    /// The value of row `i`: `None` where the bitmap marks it null.
    pub open spec fn spec_value_at(&self, i: int) -> Option<Seq<u8>> {
        match self.validity {
            None => Some(self.values@[i]@),
            Some(v) => if v@[i] {
                Some(self.values@[i]@)
            } else {
                None
            },
        }
    }

    /// The array as the sequence of optional values it holds.
    pub open spec fn view(&self) -> Seq<Option<Seq<u8>>> {
        Seq::new(self.values@.len(), |i: int| self.spec_value_at(i))
    }

    /// An empty array without a bitmap.
    pub fn new() -> (r: Self)
        ensures
            r.wf(),
            r@ =~= Seq::<Option<Seq<u8>>>::empty(),
            r.validity is None,
    {
        BinaryViewArray { values: Vec::new(), validity: None }
    }

    /// Number of rows.
    pub fn len(&self) -> (r: usize)
        ensures
            r == self@.len(),
    {
        self.values.len()
    }

    /// Whether the array carries a validity bitmap at all.
    pub fn has_validity(&self) -> (r: bool)
        ensures
            r == (self.validity is Some),
    {
        self.validity.is_some()
    }

    /// Whether row `i` holds a non-null value.
    pub fn is_valid(&self, i: usize) -> (r: bool)
        requires
            self.wf(),
            i < self@.len(),
        ensures
            r == (self@[i as int] is Some),
    {
        match &self.validity {
            None => true,
            Some(v) => v[i],
        }
    }

    /// The stored bytes of row `i` (the empty placeholder where the row is
    /// null).
    pub fn value_bytes(&self, i: usize) -> (r: &Vec<u8>)
        requires
            self.wf(),
            i < self@.len(),
        ensures
            self@[i as int] matches Some(b) ==> r@ == b,
    {
        &self.values[i]
    }
}

} // verus!
