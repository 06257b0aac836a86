//! Column decoder for variable-length values.
//!
//! Decodes one value from the front of every row's remaining bytes into a
//! binary-view array. The common case — no nulls — allocates no validity
//! bitmap: the decoder starts without one and promotes the output the first
//! time it meets a null, filling the bitmap for the rows already emitted.

use vstd::prelude::*;

use crate::binview::BinaryViewArray;
use crate::error::DecodeError;
use crate::options::RowEncodingOptions;
use crate::varlen::{decode_varlen_item, varlen_decoded};

verus! {

/// What decoding one variable-length value from row `i`, starting at that
/// row's cursor, yields.
pub open spec fn row_dec(
    rows: Seq<Vec<u8>>,
    pos: Seq<usize>,
    opt: RowEncodingOptions,
    i: int,
) -> Result<(Option<Seq<u8>>, int), DecodeError> {
    varlen_decoded(rows[i]@.skip(pos[i] as int), opt)
}

/// The values the first `n` rows decode to, in row order.
pub open spec fn dec_vals(
    rows: Seq<Vec<u8>>,
    pos: Seq<usize>,
    opt: RowEncodingOptions,
    n: int,
) -> Seq<Option<Seq<u8>>> {
    Seq::new(n as nat, |i: int| row_dec(rows, pos, opt, i).unwrap().0)
}

/// Every row's remaining bytes start with one well-formed value.
pub open spec fn all_rows_decode(rows: Seq<Vec<u8>>, pos: Seq<usize>, opt: RowEncodingOptions) -> bool {
    forall|i: int| 0 <= i < rows.len() ==> #[trigger] row_dec(rows, pos, opt, i) is Ok
}

/// Decodes one variable-length value from every row, advancing each row's
/// cursor past the bytes consumed. Succeeds exactly when every row starts
/// with a well-formed value; the array then holds row `i`'s value at index
/// `i`. On a malformed row the error is that row's decode error.
pub fn decode_str(rows: &Vec<Vec<u8>>, pos: &mut Vec<usize>, opt: RowEncodingOptions) -> (r:
    Result<BinaryViewArray, DecodeError>)
    requires
        old(pos)@.len() == rows@.len(),
        forall|i: int| 0 <= i < rows@.len() ==> old(pos)@[i] <= rows@[i]@.len(),
    ensures
        final(pos)@.len() == rows@.len(),
        r is Ok <==> all_rows_decode(rows@, old(pos)@, opt),
        r matches Ok(arr) ==> (arr.validity is None <==> forall|i: int|
            0 <= i < rows@.len() ==> row_dec(rows@, old(pos)@, opt, i).unwrap().0 is Some),
        r matches Ok(arr) ==> arr.wf() && arr@.len() == rows@.len() && forall|i: int|
            0 <= i < rows@.len() ==> arr@[i] == row_dec(rows@, old(pos)@, opt, i).unwrap().0
                && #[trigger] final(pos)@[i] == old(pos)@[i] + row_dec(
                rows@,
                old(pos)@,
                opt,
                i,
            ).unwrap().1,
        r matches Err(e) ==> exists|i: int|
            0 <= i < rows@.len() && #[trigger] row_dec(rows@, old(pos)@, opt, i) == Err::<
                (Option<Seq<u8>>, int),
                DecodeError,
            >(e),
{
    let ghost pos0 = old(pos)@;
    let n = rows.len();
    let mut values: Vec<Vec<u8>> = Vec::new();
    let mut i: usize = 0;
    while i < n
        invariant_except_break
            n == rows@.len(),
            pos0 == old(pos)@,
            pos@.len() == n,
            pos0.len() == n,
            i <= n,
            values@.len() == i,
            forall|j: int| 0 <= j < n ==> pos0[j] <= rows@[j]@.len(),
            forall|j: int| i <= j < n ==> pos@[j] == pos0[j],
            forall|j: int|
                0 <= j < i ==> #[trigger] row_dec(rows@, pos0, opt, j) is Ok && row_dec(
                    rows@,
                    pos0,
                    opt,
                    j,
                ).unwrap().0 == Some(values@[j]@) && pos@[j] == pos0[j] + row_dec(
                    rows@,
                    pos0,
                    opt,
                    j,
                ).unwrap().1,
        ensures
            n == rows@.len(),
            pos@.len() == n,
            values@.len() <= n,
            forall|j: int| 0 <= j < n ==> pos0[j] <= rows@[j]@.len(),
            forall|j: int| (values@.len() as int) < j < n ==> pos@[j] == pos0[j],
            forall|j: int|
                0 <= j < values@.len() ==> #[trigger] row_dec(rows@, pos0, opt, j) is Ok
                    && row_dec(rows@, pos0, opt, j).unwrap().0 == Some(values@[j]@) && pos@[j]
                    == pos0[j] + row_dec(rows@, pos0, opt, j).unwrap().1,
            values@.len() < n ==> row_dec(rows@, pos0, opt, values@.len() as int) == Ok::<
                (Option<Seq<u8>>, int),
                DecodeError,
            >((None, 1)) && pos@[values@.len() as int] == pos0[values@.len() as int] + 1,
        decreases n - i,
    {
        let p = pos[i];
        let _rlen = rows[i].len();
        proof {
            assert(pos@[i as int] == pos0[i as int]);
            assert(pos0[i as int] <= rows@[i as int]@.len());
        }
        match decode_varlen_item(&rows[i], p, opt) {
            Err(e) => {
                proof {
                    assert(row_dec(rows@, pos0, opt, i as int) == Err::<
                        (Option<Seq<u8>>, int),
                        DecodeError,
                    >(e));
                }
                return Err(e);
            },
            Ok((val, c)) => {
                pos[i] = p + c;
                match val {
                    Some(v) => {
                        values.push(v);
                    },
                    None => {
                        break;
                    },
                }
            },
        }
        i = i + 1;
    }
    let k = values.len();
    if k == n {
        return Ok(BinaryViewArray { values, validity: None });
    }
    let mut validity: Vec<bool> = Vec::new();
    let mut t: usize = 0;
    while t < k
        invariant
            t <= k,
            validity@.len() == t,
            forall|j: int| 0 <= j < t ==> validity@[j],
        decreases k - t,
    {
        validity.push(true);
        t = t + 1;
    }
    validity.push(false);
    values.push(Vec::new());
    let mut i2: usize = k + 1;
    while i2 < n
        invariant
            n == rows@.len(),
            pos0 == old(pos)@,
            pos@.len() == n,
            pos0.len() == n,
            k < i2 <= n,
            values@.len() == i2,
            validity@.len() == i2,
            forall|j: int| 0 <= j < n ==> pos0[j] <= rows@[j]@.len(),
            forall|j: int| i2 <= j < n ==> pos@[j] == pos0[j],
            forall|j: int|
                0 <= j < i2 ==> #[trigger] row_dec(rows@, pos0, opt, j) is Ok && pos@[j] == pos0[j]
                    + row_dec(rows@, pos0, opt, j).unwrap().1 && row_dec(
                    rows@,
                    pos0,
                    opt,
                    j,
                ).unwrap().0 == (if validity@[j] {
                    Some(values@[j]@)
                } else {
                    None
                }),
        decreases n - i2,
    {
        let p = pos[i2];
        let _rlen = rows[i2].len();
        proof {
            assert(pos@[i2 as int] == pos0[i2 as int]);
            assert(pos0[i2 as int] <= rows@[i2 as int]@.len());
        }
        match decode_varlen_item(&rows[i2], p, opt) {
            Err(e) => {
                proof {
                    assert(row_dec(rows@, pos0, opt, i2 as int) == Err::<
                        (Option<Seq<u8>>, int),
                        DecodeError,
                    >(e));
                }
                return Err(e);
            },
            Ok((val, c)) => {
                pos[i2] = p + c;
                match val {
                    Some(v) => {
                        values.push(v);
                        validity.push(true);
                    },
                    None => {
                        values.push(Vec::new());
                        validity.push(false);
                    },
                }
            },
        }
        i2 = i2 + 1;
    }
    Ok(BinaryViewArray { values, validity: Some(validity) })
}

} // verus!
