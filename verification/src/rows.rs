//! Typed column values, the row assembler and the row disassembler.
//!
//! A row is the concatenation of its columns' encodings, with no padding
//! between them. The assembler sums per-column lengths, lays the rows out in
//! one flat buffer and records each row's start in an offsets vector; the
//! disassembler walks every row column by column and insists that each row
//! is consumed exactly.

use vstd::prelude::*;

use crate::error::{DecodeError, EncodeError};
use crate::fixed::{
    decode_fixed_bool, decode_fixed_i32, decode_fixed_u32, encode_fixed_bool, encode_fixed_i32,
    encode_fixed_u32, fixed_block_bool, fixed_block_i32, fixed_block_u32, fixed_decoded_bool,
    fixed_decoded_u32, i32_to_ord_u32, lemma_fixed_bool_round_trip, lemma_fixed_u32_round_trip,
    ord_u32_to_i32,
};
use crate::options::RowEncodingOptions;
use crate::order::{
    fixed_value_cmp_bool, fixed_value_cmp_i32, fixed_value_cmp_u32, lemma_differ_within_equal_len,
    lemma_fixed_bool_order, lemma_fixed_i32_order, lemma_fixed_u32_order, lemma_lex_cmp_concat_differ,
    lemma_lex_cmp_concat_eq, lemma_lex_cmp_zero, lemma_varlen_enc_differ, lemma_varlen_order,
    lex_cmp, varlen_value_cmp,
};
use crate::varlen::{
    bytes_eq, decode_varlen_item, encode_varlen_ref, lemma_varlen_round_trip, len_from_item,
    valid_payload, varlen_decoded, varlen_encoded,
};

verus! {

/// The logical type of one column.
#[derive(Clone, Copy, PartialEq, Eq, Structural, Debug)]
pub enum ColumnType {
    /// Variable-length UTF-8 or binary payload.
    Str,
    /// Unsigned 32-bit integer.
    UInt,
    /// Signed 32-bit integer.
    Int,
    /// Boolean.
    Bool,
}

/// One value of a column: null, or a payload of the column's type.
#[derive(Clone, Debug)]
pub enum Value {
    /// The null value of any column type.
    Null,
    /// A variable-length payload.
    Str(Vec<u8>),
    /// An unsigned 32-bit integer.
    UInt(u32),
    /// A signed 32-bit integer.
    Int(i32),
    /// A boolean.
    Bool(bool),
}

/// The mathematical shadow of `Value`.
pub enum ValModel {
    /// The null value.
    Null,
    /// A variable-length payload.
    Str(Seq<u8>),
    /// An unsigned 32-bit integer.
    UInt(u32),
    /// A signed 32-bit integer.
    Int(i32),
    /// A boolean.
    Bool(bool),
}

/// The model of one value.
pub open spec fn value_model(v: Value) -> ValModel {
    match v {
        Value::Null => ValModel::Null,
        Value::Str(b) => ValModel::Str(b@),
        Value::UInt(x) => ValModel::UInt(x),
        Value::Int(x) => ValModel::Int(x),
        Value::Bool(x) => ValModel::Bool(x),
    }
}

/// The models of a row of values.
pub open spec fn row_models(row: Seq<Value>) -> Seq<ValModel> {
    row.map_values(|v: Value| value_model(v))
}

/// A variable-length model as the optional payload it holds.
pub open spec fn as_str(m: ValModel) -> Option<Seq<u8>> {
    match m {
        ValModel::Str(s) => Some(s),
        _ => None,
    }
}

/// An unsigned model as the optional value it holds.
pub open spec fn as_uint(m: ValModel) -> Option<u32> {
    match m {
        ValModel::UInt(x) => Some(x),
        _ => None,
    }
}

/// A signed model as the optional value it holds.
pub open spec fn as_int(m: ValModel) -> Option<i32> {
    match m {
        ValModel::Int(x) => Some(x),
        _ => None,
    }
}

/// A boolean model as the optional value it holds.
pub open spec fn as_bool(m: ValModel) -> Option<bool> {
    match m {
        ValModel::Bool(x) => Some(x),
        _ => None,
    }
}

/// The value fits the column: null always does, otherwise the payload is of
/// the column's type and, for a variable-length column, within the byte
/// domain the shift scheme accepts.
pub open spec fn model_wf(m: ValModel, t: ColumnType) -> bool {
    match (m, t) {
        (ValModel::Null, _) => true,
        (ValModel::Str(s), ColumnType::Str) => valid_payload(s),
        (ValModel::UInt(_), ColumnType::UInt) => true,
        (ValModel::Int(_), ColumnType::Int) => true,
        (ValModel::Bool(_), ColumnType::Bool) => true,
        _ => false,
    }
}

/// The wire bytes of one value in a column of type `t` under `opt`.
pub open spec fn model_encoded(m: ValModel, t: ColumnType, opt: RowEncodingOptions) -> Seq<u8> {
    match t {
        ColumnType::Str => varlen_encoded(as_str(m), opt),
        ColumnType::UInt => fixed_block_u32(as_uint(m), opt),
        ColumnType::Int => fixed_block_i32(as_int(m), opt),
        ColumnType::Bool => fixed_block_bool(as_bool(m), opt),
    }
}

/// Decodes one value of column type `t` from the front of `s`.
pub open spec fn model_decoded(s: Seq<u8>, t: ColumnType, opt: RowEncodingOptions) -> Result<
    (ValModel, int),
    DecodeError,
> {
    match t {
        ColumnType::Str => match varlen_decoded(s, opt) {
            Ok(vc) => Ok(
                (
                    match vc.0 {
                        None => ValModel::Null,
                        Some(p) => ValModel::Str(p),
                    },
                    vc.1,
                ),
            ),
            Err(e) => Err(e),
        },
        ColumnType::UInt => match fixed_decoded_u32(s, opt) {
            Ok(vc) => Ok(
                (
                    match vc.0 {
                        None => ValModel::Null,
                        Some(x) => ValModel::UInt(x),
                    },
                    vc.1,
                ),
            ),
            Err(e) => Err(e),
        },
        ColumnType::Int => match fixed_decoded_u32(s, opt) {
            Ok(vc) => Ok(
                (
                    match vc.0 {
                        None => ValModel::Null,
                        Some(u) => ValModel::Int(ord_u32_to_i32(u)),
                    },
                    vc.1,
                ),
            ),
            Err(e) => Err(e),
        },
        ColumnType::Bool => match fixed_decoded_bool(s, opt) {
            Ok(vc) => Ok(
                (
                    match vc.0 {
                        None => ValModel::Null,
                        Some(x) => ValModel::Bool(x),
                    },
                    vc.1,
                ),
            ),
            Err(e) => Err(e),
        },
    }
}

/// Encodes one value into a fresh byte vector, as `model_encoded` says.
pub fn encode_value(value: &Value, t: ColumnType, opt: RowEncodingOptions) -> (r: Vec<u8>)
    requires
        model_wf(value_model(*value), t),
    ensures
        r@ == model_encoded(value_model(*value), t, opt),
{
    match t {
        ColumnType::Str => {
            match value {
                Value::Null => encode_varlen_ref(None, opt),
                Value::Str(b) => encode_varlen_ref(Some(b), opt),
                _ => {
                    proof {
                        assert(false);
                    }
                    Vec::new()
                },
            }
        },
        ColumnType::UInt => {
            match value {
                Value::Null => encode_fixed_u32(None, opt),
                Value::UInt(x) => encode_fixed_u32(Some(*x), opt),
                _ => {
                    proof {
                        assert(false);
                    }
                    Vec::new()
                },
            }
        },
        ColumnType::Int => {
            match value {
                Value::Null => encode_fixed_i32(None, opt),
                Value::Int(x) => encode_fixed_i32(Some(*x), opt),
                _ => {
                    proof {
                        assert(false);
                    }
                    Vec::new()
                },
            }
        },
        ColumnType::Bool => {
            match value {
                Value::Null => encode_fixed_bool(None, opt),
                Value::Bool(x) => encode_fixed_bool(Some(*x), opt),
                _ => {
                    proof {
                        assert(false);
                    }
                    Vec::new()
                },
            }
        },
    }
}

/// Decodes one value of column type `t` from `row` starting at `pos`,
/// exactly as `model_decoded` reads the remaining bytes.
pub fn decode_value(row: &Vec<u8>, pos: usize, t: ColumnType, opt: RowEncodingOptions) -> (r:
    Result<(Value, usize), DecodeError>)
    requires
        pos <= row.len(),
    ensures
        match model_decoded(row@.skip(pos as int), t, opt) {
            Ok(vc) => r matches Ok(rv) && value_model(rv.0) == vc.0 && rv.1 == vc.1,
            Err(e) => r == Err::<(Value, usize), DecodeError>(e),
        },
        r matches Ok(rv) ==> pos + rv.1 <= row@.len(),
{
    match t {
        ColumnType::Str => {
            match decode_varlen_item(row, pos, opt) {
                Err(e) => Err(e),
                Ok((v, c)) => Ok(
                    (
                        match v {
                            None => Value::Null,
                            Some(p) => Value::Str(p),
                        },
                        c,
                    ),
                ),
            }
        },
        ColumnType::UInt => {
            match decode_fixed_u32(row, pos, opt) {
                Err(e) => Err(e),
                Ok((v, c)) => Ok(
                    (
                        match v {
                            None => Value::Null,
                            Some(x) => Value::UInt(x),
                        },
                        c,
                    ),
                ),
            }
        },
        ColumnType::Int => {
            match decode_fixed_i32(row, pos, opt) {
                Err(e) => Err(e),
                Ok((v, c)) => Ok(
                    (
                        match v {
                            None => Value::Null,
                            Some(x) => Value::Int(x),
                        },
                        c,
                    ),
                ),
            }
        },
        ColumnType::Bool => {
            match decode_fixed_bool(row, pos, opt) {
                Err(e) => Err(e),
                Ok((v, c)) => Ok(
                    (
                        match v {
                            None => Value::Null,
                            Some(x) => Value::Bool(x),
                        },
                        c,
                    ),
                ),
            }
        },
    }
}


/// Per-row well-formedness: one value per column, each fitting its column.
pub open spec fn row_wf(ms: Seq<ValModel>, ts: Seq<ColumnType>) -> bool {
    ms.len() == ts.len() && forall|c: int| 0 <= c < ts.len() ==> model_wf(#[trigger] ms[c], ts[c])
}

/// The bytes of a row from column `c` on: each column's encoding in order,
/// with nothing between them.
pub open spec fn row_encoded_from(
    ms: Seq<ValModel>,
    ts: Seq<ColumnType>,
    os: Seq<RowEncodingOptions>,
    c: int,
) -> Seq<u8>
    decreases ts.len() - c,
{
    if !(0 <= c < ts.len()) {
        Seq::empty()
    } else {
        model_encoded(ms[c], ts[c], os[c]) + row_encoded_from(ms, ts, os, c + 1)
    }
}

/// The bytes of one whole row.
pub open spec fn row_encoded(
    ms: Seq<ValModel>,
    ts: Seq<ColumnType>,
    os: Seq<RowEncodingOptions>,
) -> Seq<u8> {
    row_encoded_from(ms, ts, os, 0)
}

/// The total byte length of rows `i` and later.
pub open spec fn rows_total_from(
    rows: Seq<Vec<Value>>,
    ts: Seq<ColumnType>,
    os: Seq<RowEncodingOptions>,
    i: int,
) -> int
    decreases rows.len() - i,
{
    if !(0 <= i < rows.len()) {
        0
    } else {
        row_encoded(row_models(rows[i]@), ts, os).len() + rows_total_from(rows, ts, os, i + 1)
    }
}

/// The total length of a tail of rows is never negative.
proof fn lemma_rows_total_nonneg(
    rows: Seq<Vec<Value>>,
    ts: Seq<ColumnType>,
    os: Seq<RowEncodingOptions>,
    i: int,
)
    ensures
        rows_total_from(rows, ts, os, i) >= 0,
    decreases rows.len() - i,
{
    if 0 <= i < rows.len() {
        lemma_rows_total_nonneg(rows, ts, os, i + 1);
    }
}

/// A flat byte buffer holding every encoded row, plus the offsets vector
/// describing row boundaries: `offsets[i]` is the byte start of row `i` and
/// the last offset is the total length.
pub struct RowBuffer {
    pub buffer: Vec<u8>,
    pub offsets: Vec<usize>,
}

impl RowBuffer {
    /// Offsets start at zero, never decrease, and end at the buffer's end.
    pub open spec fn wf(&self) -> bool {
        &&& self.offsets@.len() >= 1
        &&& self.offsets@[0] == 0
        &&& forall|i: int|
            0 <= i < self.offsets@.len() - 1 ==> #[trigger] self.offsets@[i] <= self.offsets@[i
                + 1]
        &&& self.offsets@[self.offsets@.len() - 1] == self.buffer@.len()
    }

    /// Number of rows held.
    pub open spec fn spec_num_rows(&self) -> int {
        self.offsets@.len() - 1
    }

    /// The bytes of row `i`.
    pub open spec fn row_bytes(&self, i: int) -> Seq<u8> {
        self.buffer@.subrange(self.offsets@[i] as int, self.offsets@[i + 1] as int)
    }

    /// Number of rows held.
    pub fn num_rows(&self) -> (r: usize)
        requires
            self.wf(),
        ensures
            r == self.spec_num_rows(),
    {
        self.offsets.len() - 1
    }
}

/// Offsets that never decrease step by step never decrease across a span.
proof fn lemma_offsets_mono(offs: Seq<usize>, a: int, b: int)
    requires
        forall|i: int| 0 <= i < offs.len() - 1 ==> #[trigger] offs[i] <= offs[i + 1],
        0 <= a <= b < offs.len(),
    ensures
        offs[a] <= offs[b],
    decreases b - a,
{
    if a < b {
        lemma_offsets_mono(offs, a + 1, b);
    }
}

/// Every row has one value per column and each value fits its column.
pub open spec fn rows_wf(rows: Seq<Vec<Value>>, ts: Seq<ColumnType>) -> bool {
    forall|i: int| 0 <= i < rows.len() ==> row_wf(row_models(#[trigger] rows[i]@), ts)
}

/// Length oracle for one value: the exact number of bytes its encoding
/// will occupy under the column's options — one sentinel byte for a
/// variable-length null, the payload length plus the terminator otherwise,
/// and a constant marker-plus-payload size for each fixed-width type.
pub fn value_enc_len(value: &Value, t: ColumnType, opt: RowEncodingOptions) -> (r: usize)
    requires
        model_wf(value_model(*value), t),
        value matches Value::Str(b) ==> b@.len() < usize::MAX,
    ensures
        r == model_encoded(value_model(*value), t, opt).len(),
{
    match t {
        ColumnType::Str => {
            match value {
                Value::Null => len_from_item(None, opt),
                Value::Str(b) => len_from_item(Some(b.len()), opt),
                _ => {
                    proof {
                        assert(false);
                    }
                    0
                },
            }
        },
        ColumnType::UInt => 5,
        ColumnType::Int => 5,
        ColumnType::Bool => 2,
    }
}

/// Assembles rows into one flat buffer in two passes: the first sums each
/// row's column lengths through the length oracle and lays the offsets out,
/// the second allocates the buffer once and writes each column's encoding
/// at its precomputed position, in column order, with no padding. Succeeds
/// exactly when the total encoded size fits a machine word; row `i` of the
/// result then holds exactly the concatenation of its columns' encodings.
pub fn encode_rows(
    rows: &Vec<Vec<Value>>,
    types: &Vec<ColumnType>,
    opts: &Vec<RowEncodingOptions>,
) -> (r: Result<RowBuffer, EncodeError>)
    requires
        types@.len() == opts@.len(),
        rows_wf(rows@, types@),
        forall|i: int| 0 <= i < rows@.len() ==> (#[trigger] rows@[i]@).len() == types@.len(),
    ensures
        r is Ok <==> rows_total_from(rows@, types@, opts@, 0) <= usize::MAX,
        r matches Ok(rb) ==> rb.wf() && rb.spec_num_rows() == rows@.len() && forall|i: int|
            0 <= i < rows@.len() ==> rb.row_bytes(i) == row_encoded(
                row_models(#[trigger] rows@[i]@),
                types@,
                opts@,
            ),
        r matches Err(e) ==> e == EncodeError::TooLarge,
{
    let ghost total0 = rows_total_from(rows@, types@, opts@, 0);
    let nrows = rows.len();
    let ncols = types.len();
    let mut offsets: Vec<usize> = Vec::new();
    offsets.push(0);
    let mut cur: usize = 0;
    let mut i: usize = 0;
    while i < nrows
        invariant
            nrows == rows@.len(),
            ncols == types@.len(),
            types@.len() == opts@.len(),
            rows_wf(rows@, types@),
            forall|j: int| 0 <= j < rows@.len() ==> (#[trigger] rows@[j]@).len() == types@.len(),
            total0 == rows_total_from(rows@, types@, opts@, 0),
            i <= nrows,
            offsets@.len() == i + 1,
            offsets@[0] == 0,
            offsets@[i as int] == cur,
            forall|j: int| 0 <= j < i ==> #[trigger] offsets@[j] <= offsets@[j + 1],
            forall|j: int|
                0 <= j < i ==> offsets@[j] + row_encoded(
                    row_models(#[trigger] rows@[j]@),
                    types@,
                    opts@,
                ).len() == offsets@[j + 1],
            total0 == cur + rows_total_from(rows@, types@, opts@, i as int),
        decreases nrows - i,
    {
        let ghost ms = row_models(rows@[i as int]@);
        proof {
            assert(rows_total_from(rows@, types@, opts@, i as int) == row_encoded(
                ms,
                types@,
                opts@,
            ).len() + rows_total_from(rows@, types@, opts@, i + 1));
            lemma_rows_total_nonneg(rows@, types@, opts@, i + 1);
        }
        let row = &rows[i];
        let mut c: usize = 0;
        while c < ncols
            invariant
                ncols == types@.len(),
                types@.len() == opts@.len(),
                total0 == rows_total_from(rows@, types@, opts@, 0),
                c <= ncols,
                ms == row_models(row@),
                row_wf(ms, types@),
                row@.len() == ncols,
                offsets@[i as int] + (row_encoded(ms, types@, opts@).len()
                    - row_encoded_from(ms, types@, opts@, c as int).len()) == cur,
                total0 == cur + row_encoded_from(ms, types@, opts@, c as int).len()
                    + rows_total_from(rows@, types@, opts@, i + 1),
                rows_total_from(rows@, types@, opts@, i + 1) >= 0,
                offsets@[i as int] <= cur,
            decreases ncols - c,
        {
            let v = &row[c];
            proof {
                assert(value_model(row@[c as int]) == ms[c as int]);
                assert(row_encoded_from(ms, types@, opts@, c as int) == model_encoded(
                    ms[c as int],
                    types@[c as int],
                    opts@[c as int],
                ) + row_encoded_from(ms, types@, opts@, c + 1));
            }
            if let Value::Str(b) = v {
                if b.len() >= usize::MAX {
                    return Err(EncodeError::TooLarge);
                }
            }
            let l = value_enc_len(v, types[c], opts[c]);
            if l > usize::MAX - cur {
                return Err(EncodeError::TooLarge);
            }
            cur = cur + l;
            c = c + 1;
        }
        proof {
            assert(row_encoded_from(ms, types@, opts@, ncols as int).len() == 0);
        }
        offsets.push(cur);
        i = i + 1;
    }
    proof {
        lemma_rows_total_nonneg(rows@, types@, opts@, nrows as int);
    }
    let total = cur;
    let mut buffer: Vec<u8> = vec![0u8; total];
    let mut i2: usize = 0;
    while i2 < nrows
        invariant
            nrows == rows@.len(),
            ncols == types@.len(),
            types@.len() == opts@.len(),
            rows_wf(rows@, types@),
            forall|j: int| 0 <= j < rows@.len() ==> (#[trigger] rows@[j]@).len() == types@.len(),
            i2 <= nrows,
            offsets@.len() == nrows + 1,
            offsets@[0] == 0,
            offsets@[nrows as int] == total,
            buffer@.len() == total,
            forall|j: int| 0 <= j < nrows ==> #[trigger] offsets@[j] <= offsets@[j + 1],
            forall|j: int|
                0 <= j < nrows ==> offsets@[j] + row_encoded(
                    row_models(#[trigger] rows@[j]@),
                    types@,
                    opts@,
                ).len() == offsets@[j + 1],
            forall|j: int|
                0 <= j < i2 ==> buffer@.subrange(offsets@[j] as int, offsets@[j + 1] as int)
                    == row_encoded(row_models(#[trigger] rows@[j]@), types@, opts@),
        decreases nrows - i2,
    {
        let ghost ms = row_models(rows@[i2 as int]@);
        let ghost buf_pre = buffer@;
        let row = &rows[i2];
        let row_start = offsets[i2];
        let row_end = offsets[i2 + 1];
        proof {
            lemma_offsets_mono(offsets@, i2 + 1, nrows as int);
            assert(buffer@.subrange(row_start as int, row_start as int) =~= Seq::<u8>::empty());
        }
        let mut cursor: usize = row_start;
        let mut c: usize = 0;
        while c < ncols
            invariant
                ncols == types@.len(),
                types@.len() == opts@.len(),
                c <= ncols,
                ms == row_models(row@),
                row_wf(ms, types@),
                row@.len() == ncols,
                buffer@.len() == buf_pre.len(),
                row_start <= cursor <= buffer@.len(),
                cursor + row_encoded_from(ms, types@, opts@, c as int).len() == row_end,
                row_end <= buffer@.len(),
                buffer@.subrange(row_start as int, cursor as int) + row_encoded_from(
                    ms,
                    types@,
                    opts@,
                    c as int,
                ) == row_encoded(ms, types@, opts@),
                forall|k: int|
                    0 <= k < buffer@.len() && !(row_start <= k < cursor) ==> buffer@[k]
                        == buf_pre[k],
            decreases ncols - c,
        {
            let v = &row[c];
            proof {
                assert(value_model(row@[c as int]) == ms[c as int]);
            }
            let enc = encode_value(v, types[c], opts[c]);
            proof {
                assert(row_encoded_from(ms, types@, opts@, c as int) == model_encoded(
                    ms[c as int],
                    types@[c as int],
                    opts@[c as int],
                ) + row_encoded_from(ms, types@, opts@, c + 1));
            }
            let ghost buf_mid = buffer@;
            let ghost cursor0 = cursor;
            let blen = buffer.len();
            let mut j: usize = 0;
            while j < enc.len()
                invariant
                    buffer@.len() == buf_mid.len(),
                    blen == buffer@.len(),
                    j <= enc.len(),
                    cursor + enc@.len() <= blen,
                    cursor == cursor0,
                    forall|k: int| 0 <= k < j ==> buffer@[cursor + k] == enc@[k],
                    forall|k: int|
                        0 <= k < buf_mid.len() && !(cursor <= k < cursor + j) ==> buffer@[k]
                            == buf_mid[k],
                decreases enc.len() - j,
            {
                let b = enc[j];
                buffer[cursor + j] = b;
                j = j + 1;
            }
            proof {
                assert(buffer@.subrange(cursor0 as int, cursor0 + enc@.len()) =~= enc@);
                assert(buffer@.subrange(row_start as int, cursor0 as int) =~= buf_mid.subrange(
                    row_start as int,
                    cursor0 as int,
                ));
                assert(buffer@.subrange(row_start as int, cursor0 + enc@.len()) =~= buffer@.subrange(
                    row_start as int,
                    cursor0 as int,
                ) + buffer@.subrange(cursor0 as int, cursor0 + enc@.len()));
                assert((buf_mid.subrange(row_start as int, cursor0 as int) + model_encoded(
                    ms[c as int],
                    types@[c as int],
                    opts@[c as int],
                )) + row_encoded_from(ms, types@, opts@, c + 1) =~= buf_mid.subrange(
                    row_start as int,
                    cursor0 as int,
                ) + (model_encoded(ms[c as int], types@[c as int], opts@[c as int])
                    + row_encoded_from(ms, types@, opts@, c + 1)));
            }
            cursor = cursor + enc.len();
            c = c + 1;
        }
        proof {
            assert(row_encoded_from(ms, types@, opts@, ncols as int).len() == 0);
            assert(buffer@.subrange(row_start as int, cursor as int) + Seq::<u8>::empty()
                =~= buffer@.subrange(row_start as int, cursor as int));
            assert(buffer@.subrange(offsets@[i2 as int] as int, offsets@[i2 + 1] as int)
                == row_encoded(ms, types@, opts@));
            assert forall|j: int|
                0 <= j < i2 implies buffer@.subrange(offsets@[j] as int, offsets@[j + 1] as int)
                == row_encoded(row_models(#[trigger] rows@[j]@), types@, opts@) by {
                lemma_offsets_mono(offsets@, j + 1, i2 as int);
                assert(buffer@.subrange(offsets@[j] as int, offsets@[j + 1] as int)
                    =~= buf_pre.subrange(offsets@[j] as int, offsets@[j + 1] as int));
            }
        }
        i2 = i2 + 1;
    }
    Ok(RowBuffer { buffer, offsets })
}

/// Prepends already-decoded columns to the outcome of decoding the rest of
/// a row.
pub open spec fn prepend_models(p: Seq<ValModel>, r: Result<Seq<ValModel>, DecodeError>) -> Result<
    Seq<ValModel>,
    DecodeError,
> {
    match r {
        Ok(ms) => Ok(p + ms),
        Err(e) => Err(e),
    }
}

/// Decodes the columns of one row from column `c` on; the row must be
/// consumed exactly, else it reports trailing bytes.
pub open spec fn row_decoded_from(
    s: Seq<u8>,
    ts: Seq<ColumnType>,
    os: Seq<RowEncodingOptions>,
    c: int,
) -> Result<Seq<ValModel>, DecodeError>
    decreases ts.len() - c,
{
    if !(0 <= c < ts.len()) {
        if s.len() == 0 {
            Ok(Seq::empty())
        } else {
            Err(DecodeError::TrailingBytes)
        }
    } else {
        match model_decoded(s, ts[c], os[c]) {
            Err(e) => Err(e),
            Ok(mc) => match row_decoded_from(s.skip(mc.1), ts, os, c + 1) {
                Err(e) => Err(e),
                Ok(ms) => Ok(seq![mc.0] + ms),
            },
        }
    }
}

/// Decodes one whole row.
pub open spec fn row_decoded(
    s: Seq<u8>,
    ts: Seq<ColumnType>,
    os: Seq<RowEncodingOptions>,
) -> Result<Seq<ValModel>, DecodeError> {
    row_decoded_from(s, ts, os, 0)
}

/// Disassembles encoded rows: decodes every row column by column under the
/// schema, requiring each row to be consumed exactly. Succeeds exactly when
/// every row decodes; row `i` of the output then holds the values whose
/// models `row_decoded` names.
pub fn decode_rows(
    rb: &RowBuffer,
    types: &Vec<ColumnType>,
    opts: &Vec<RowEncodingOptions>,
) -> (r: Result<Vec<Vec<Value>>, DecodeError>)
    requires
        rb.wf(),
        types@.len() == opts@.len(),
    ensures
        r is Ok <==> (forall|i: int|
            0 <= i < rb.spec_num_rows() ==> #[trigger] row_decoded(
                rb.row_bytes(i),
                types@,
                opts@,
            ) is Ok),
        r matches Ok(out) ==> out@.len() == rb.spec_num_rows() && forall|i: int|
            0 <= i < rb.spec_num_rows() ==> row_models((#[trigger] out@[i])@) == row_decoded(
                rb.row_bytes(i),
                types@,
                opts@,
            ).unwrap() && out@[i]@.len() == types@.len(),
        r matches Err(e) ==> exists|i: int|
            0 <= i < rb.spec_num_rows() && #[trigger] row_decoded(rb.row_bytes(i), types@, opts@)
                == Err::<Seq<ValModel>, DecodeError>(e),
{
    let nrows = rb.offsets.len() - 1;
    let ncols = types.len();
    let mut out: Vec<Vec<Value>> = Vec::new();
    let mut i: usize = 0;
    while i < nrows
        invariant
            rb.wf(),
            nrows == rb.spec_num_rows(),
            ncols == types@.len(),
            types@.len() == opts@.len(),
            i <= nrows,
            out@.len() == i,
            forall|j: int|
                0 <= j < i ==> #[trigger] row_decoded(rb.row_bytes(j), types@, opts@) is Ok
                    && row_models(out@[j]@) == row_decoded(rb.row_bytes(j), types@, opts@).unwrap()
                    && out@[j]@.len() == types@.len(),
        decreases nrows - i,
    {
        let start = rb.offsets[i];
        let end = rb.offsets[i + 1];
        proof {
            lemma_offsets_mono(rb.offsets@, i as int, i + 1);
            lemma_offsets_mono(rb.offsets@, i + 1, rb.offsets@.len() - 1);
        }
        let mut row: Vec<u8> = Vec::new();
        let mut k: usize = start;
        while k < end
            invariant
                rb.wf(),
                start <= k <= end,
                end <= rb.buffer@.len(),
                row@.len() == k - start,
                forall|j: int| 0 <= j < k - start ==> row@[j] == rb.buffer@[start + j],
            decreases end - k,
        {
            row.push(rb.buffer[k]);
            k = k + 1;
        }
        proof {
            assert(row@ =~= rb.row_bytes(i as int));
        }
        let mut vals: Vec<Value> = Vec::new();
        let mut pos: usize = 0;
        let rlen = row.len();
        proof {
            assert(row@.skip(0) =~= row@);
            assert(row_models(Seq::<Value>::empty()) =~= Seq::<ValModel>::empty());
            match row_decoded_from(row@, types@, opts@, 0) {
                Ok(ms) => {
                    assert(Seq::<ValModel>::empty() + ms =~= ms);
                },
                Err(_) => {},
            }
        }
        let mut c: usize = 0;
        while c < ncols
            invariant
                rb.wf(),
                nrows == rb.spec_num_rows(),
                i < nrows,
                ncols == types@.len(),
                types@.len() == opts@.len(),
                c <= ncols,
                vals@.len() == c,
                pos <= row@.len(),
                rlen == row@.len(),
                row@ == rb.row_bytes(i as int),
                row_decoded(row@, types@, opts@) == prepend_models(
                    row_models(vals@),
                    row_decoded_from(row@.skip(pos as int), types@, opts@, c as int),
                ),
            decreases ncols - c,
        {
            match decode_value(&row, pos, types[c], opts[c]) {
                Err(e) => {
                    proof {
                        assert(row_decoded(rb.row_bytes(i as int), types@, opts@) == Err::<
                            Seq<ValModel>,
                            DecodeError,
                        >(e));
                    }
                    return Err(e);
                },
                Ok((v, used)) => {
                    let ghost vals_old = vals@;
                    vals.push(v);
                    proof {
                        let cc = c as int;
                        assert(row_models(vals@) =~= row_models(vals_old).push(value_model(v)));
                        assert(row@.skip(pos as int).skip(used as int) =~= row@.skip(
                            pos + used,
                        ));
                        match row_decoded_from(row@.skip(pos + used), types@, opts@, cc + 1) {
                            Ok(ms) => {
                                assert(row_models(vals_old) + (seq![value_model(v)] + ms)
                                    =~= row_models(vals@) + ms);
                            },
                            Err(_) => {},
                        }
                    }
                    pos = pos + used;
                },
            }
            c = c + 1;
        }
        if pos != rlen {
            proof {
                assert(row@.skip(pos as int).len() > 0);
                assert(row_decoded(rb.row_bytes(i as int), types@, opts@) == Err::<
                    Seq<ValModel>,
                    DecodeError,
                >(DecodeError::TrailingBytes));
            }
            return Err(DecodeError::TrailingBytes);
        }
        proof {
            assert(row@.skip(pos as int).len() == 0);
            assert(row_models(vals@) + Seq::<ValModel>::empty() =~= row_models(vals@));
            assert(row_decoded(rb.row_bytes(i as int), types@, opts@) == Ok::<
                Seq<ValModel>,
                DecodeError,
            >(row_models(vals@)));
        }
        out.push(vals);
        i = i + 1;
    }
    Ok(out)
}


/// Round trip for one value: decoding the encoding of a well-formed value,
/// with any bytes following it, yields the value back and consumes exactly
/// its encoding.
pub proof fn lemma_model_round_trip(m: ValModel, t: ColumnType, opt: RowEncodingOptions, rest: Seq<u8>)
    requires
        model_wf(m, t),
    ensures
        model_decoded(model_encoded(m, t, opt) + rest, t, opt) == Ok::<(ValModel, int), DecodeError>(
            (m, model_encoded(m, t, opt).len() as int),
        ),
{
    match t {
        ColumnType::Str => {
            lemma_varlen_round_trip(as_str(m), opt, rest);
        },
        ColumnType::UInt => {
            lemma_fixed_u32_round_trip(as_uint(m), opt, rest);
        },
        ColumnType::Int => {
            let u = match as_int(m) {
                None => None,
                Some(x) => Some(i32_to_ord_u32(x)),
            };
            lemma_fixed_u32_round_trip(u, opt, rest);
            match as_int(m) {
                None => {},
                Some(x) => {
                    assert(ord_u32_to_i32(i32_to_ord_u32(x)) == x);
                },
            }
        },
        ColumnType::Bool => {
            lemma_fixed_bool_round_trip(as_bool(m), opt, rest);
        },
    }
}

/// Round trip for the tail of a row from column `c` on.
proof fn lemma_row_round_trip_from(
    ms: Seq<ValModel>,
    ts: Seq<ColumnType>,
    os: Seq<RowEncodingOptions>,
    c: int,
)
    requires
        row_wf(ms, ts),
        ts.len() == os.len(),
        0 <= c <= ts.len(),
    ensures
        row_decoded_from(row_encoded_from(ms, ts, os, c), ts, os, c) == Ok::<
            Seq<ValModel>,
            DecodeError,
        >(ms.skip(c)),
    decreases ts.len() - c,
{
    if c == ts.len() {
        assert(row_encoded_from(ms, ts, os, c).len() == 0);
        assert(ms.skip(c) =~= Seq::<ValModel>::empty());
    } else {
        let enc_c = model_encoded(ms[c], ts[c], os[c]);
        let tail = row_encoded_from(ms, ts, os, c + 1);
        let w = enc_c + tail;
        lemma_model_round_trip(ms[c], ts[c], os[c], tail);
        assert(w.skip(enc_c.len() as int) =~= tail);
        lemma_row_round_trip_from(ms, ts, os, c + 1);
        assert(seq![ms[c]] + ms.skip(c + 1) =~= ms.skip(c));
    }
}

/// Round trip for a whole row: disassembling the bytes the assembler lays
/// out for a well-formed row under the same schema and options yields the
/// row back, with null-equal semantics and nothing left over.
pub proof fn lemma_row_round_trip(
    ms: Seq<ValModel>,
    ts: Seq<ColumnType>,
    os: Seq<RowEncodingOptions>,
)
    requires
        row_wf(ms, ts),
        ts.len() == os.len(),
    ensures
        row_decoded(row_encoded(ms, ts, os), ts, os) == Ok::<Seq<ValModel>, DecodeError>(ms),
{
    lemma_row_round_trip_from(ms, ts, os, 0);
    assert(ms.skip(0) =~= ms);
}

/// Three-way comparison of two values of one column under its options.
pub open spec fn value_cmp(x: ValModel, y: ValModel, t: ColumnType, opt: RowEncodingOptions) -> int {
    match t {
        ColumnType::Str => varlen_value_cmp(as_str(x), as_str(y), opt),
        ColumnType::UInt => fixed_value_cmp_u32(as_uint(x), as_uint(y), opt),
        ColumnType::Int => fixed_value_cmp_i32(as_int(x), as_int(y), opt),
        ColumnType::Bool => fixed_value_cmp_bool(as_bool(x), as_bool(y), opt),
    }
}

/// Tuple comparison of two rows from column `c` on: the first column that
/// compares unequal decides.
pub open spec fn row_value_cmp_from(
    x: Seq<ValModel>,
    y: Seq<ValModel>,
    ts: Seq<ColumnType>,
    os: Seq<RowEncodingOptions>,
    c: int,
) -> int
    decreases ts.len() - c,
{
    if !(0 <= c < ts.len()) {
        0
    } else {
        let d = value_cmp(x[c], y[c], ts[c], os[c]);
        if d != 0 {
            d
        } else {
            row_value_cmp_from(x, y, ts, os, c + 1)
        }
    }
}

/// Tuple comparison of two whole rows.
pub open spec fn row_value_cmp(
    x: Seq<ValModel>,
    y: Seq<ValModel>,
    ts: Seq<ColumnType>,
    os: Seq<RowEncodingOptions>,
) -> int {
    row_value_cmp_from(x, y, ts, os, 0)
}

/// No column of the schema uses the unordered mode.
pub open spec fn no_unordered(os: Seq<RowEncodingOptions>) -> bool {
    forall|c: int| 0 <= c < os.len() ==> !(#[trigger] os[c]).unordered
}

/// Order preservation for one value: comparing the encodings of two
/// well-formed values of a column equals comparing the values.
pub proof fn lemma_value_order(x: ValModel, y: ValModel, t: ColumnType, opt: RowEncodingOptions)
    requires
        model_wf(x, t),
        model_wf(y, t),
        !opt.unordered,
    ensures
        lex_cmp(model_encoded(x, t, opt), model_encoded(y, t, opt)) == value_cmp(x, y, t, opt),
{
    match t {
        ColumnType::Str => {
            lemma_varlen_order(as_str(x), as_str(y), opt);
        },
        ColumnType::UInt => {
            lemma_fixed_u32_order(as_uint(x), as_uint(y), opt);
        },
        ColumnType::Int => {
            lemma_fixed_i32_order(as_int(x), as_int(y), opt);
        },
        ColumnType::Bool => {
            lemma_fixed_bool_order(as_bool(x), as_bool(y), opt);
        },
    }
}

/// Values of one column that compare equal are equal.
proof fn lemma_value_cmp_zero(x: ValModel, y: ValModel, t: ColumnType, opt: RowEncodingOptions)
    requires
        model_wf(x, t),
        model_wf(y, t),
        value_cmp(x, y, t, opt) == 0,
    ensures
        x == y,
{
    match t {
        ColumnType::Str => {
            match (as_str(x), as_str(y)) {
                (Some(a), Some(b)) => {
                    lemma_lex_cmp_zero(a, b);
                    lemma_lex_cmp_zero(b, a);
                },
                _ => {},
            }
        },
        _ => {},
    }
}

/// Distinct well-formed values of one column have encodings that disagree
/// at a position inside both.
proof fn lemma_value_enc_differ(x: ValModel, y: ValModel, t: ColumnType, opt: RowEncodingOptions)
    requires
        model_wf(x, t),
        model_wf(y, t),
        !opt.unordered,
        x != y,
    ensures
        differ_within_models(x, y, t, opt),
{
    match t {
        ColumnType::Str => {
            lemma_varlen_enc_differ(as_str(x), as_str(y), opt);
        },
        ColumnType::UInt => {
            lemma_fixed_u32_order(as_uint(x), as_uint(y), opt);
            lemma_lex_cmp_zero(model_encoded(x, t, opt), model_encoded(y, t, opt));
            lemma_differ_within_equal_len(model_encoded(x, t, opt), model_encoded(y, t, opt));
        },
        ColumnType::Int => {
            lemma_fixed_i32_order(as_int(x), as_int(y), opt);
            assert(value_cmp(x, y, t, opt) != 0);
            lemma_lex_cmp_zero(model_encoded(x, t, opt), model_encoded(y, t, opt));
            lemma_differ_within_equal_len(model_encoded(x, t, opt), model_encoded(y, t, opt));
        },
        ColumnType::Bool => {
            lemma_fixed_bool_order(as_bool(x), as_bool(y), opt);
            lemma_lex_cmp_zero(model_encoded(x, t, opt), model_encoded(y, t, opt));
            lemma_differ_within_equal_len(model_encoded(x, t, opt), model_encoded(y, t, opt));
        },
    }
}

/// The encodings of two distinct values disagree inside both encodings.
spec fn differ_within_models(x: ValModel, y: ValModel, t: ColumnType, opt: RowEncodingOptions) -> bool {
    crate::order::differ_within(model_encoded(x, t, opt), model_encoded(y, t, opt))
}

/// Order preservation for the tails of two rows from column `c` on.
proof fn lemma_row_order_from(
    x: Seq<ValModel>,
    y: Seq<ValModel>,
    ts: Seq<ColumnType>,
    os: Seq<RowEncodingOptions>,
    c: int,
)
    requires
        row_wf(x, ts),
        row_wf(y, ts),
        ts.len() == os.len(),
        no_unordered(os),
        0 <= c,
    ensures
        lex_cmp(row_encoded_from(x, ts, os, c), row_encoded_from(y, ts, os, c))
            == row_value_cmp_from(x, y, ts, os, c),
    decreases ts.len() - c,
{
    if c >= ts.len() {
        assert(row_encoded_from(x, ts, os, c).len() == 0);
        assert(row_encoded_from(y, ts, os, c).len() == 0);
    } else {
        let ex = model_encoded(x[c], ts[c], os[c]);
        let ey = model_encoded(y[c], ts[c], os[c]);
        let d = value_cmp(x[c], y[c], ts[c], os[c]);
        lemma_value_order(x[c], y[c], ts[c], os[c]);
        if d == 0 {
            lemma_value_cmp_zero(x[c], y[c], ts[c], os[c]);
            assert(ex == ey);
            lemma_lex_cmp_concat_eq(
                ex,
                row_encoded_from(x, ts, os, c + 1),
                row_encoded_from(y, ts, os, c + 1),
            );
            lemma_row_order_from(x, y, ts, os, c + 1);
        } else {
            assert(x[c] != y[c]) by {
                if x[c] == y[c] {
                    lemma_value_order(x[c], x[c], ts[c], os[c]);
                    lemma_lex_cmp_zero(ex, ex);
                }
            }
            lemma_value_enc_differ(x[c], y[c], ts[c], os[c]);
            lemma_lex_cmp_concat_differ(
                ex,
                ey,
                row_encoded_from(x, ts, os, c + 1),
                row_encoded_from(y, ts, os, c + 1),
            );
        }
    }
}

/// Order preservation for whole rows: over a schema with no unordered
/// column, lexicographic byte comparison of two encoded rows equals the
/// tuple comparison of their values under the per-column options.
pub proof fn lemma_row_order(x: Seq<ValModel>, y: Seq<ValModel>, ts: Seq<ColumnType>, os: Seq<RowEncodingOptions>)
    requires
        row_wf(x, ts),
        row_wf(y, ts),
        ts.len() == os.len(),
        no_unordered(os),
    ensures
        lex_cmp(row_encoded(x, ts, os), row_encoded(y, ts, os)) == row_value_cmp(x, y, ts, os),
{
    lemma_row_order_from(x, y, ts, os, 0);
}


impl PartialEq for Value {
    /// Two values are equal when their models are: same variant, same
    /// payload, bytes compared by content.
    fn eq(&self, other: &Value) -> (r: bool) {
        match (self, other) {
            (Value::Null, Value::Null) => true,
            (Value::Str(a), Value::Str(b)) => bytes_eq(a, b),
            (Value::UInt(a), Value::UInt(b)) => a == b,
            (Value::Int(a), Value::Int(b)) => a == b,
            (Value::Bool(a), Value::Bool(b)) => a == b,
            _ => false,
        }
    }
}

impl vstd::std_specs::cmp::PartialEqSpecImpl for Value {
    open spec fn obeys_eq_spec() -> bool {
        true
    }

    open spec fn eq_spec(&self, other: &Value) -> bool {
        value_model(*self) == value_model(*other)
    }
}

} // verus!
