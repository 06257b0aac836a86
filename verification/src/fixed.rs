//! Row encoding for fixed-width primitives.
//!
//! Each value occupies a constant `1 + N` bytes: a presence marker, then
//! `N` big-endian bytes of an order-preserving transform of the value. A
//! null writes the null sentinel and `N` zero bytes. Under descending order
//! the whole block, marker included, is bit-inverted, so a descending
//! column's null carries the other reserved sentinel. The transforms:
//! unsigned integers pass through; signed integers add half the range so
//! the sign bit flips; the raw bits of a float flip the sign bit when
//! positive and invert entirely when negative.

use vstd::prelude::*;

use crate::error::DecodeError;
use crate::options::{RowEncodingOptions, spec_null_sentinel};
use crate::varlen::invert_byte;

verus! {

/// Marker of a non-null fixed-width value before any inversion.
pub const PRESENT_MARKER: u8 = 0x01;

/// Inverts the byte only for a descending column.
pub open spec fn maybe_invert(b: u8, descending: bool) -> u8 {
    if descending {
        invert_byte(b)
    } else {
        b
    }
}

/// The four big-endian bytes of a 32-bit value.
pub open spec fn be_bytes_u32(v: u32) -> Seq<u8> {
    seq![
        (v / 0x1000000) as u8,
        ((v / 0x10000) % 0x100) as u8,
        ((v / 0x100) % 0x100) as u8,
        (v % 0x100) as u8,
    ]
}

/// The 32-bit value four big-endian bytes hold.
pub open spec fn u32_from_be(b: Seq<u8>) -> u32 {
    (b[0] * 0x1000000 + b[1] * 0x10000 + b[2] * 0x100 + b[3]) as u32
}

/// The block before descending inversion: sentinel plus zero padding for a
/// null, marker plus big-endian bytes otherwise.
pub open spec fn fixed_base_u32(v: Option<u32>, opt: RowEncodingOptions) -> Seq<u8> {
    match v {
        None => seq![spec_null_sentinel(opt), 0u8, 0u8, 0u8, 0u8],
        Some(x) => seq![PRESENT_MARKER] + be_bytes_u32(x),
    }
}

/// The wire bytes of one optional 32-bit value: five bytes, inverted
/// wholesale for a descending column.
pub open spec fn fixed_block_u32(v: Option<u32>, opt: RowEncodingOptions) -> Seq<u8> {
    Seq::new(5, |i: int| maybe_invert(fixed_base_u32(v, opt)[i], opt.descending))
}

/// Decodes one optional 32-bit value from the front of `s`.
pub open spec fn fixed_decoded_u32(s: Seq<u8>, opt: RowEncodingOptions) -> Result<
    (Option<u32>, int),
    DecodeError,
> {
    if s.len() < 5 {
        Err(DecodeError::UnexpectedEnd)
    } else {
        let m = maybe_invert(s[0], opt.descending);
        if m == spec_null_sentinel(opt) {
            Ok((None, 5))
        } else if m == PRESENT_MARKER {
            Ok(
                (
                    Some(
                        u32_from_be(
                            Seq::new(4, |i: int| maybe_invert(s[i + 1], opt.descending)),
                        ),
                    ),
                    5,
                ),
            )
        } else {
            Err(DecodeError::InvalidByte)
        }
    }
}

/// The order-preserving unsigned image of a signed 32-bit value: adding
/// half the range flips the sign bit, mapping the signed order onto the
/// unsigned order.
pub open spec fn i32_to_ord_u32(x: i32) -> u32 {
    (x + 0x8000_0000) as u32
}

/// Reverses `i32_to_ord_u32`.
pub open spec fn ord_u32_to_i32(u: u32) -> i32 {
    (u - 0x8000_0000) as i32
}

/// The wire bytes of one optional signed 32-bit value.
pub open spec fn fixed_block_i32(v: Option<i32>, opt: RowEncodingOptions) -> Seq<u8> {
    fixed_block_u32(
        match v {
            None => None,
            Some(x) => Some(i32_to_ord_u32(x)),
        },
        opt,
    )
}

/// The block before inversion for one optional boolean: two bytes.
pub open spec fn fixed_base_bool(v: Option<bool>, opt: RowEncodingOptions) -> Seq<u8> {
    match v {
        None => seq![spec_null_sentinel(opt), 0u8],
        Some(x) => seq![PRESENT_MARKER, if x { 1u8 } else { 0u8 }],
    }
}

/// The wire bytes of one optional boolean.
pub open spec fn fixed_block_bool(v: Option<bool>, opt: RowEncodingOptions) -> Seq<u8> {
    Seq::new(2, |i: int| maybe_invert(fixed_base_bool(v, opt)[i], opt.descending))
}

/// Decodes one optional boolean from the front of `s`.
pub open spec fn fixed_decoded_bool(s: Seq<u8>, opt: RowEncodingOptions) -> Result<
    (Option<bool>, int),
    DecodeError,
> {
    if s.len() < 2 {
        Err(DecodeError::UnexpectedEnd)
    } else {
        let m = maybe_invert(s[0], opt.descending);
        let payload = maybe_invert(s[1], opt.descending);
        if m == spec_null_sentinel(opt) {
            Ok((None, 2))
        } else if m == PRESENT_MARKER && payload <= 1 {
            Ok((Some(payload == 1), 2))
        } else {
            Err(DecodeError::InvalidByte)
        }
    }
}

/// Byte decomposition facts for a 32-bit value: each byte is in range and
/// the bytes recombine to the value.
pub proof fn lemma_u32_bytes(x: u32)
    by (bit_vector)
    ensures
        x / 0x1000000 < 0x100,
        (x / 0x1000000) * 0x1000000 + ((x / 0x10000) % 0x100) * 0x10000 + ((x / 0x100) % 0x100)
            * 0x100 + (x % 0x100) == x,
{
}

/// Big-endian byte order agrees with numeric order: a smaller value differs
/// first at a smaller byte.
pub proof fn lemma_u32_byte_order(x: u32, y: u32)
    by (bit_vector)
    ensures
        x < y ==> (x / 0x1000000 < y / 0x1000000) || (x / 0x1000000 == y / 0x1000000 && (x
            / 0x10000) % 0x100 < (y / 0x10000) % 0x100) || (x / 0x1000000 == y / 0x1000000 && (x
            / 0x10000) % 0x100 == (y / 0x10000) % 0x100 && (x / 0x100) % 0x100 < (y / 0x100)
            % 0x100) || (x / 0x1000000 == y / 0x1000000 && (x / 0x10000) % 0x100 == (y / 0x10000)
            % 0x100 && (x / 0x100) % 0x100 == (y / 0x100) % 0x100 && x % 0x100 < y % 0x100),
        x == y ==> (x / 0x1000000 == y / 0x1000000 && (x / 0x10000) % 0x100 == (y / 0x10000)
            % 0x100 && (x / 0x100) % 0x100 == (y / 0x100) % 0x100 && x % 0x100 == y % 0x100),
{
}

/// Encodes one optional 32-bit value into a fresh byte vector.
pub fn encode_fixed_u32(value: Option<u32>, opt: RowEncodingOptions) -> (r: Vec<u8>)
    ensures
        r@ == fixed_block_u32(value, opt),
{
    let mut out: Vec<u8> = Vec::new();
    match value {
        None => {
            out.push(inv_if(opt.null_sentinel(), opt.descending));
            out.push(inv_if(0, opt.descending));
            out.push(inv_if(0, opt.descending));
            out.push(inv_if(0, opt.descending));
            out.push(inv_if(0, opt.descending));
        },
        Some(x) => {
            proof {
                lemma_u32_bytes(x);
            }
            out.push(inv_if(PRESENT_MARKER, opt.descending));
            out.push(inv_if((x / 0x1000000) as u8, opt.descending));
            out.push(inv_if(((x / 0x10000) % 0x100) as u8, opt.descending));
            out.push(inv_if(((x / 0x100) % 0x100) as u8, opt.descending));
            out.push(inv_if((x % 0x100) as u8, opt.descending));
        },
    }
    proof {
        assert(out@ =~= fixed_block_u32(value, opt));
    }
    out
}

/// Decodes one optional 32-bit value from `row` starting at `pos`, exactly
/// as `fixed_decoded_u32` reads the remaining bytes.
pub fn decode_fixed_u32(row: &Vec<u8>, pos: usize, opt: RowEncodingOptions) -> (r: Result<
    (Option<u32>, usize),
    DecodeError,
>)
    requires
        pos <= row.len(),
    ensures
        match fixed_decoded_u32(row@.skip(pos as int), opt) {
            Ok(vc) => r matches Ok(rv) && rv.0 == vc.0 && rv.1 == vc.1,
            Err(e) => r == Err::<(Option<u32>, usize), DecodeError>(e),
        },
        r matches Ok(rv) ==> pos + rv.1 <= row@.len(),
{
    let rlen = row.len();
    if rlen - pos < 5 {
        return Err(DecodeError::UnexpectedEnd);
    }
    let m = inv_if(row[pos], opt.descending);
    if m == opt.null_sentinel() {
        return Ok((None, 5));
    }
    if m != PRESENT_MARKER {
        return Err(DecodeError::InvalidByte);
    }
    let b0 = inv_if(row[pos + 1], opt.descending);
    let b1 = inv_if(row[pos + 2], opt.descending);
    let b2 = inv_if(row[pos + 3], opt.descending);
    let b3 = inv_if(row[pos + 4], opt.descending);
    let x: u32 = (b0 as u32) * 0x1000000 + (b1 as u32) * 0x10000 + (b2 as u32) * 0x100 + (
    b3 as u32);
    proof {
        let s = row@.skip(pos as int);
        let bs = Seq::new(4, |i: int| maybe_invert(s[i + 1], opt.descending));
        assert(bs[0] == b0 && bs[1] == b1 && bs[2] == b2 && bs[3] == b3);
        assert(x == u32_from_be(bs));
    }
    Ok((Some(x), 5))
}

/// Encodes one optional signed 32-bit value into a fresh byte vector.
pub fn encode_fixed_i32(value: Option<i32>, opt: RowEncodingOptions) -> (r: Vec<u8>)
    ensures
        r@ == fixed_block_i32(value, opt),
{
    match value {
        None => encode_fixed_u32(None, opt),
        Some(x) => {
            let u: u32 = (((x as i64) + 0x8000_0000i64) as u32);
            encode_fixed_u32(Some(u), opt)
        },
    }
}

/// Decodes one optional signed 32-bit value from `row` starting at `pos`.
pub fn decode_fixed_i32(row: &Vec<u8>, pos: usize, opt: RowEncodingOptions) -> (r: Result<
    (Option<i32>, usize),
    DecodeError,
>)
    requires
        pos <= row.len(),
    ensures
        match fixed_decoded_u32(row@.skip(pos as int), opt) {
            Ok(vc) => r matches Ok(rv) && rv.1 == vc.1 && rv.0 == (match vc.0 {
                None => None,
                Some(u) => Some(ord_u32_to_i32(u)),
            }),
            Err(e) => r == Err::<(Option<i32>, usize), DecodeError>(e),
        },
        r matches Ok(rv) ==> pos + rv.1 <= row@.len(),
{
    match decode_fixed_u32(row, pos, opt) {
        Err(e) => Err(e),
        Ok((v, c)) => {
            match v {
                None => Ok((None, c)),
                Some(u) => {
                    let x: i32 = (((u as i64) - 0x8000_0000i64) as i32);
                    Ok((Some(x), c))
                },
            }
        },
    }
}

/// Encodes one optional boolean into a fresh byte vector.
pub fn encode_fixed_bool(value: Option<bool>, opt: RowEncodingOptions) -> (r: Vec<u8>)
    ensures
        r@ == fixed_block_bool(value, opt),
{
    let mut out: Vec<u8> = Vec::new();
    match value {
        None => {
            out.push(inv_if(opt.null_sentinel(), opt.descending));
            out.push(inv_if(0, opt.descending));
        },
        Some(x) => {
            out.push(inv_if(PRESENT_MARKER, opt.descending));
            out.push(inv_if(if x { 1 } else { 0 }, opt.descending));
        },
    }
    proof {
        assert(out@ =~= fixed_block_bool(value, opt));
    }
    out
}

/// Decodes one optional boolean from `row` starting at `pos`.
pub fn decode_fixed_bool(row: &Vec<u8>, pos: usize, opt: RowEncodingOptions) -> (r: Result<
    (Option<bool>, usize),
    DecodeError,
>)
    requires
        pos <= row.len(),
    ensures
        match fixed_decoded_bool(row@.skip(pos as int), opt) {
            Ok(vc) => r matches Ok(rv) && rv.0 == vc.0 && rv.1 == vc.1,
            Err(e) => r == Err::<(Option<bool>, usize), DecodeError>(e),
        },
        r matches Ok(rv) ==> pos + rv.1 <= row@.len(),
{
    let rlen = row.len();
    if rlen - pos < 2 {
        return Err(DecodeError::UnexpectedEnd);
    }
    let m = inv_if(row[pos], opt.descending);
    let payload = inv_if(row[pos + 1], opt.descending);
    if m == opt.null_sentinel() {
        return Ok((None, 2));
    }
    if m != PRESENT_MARKER || payload > 1 {
        return Err(DecodeError::InvalidByte);
    }
    Ok((Some(payload == 1), 2))
}

/// The raw bits of a 32-bit float mapped to bits whose unsigned order is
/// the float's total order: a set sign bit inverts everything, a clear one
/// is flipped. Negative values land below positive ones and magnitudes
/// order correctly on both sides.
pub fn f32_total_order_bits(bits: u32) -> (r: u32)
    ensures
        r == (if bits >= 0x8000_0000 {
            (0xFFFF_FFFF - bits) as u32
        } else {
            (bits + 0x8000_0000) as u32
        }),
{
    if bits >= 0x8000_0000 {
        0xFFFF_FFFF - bits
    } else {
        bits + 0x8000_0000
    }
}

/// Reverses `f32_total_order_bits`: applying both yields the bits back.
pub fn f32_total_order_bits_back(r: u32) -> (bits: u32)
    ensures
        r == (if bits >= 0x8000_0000 {
            (0xFFFF_FFFF - bits) as u32
        } else {
            (bits + 0x8000_0000) as u32
        }),
{
    if r >= 0x8000_0000 {
        r - 0x8000_0000
    } else {
        0xFFFF_FFFF - r
    }
}

/// The 64-bit counterpart of `f32_total_order_bits`.
pub fn f64_total_order_bits(bits: u64) -> (r: u64)
    ensures
        r == (if bits >= 0x8000_0000_0000_0000 {
            (0xFFFF_FFFF_FFFF_FFFF - bits) as u64
        } else {
            (bits + 0x8000_0000_0000_0000) as u64
        }),
{
    if bits >= 0x8000_0000_0000_0000 {
        0xFFFF_FFFF_FFFF_FFFF - bits
    } else {
        bits + 0x8000_0000_0000_0000
    }
}

/// Reverses `f64_total_order_bits`.
pub fn f64_total_order_bits_back(r: u64) -> (bits: u64)
    ensures
        r == (if bits >= 0x8000_0000_0000_0000 {
            (0xFFFF_FFFF_FFFF_FFFF - bits) as u64
        } else {
            (bits + 0x8000_0000_0000_0000) as u64
        }),
{
    if r >= 0x8000_0000_0000_0000 {
        r - 0x8000_0000_0000_0000
    } else {
        0xFFFF_FFFF_FFFF_FFFF - r
    }
}

/// Inverts the byte only for a descending column.
fn inv_if(b: u8, descending: bool) -> (r: u8)
    ensures
        r == maybe_invert(b, descending),
{
    if descending {
        0xFF - b
    } else {
        b
    }
}

/// Round trip: decoding the block of an optional 32-bit value, with any
/// bytes following it, yields the value back and consumes the block.
pub proof fn lemma_fixed_u32_round_trip(v: Option<u32>, opt: RowEncodingOptions, rest: Seq<u8>)
    ensures
        fixed_decoded_u32(fixed_block_u32(v, opt) + rest, opt) == Ok::<
            (Option<u32>, int),
            DecodeError,
        >((v, 5)),
{
    let w = fixed_block_u32(v, opt) + rest;
    assert(w[0] == maybe_invert(fixed_base_u32(v, opt)[0], opt.descending));
    match v {
        None => {
            assert(maybe_invert(w[0], opt.descending) == spec_null_sentinel(opt));
        },
        Some(x) => {
            lemma_u32_bytes(x);
            assert(maybe_invert(w[0], opt.descending) == PRESENT_MARKER);
            assert(maybe_invert(w[0], opt.descending) != spec_null_sentinel(opt));
            let bs = Seq::new(4, |i: int| maybe_invert(w[i + 1], opt.descending));
            assert(bs[0] == be_bytes_u32(x)[0]);
            assert(bs[1] == be_bytes_u32(x)[1]);
            assert(bs[2] == be_bytes_u32(x)[2]);
            assert(bs[3] == be_bytes_u32(x)[3]);
            assert(u32_from_be(bs) == x);
        },
    }
}

/// Round trip for the boolean block.
pub proof fn lemma_fixed_bool_round_trip(v: Option<bool>, opt: RowEncodingOptions, rest: Seq<u8>)
    ensures
        fixed_decoded_bool(fixed_block_bool(v, opt) + rest, opt) == Ok::<
            (Option<bool>, int),
            DecodeError,
        >((v, 2)),
{
    let w = fixed_block_bool(v, opt) + rest;
    assert(w[0] == maybe_invert(fixed_base_bool(v, opt)[0], opt.descending));
    assert(w[1] == maybe_invert(fixed_base_bool(v, opt)[1], opt.descending));
}

/// Ascending/descending duality for fixed-width blocks: the descending
/// block is the bytewise inversion of the ascending block, nulls included —
/// a descending null carries the other reserved sentinel.
pub proof fn lemma_fixed_u32_descending_inverts(
    v: Option<u32>,
    opt_asc: RowEncodingOptions,
    opt_desc: RowEncodingOptions,
)
    requires
        !opt_asc.descending,
        opt_desc.descending,
        opt_asc.nulls_last == opt_desc.nulls_last,
    ensures
        fixed_block_u32(v, opt_desc) == Seq::new(
            fixed_block_u32(v, opt_asc).len(),
            |i: int| invert_byte(fixed_block_u32(v, opt_asc)[i]),
        ),
{
    let ea = fixed_block_u32(v, opt_asc);
    let ed = fixed_block_u32(v, opt_desc);
    assert(fixed_base_u32(v, opt_asc) == fixed_base_u32(v, opt_desc));
    assert(ed =~= Seq::new(ea.len(), |i: int| invert_byte(ea[i])));
}


/// The signed block inverts the same way: it is the unsigned block of the
/// shifted image.
pub proof fn lemma_fixed_i32_descending_inverts(
    v: Option<i32>,
    opt_asc: RowEncodingOptions,
    opt_desc: RowEncodingOptions,
)
    requires
        !opt_asc.descending,
        opt_desc.descending,
        opt_asc.nulls_last == opt_desc.nulls_last,
    ensures
        fixed_block_i32(v, opt_desc) == Seq::new(
            fixed_block_i32(v, opt_asc).len(),
            |i: int| invert_byte(fixed_block_i32(v, opt_asc)[i]),
        ),
{
    let u = match v {
        None => None,
        Some(x) => Some(i32_to_ord_u32(x)),
    };
    lemma_fixed_u32_descending_inverts(u, opt_asc, opt_desc);
}

/// Ascending/descending duality for the boolean block, nulls included.
pub proof fn lemma_fixed_bool_descending_inverts(
    v: Option<bool>,
    opt_asc: RowEncodingOptions,
    opt_desc: RowEncodingOptions,
)
    requires
        !opt_asc.descending,
        opt_desc.descending,
        opt_asc.nulls_last == opt_desc.nulls_last,
    ensures
        fixed_block_bool(v, opt_desc) == Seq::new(
            fixed_block_bool(v, opt_asc).len(),
            |i: int| invert_byte(fixed_block_bool(v, opt_asc)[i]),
        ),
{
    let ea = fixed_block_bool(v, opt_asc);
    let ed = fixed_block_bool(v, opt_desc);
    assert(fixed_base_bool(v, opt_asc) == fixed_base_bool(v, opt_desc));
    assert(ed =~= Seq::new(ea.len(), |i: int| invert_byte(ea[i])));
}

} // verus!
