//! Row encoding for variable-length UTF-8 / binary values.
//!
//! The encoding relies on the payload bytes staying at or below `0xFB` (in
//! UTF-8 the bytes `0xFC..=0xFF` never occur). Adding 2 to each byte shifts
//! the occupied range to `0x02..=0xFD`, which frees `0x00` and `0xFF` as null
//! sentinels and `0x01` / `0xFE` as sequence terminators. A descending column
//! additionally inverts every emitted byte. This gives the string row
//! encoding a constant one-byte overhead:
//!
//! * null: a single sentinel byte;
//! * non-null ascending: `(b0+2), (b1+2), ..., 0x01`;
//! * non-null descending: the bitwise inversion of the ascending bytes.

use vstd::prelude::*;

use crate::error::DecodeError;
use crate::options::{NULL_SENTINEL_FIRST, NULL_SENTINEL_LAST, RowEncodingOptions, spec_null_sentinel};

verus! {

/// Terminator of an ascending variable-length value.
pub const TERMINATOR_ASC: u8 = 0x01;
/// Terminator of a descending variable-length value (`0x01` inverted).
pub const TERMINATOR_DESC: u8 = 0xFE;
/// Largest payload byte the shift-by-two scheme accepts.
pub const MAX_PAYLOAD_BYTE: u8 = 0xFB;

/// The byte that ends a non-null variable-length encoding.
pub open spec fn spec_terminator(descending: bool) -> u8 {
    if descending {
        TERMINATOR_DESC
    } else {
        TERMINATOR_ASC
    }
}

/// Bitwise inversion of a byte, written arithmetically.
pub open spec fn invert_byte(b: u8) -> u8 {
    (0xFF - b) as u8
}

/// How one payload byte is emitted: shifted by two, and inverted when the
/// column is descending.
pub open spec fn shift_byte(b: u8, descending: bool) -> u8 {
    if descending {
        invert_byte(((b + 2) as u8))
    } else {
        (b + 2) as u8
    }
}

/// The range an emitted payload byte occupies, in either direction: it never
/// collides with a null sentinel or a terminator.
pub open spec fn is_shifted_byte(b: u8) -> bool {
    0x02 <= b && b <= 0xFD
}

/// Reverses `shift_byte`.
pub open spec fn unshift_byte(b: u8, descending: bool) -> u8 {
    if descending {
        (0xFD - b) as u8
    } else {
        (b - 2) as u8
    }
}

/// Every byte of the payload lies in the domain the shift scheme accepts.
pub open spec fn valid_payload(s: Seq<u8>) -> bool {
    forall|i: int| 0 <= i < s.len() ==> s[i] <= MAX_PAYLOAD_BYTE
}

/// The wire bytes of one variable-length value: a lone sentinel for null,
/// otherwise the shifted payload followed by the terminator.
pub open spec fn varlen_encoded(v: Option<Seq<u8>>, opt: RowEncodingOptions) -> Seq<u8> {
    match v {
        None => seq![spec_null_sentinel(opt)],
        Some(s) => Seq::new(s.len(), |i: int| shift_byte(s[i], opt.descending)).push(
            spec_terminator(opt.descending),
        ),
    }
}

/// How many bytes `varlen_encoded` occupies: `1` for null, `len + 1`
/// otherwise.
pub open spec fn varlen_encoded_len(v: Option<Seq<u8>>, opt: RowEncodingOptions) -> int {
    varlen_encoded(v, opt).len() as int
}

/// Reads the shifted payload at the front of `s`: the bytes up to the first
/// terminator, each unshifted, or the error the scan stops on.
pub open spec fn varlen_dec_payload(s: Seq<u8>, descending: bool) -> Result<Seq<u8>, DecodeError>
    decreases s.len(),
{
    if s.len() == 0 {
        Err(DecodeError::UnexpectedEnd)
    } else if s[0] == spec_terminator(descending) {
        Ok(Seq::empty())
    } else if !is_shifted_byte(s[0]) {
        Err(DecodeError::InvalidByte)
    } else {
        match varlen_dec_payload(s.skip(1), descending) {
            Ok(t) => Ok(seq![unshift_byte(s[0], descending)] + t),
            Err(e) => Err(e),
        }
    }
}

/// Decodes one variable-length value from the front of `s`: the value and
/// the number of bytes consumed, or why the bytes are malformed.
pub open spec fn varlen_decoded(s: Seq<u8>, opt: RowEncodingOptions) -> Result<
    (Option<Seq<u8>>, int),
    DecodeError,
> {
    if s.len() == 0 {
        Err(DecodeError::UnexpectedEnd)
    } else if s[0] == spec_null_sentinel(opt) {
        Ok((None, 1))
    } else {
        match varlen_dec_payload(s, opt.descending) {
            Ok(p) => Ok((Some(p), p.len() + 1int)),
            Err(e) => Err(e),
        }
    }
}

/// The view of an optional byte vector.
pub open spec fn opt_bytes_view(v: Option<Vec<u8>>) -> Option<Seq<u8>> {
    match v {
        None => None,
        Some(b) => Some(b@),
    }
}

/// Length oracle for one variable-length item: `a` is the payload length of
/// a non-null value, `None` marks a null. The encoding takes one byte for a
/// null and `len + 1` bytes otherwise, whatever the options say.
pub fn len_from_item(a: Option<usize>, _opt: RowEncodingOptions) -> (r: usize)
    requires
        a is Some ==> a.unwrap() < usize::MAX,
    ensures
        r == 1 + match a {
            None => 0int,
            Some(n) => n as int,
        },
        a is None ==> r == varlen_encoded_len(None, _opt),
        forall|s: Seq<u8>| (a matches Some(n) && s.len() == n) ==> r == varlen_encoded_len(Some(s), _opt),
{
    1 + match a {
        None => 0,
        Some(n) => n,
    }
}

/// Whether two byte vectors hold the same bytes.
pub fn bytes_eq(a: &Vec<u8>, b: &Vec<u8>) -> (r: bool)
    ensures
        r == (a@ == b@),
{
    if a.len() != b.len() {
        return false;
    }
    let n = a.len();
    let mut i: usize = 0;
    while i < n
        invariant
            n == a@.len(),
            n == b@.len(),
            i <= n,
            forall|j: int| 0 <= j < i ==> a@[j] == b@[j],
        decreases n - i,
    {
        if a[i] != b[i] {
            return false;
        }
        i = i + 1;
    }
    proof {
        assert(a@ =~= b@);
    }
    true
}

/// The view of an optional borrowed byte vector.
pub open spec fn opt_ref_bytes_view(v: Option<&Vec<u8>>) -> Option<Seq<u8>> {
    match v {
        None => None,
        Some(b) => Some(b@),
    }
}

/// Encodes one variable-length value into a fresh byte vector.
pub fn encode_varlen_item(value: &Option<Vec<u8>>, opt: RowEncodingOptions) -> (r: Vec<u8>)
    requires
        value matches Some(b) ==> valid_payload(b@),
    ensures
        r@ == varlen_encoded(opt_bytes_view(*value), opt),
{
    encode_varlen_ref(value.as_ref(), opt)
}

/// Encodes one borrowed variable-length value into a fresh byte vector.
pub fn encode_varlen_ref(value: Option<&Vec<u8>>, opt: RowEncodingOptions) -> (r: Vec<u8>)
    requires
        value matches Some(b) ==> valid_payload(b@),
    ensures
        r@ == varlen_encoded(opt_ref_bytes_view(value), opt),
{
    let mut out: Vec<u8> = Vec::new();
    match value {
        None => {
            out.push(opt.null_sentinel());
        },
        Some(b) => {
            let mut i: usize = 0;
            while i < b.len()
                invariant
                    i <= b.len(),
                    out@.len() == i,
                    valid_payload(b@),
                    forall|j: int| 0 <= j < i ==> out@[j] == shift_byte(b@[j], opt.descending),
                decreases b.len() - i,
            {
                let raw = b[i];
                let shifted = raw + 2;
                if opt.descending {
                    out.push(0xFF - shifted);
                } else {
                    out.push(shifted);
                }
                i = i + 1;
            }
            if opt.descending {
                out.push(TERMINATOR_DESC);
            } else {
                out.push(TERMINATOR_ASC);
            }
            proof {
                assert(out@ =~= varlen_encoded(Some(b@), opt));
            }
        },
    }
    out
}

/// Prepends already-decoded payload bytes to the outcome of decoding the
/// rest: the shape a payload scan takes one step at a time.
pub open spec fn prepend_payload(p: Seq<u8>, r: Result<Seq<u8>, DecodeError>) -> Result<
    Seq<u8>,
    DecodeError,
> {
    match r {
        Ok(t) => Ok(p + t),
        Err(e) => Err(e),
    }
}

/// Decodes one variable-length value from `row` starting at `pos`: the value
/// and the number of bytes consumed, exactly as `varlen_decoded` reads the
/// remaining bytes, or that spec's error on malformed input.
pub fn decode_varlen_item(row: &Vec<u8>, pos: usize, opt: RowEncodingOptions) -> (r: Result<
    (Option<Vec<u8>>, usize),
    DecodeError,
>)
    requires
        pos <= row.len(),
    ensures
        match varlen_decoded(row@.skip(pos as int), opt) {
            Ok(vc) => r matches Ok(rv) && opt_bytes_view(rv.0) == vc.0 && rv.1 == vc.1,
            Err(e) => r == Err::<(Option<Vec<u8>>, usize), DecodeError>(e),
        },
        r matches Ok(rv) ==> pos + rv.1 <= row@.len(),
{
    let ghost s0 = row@.skip(pos as int);
    if pos == row.len() {
        return Err(DecodeError::UnexpectedEnd);
    }
    let b0 = row[pos];
    if b0 == opt.null_sentinel() {
        return Ok((None, 1));
    }
    let descending = opt.descending;
    let term = if descending {
        TERMINATOR_DESC
    } else {
        TERMINATOR_ASC
    };
    let mut out: Vec<u8> = Vec::new();
    let mut i: usize = pos;
    while i < row.len()
        invariant
            pos <= i <= row.len(),
            pos < row.len(),
            s0 == row@.skip(pos as int),
            s0[0] != spec_null_sentinel(opt),
            term == spec_terminator(descending),
            descending == opt.descending,
            out@.len() == i - pos,
            varlen_dec_payload(s0, descending) == prepend_payload(
                out@,
                varlen_dec_payload(row@.skip(i as int), descending),
            ),
        decreases row.len() - i,
    {
        let b = row[i];
        proof {
            assert(row@.skip(i as int)[0] == b);
        }
        if b == term {
            proof {
                assert(varlen_dec_payload(row@.skip(i as int), descending) == Ok::<
                    Seq<u8>,
                    DecodeError,
                >(Seq::empty()));
                assert(out@ + Seq::<u8>::empty() =~= out@);
            }
            let n = out.len();
            return Ok((Some(out), n + 1));
        }
        if b < 0x02 || b > 0xFD {
            return Err(DecodeError::InvalidByte);
        }
        let ghost out_old = out@;
        if descending {
            out.push(0xFD - b);
        } else {
            out.push(b - 2);
        }
        proof {
            let tail = row@.skip(i as int);
            let tail2 = row@.skip(i as int + 1);
            assert(tail.skip(1) =~= tail2);
            match varlen_dec_payload(tail2, descending) {
                Ok(t) => {
                    assert(out@ + t =~= out_old + (seq![unshift_byte(b, descending)] + t));
                },
                Err(_) => {},
            }
        }
        i = i + 1;
    }
    proof {
        assert(row@.skip(i as int).len() == 0);
    }
    Err(DecodeError::UnexpectedEnd)
}

/// Every non-null item's payload lies in the accepted byte domain.
pub open spec fn valid_items(vals: Seq<Option<Vec<u8>>>) -> bool {
    forall|i: int|
        0 <= i < vals.len() ==> (#[trigger] vals[i] matches Some(b) ==> valid_payload(b@))
}

/// The encoded length of item `i` of a column.
pub open spec fn item_enc_len(vals: Seq<Option<Vec<u8>>>, opt: RowEncodingOptions, i: int) -> int {
    varlen_encoded_len(opt_bytes_view(vals[i]), opt)
}

/// Each item's write region `[offs[i], offs[i] + enc_len)` ends before the
/// next item's offset, and the last before the buffer's end: the capacity
/// contract the length oracle lets a caller establish.
pub open spec fn varlen_regions_fit(
    offs: Seq<usize>,
    vals: Seq<Option<Vec<u8>>>,
    opt: RowEncodingOptions,
    buf_len: int,
) -> bool {
    forall|i: int|
        0 <= i < vals.len() ==> offs[i] + #[trigger] item_enc_len(vals, opt, i) <= (if i + 1
            < vals.len() {
            offs[i + 1] as int
        } else {
            buf_len
        })
}

/// Byte position `k` lies in the write region of one of the first `n` items.
pub open spec fn in_write_region(
    k: int,
    offs: Seq<usize>,
    vals: Seq<Option<Vec<u8>>>,
    opt: RowEncodingOptions,
    n: int,
) -> bool {
    exists|i: int| 0 <= i < n && offs[i] <= k < offs[i] + #[trigger] item_enc_len(vals, opt, i)
}

/// Under `varlen_regions_fit`, the write regions of items `j < i` end at or
/// before `offs[i]`, and every region ends within the buffer.
proof fn lemma_regions_ordered(
    offs: Seq<usize>,
    vals: Seq<Option<Vec<u8>>>,
    opt: RowEncodingOptions,
    buf_len: int,
    j: int,
    i: int,
)
    requires
        varlen_regions_fit(offs, vals, opt, buf_len),
        offs.len() == vals.len(),
        0 <= j <= i < vals.len(),
    ensures
        j < i ==> offs[j] + item_enc_len(vals, opt, j) <= offs[i],
        offs[i] + item_enc_len(vals, opt, i) <= buf_len,
    decreases vals.len() - j,
{
    if i + 1 < vals.len() {
        lemma_regions_ordered(offs, vals, opt, buf_len, i + 1, i + 1);
        assert(varlen_encoded(opt_bytes_view(vals[i + 1]), opt).len() >= 0);
    }
    if j < i {
        if j + 1 < i {
            lemma_regions_ordered(offs, vals, opt, buf_len, j + 1, i);
            assert(varlen_encoded(opt_bytes_view(vals[j + 1]), opt).len() >= 0);
        }
    }
}

/// Writes one variable-length value per input item into `buffer`, each at
/// the position its offset names; on exit each offset has advanced by
/// exactly the item's encoded length (the length oracle's answer), the bytes
/// of each region hold the item's encoding, and no byte outside the regions
/// has changed. The caller guarantees capacity via `varlen_regions_fit`.
pub fn encode_str(
    buffer: &mut Vec<u8>,
    input: &Vec<Option<Vec<u8>>>,
    opt: RowEncodingOptions,
    offsets: &mut Vec<usize>,
)
    requires
        old(offsets).len() == input.len(),
        valid_items(input@),
        varlen_regions_fit(old(offsets)@, input@, opt, old(buffer)@.len() as int),
    ensures
        final(buffer)@.len() == old(buffer)@.len(),
        final(offsets)@.len() == old(offsets)@.len(),
        forall|i: int|
            0 <= i < input@.len() ==> final(offsets)@[i] == old(offsets)@[i] + item_enc_len(
                input@,
                opt,
                i,
            ),
        forall|i: int|
            0 <= i < input@.len() ==> final(buffer)@.subrange(
                old(offsets)@[i] as int,
                old(offsets)@[i] + item_enc_len(input@, opt, i),
            ) == varlen_encoded(opt_bytes_view(input@[i]), opt),
        forall|k: int|
            0 <= k < final(buffer)@.len() && !in_write_region(
                k,
                old(offsets)@,
                input@,
                opt,
                input@.len() as int,
            ) ==> final(buffer)@[k] == old(buffer)@[k],
{
    let ghost offs0 = old(offsets)@;
    let ghost buf0 = old(buffer)@;
    let n = input.len();
    let mut i: usize = 0;
    while i < n
        invariant
            n == input@.len(),
            offs0.len() == n,
            offsets@.len() == n,
            buffer@.len() == buf0.len(),
            i <= n,
            valid_items(input@),
            varlen_regions_fit(offs0, input@, opt, buf0.len() as int),
            forall|j: int| i <= j < n ==> offsets@[j] == offs0[j],
            forall|j: int|
                0 <= j < i ==> offsets@[j] == offs0[j] + item_enc_len(input@, opt, j),
            forall|j: int|
                0 <= j < i ==> buffer@.subrange(
                    offs0[j] as int,
                    offs0[j] + item_enc_len(input@, opt, j),
                ) == varlen_encoded(opt_bytes_view(input@[j]), opt),
            forall|k: int|
                0 <= k < buf0.len() && !in_write_region(k, offs0, input@, opt, i as int)
                    ==> buffer@[k] == buf0[k],
        decreases n - i,
    {
        let enc = encode_varlen_item(&input[i], opt);
        let start = offsets[i];
        proof {
            lemma_regions_ordered(offs0, input@, opt, buf0.len() as int, i as int, i as int);
            assert(start == offs0[i as int]);
            assert(enc@.len() == item_enc_len(input@, opt, i as int));
        }
        let ghost buf_pre = buffer@;
        let blen = buffer.len();
        let mut j: usize = 0;
        while j < enc.len()
            invariant
                buffer@.len() == buf_pre.len(),
                blen == buffer@.len(),
                j <= enc.len(),
                start + enc@.len() <= blen,
                forall|k: int| 0 <= k < j ==> buffer@[start + k] == enc@[k],
                forall|k: int|
                    0 <= k < buf_pre.len() && !(start <= k < start + j) ==> buffer@[k]
                        == buf_pre[k],
            decreases enc.len() - j,
        {
            let b = enc[j];
            buffer[start + j] = b;
            j = j + 1;
        }
        let new_off = start + enc.len();
        offsets[i] = new_off;
        proof {
            let ii = i as int;
            let elen = item_enc_len(input@, opt, ii);
            assert(enc@.len() == elen);
            assert(buffer@.subrange(offs0[ii] as int, offs0[ii] + elen) =~= varlen_encoded(
                opt_bytes_view(input@[ii]),
                opt,
            ));
            assert forall|j2: int|
                0 <= j2 < ii implies buffer@.subrange(
                offs0[j2] as int,
                offs0[j2] + item_enc_len(input@, opt, j2),
            ) == varlen_encoded(opt_bytes_view(input@[j2]), opt) by {
                lemma_regions_ordered(offs0, input@, opt, buf0.len() as int, j2, ii);
                assert(buffer@.subrange(
                    offs0[j2] as int,
                    offs0[j2] + item_enc_len(input@, opt, j2),
                ) =~= buf_pre.subrange(offs0[j2] as int, offs0[j2] + item_enc_len(input@, opt, j2)));
            }
            assert forall|k: int|
                0 <= k < buf0.len() && !in_write_region(k, offs0, input@, opt, ii + 1)
                    implies buffer@[k] == buf0[k] by {
                assert(!in_write_region(k, offs0, input@, opt, ii));
                assert(!(offs0[ii] <= k < offs0[ii] + elen));
            }
        }
        i = i + 1;
    }
}

/// The payload scan's result describes the raw bytes exactly: the bytes
/// before the terminator are shifted payload bytes, and the byte at the
/// payload's length is the first terminator.
pub proof fn lemma_dec_payload_shape(s: Seq<u8>, descending: bool)
    requires
        varlen_dec_payload(s, descending) is Ok,
    ensures
        ({
            let p = varlen_dec_payload(s, descending).unwrap();
            &&& p.len() < s.len()
            &&& s[p.len() as int] == spec_terminator(descending)
            &&& forall|j: int|
                0 <= j < p.len() ==> #[trigger] s[j] != spec_terminator(descending)
                    && is_shifted_byte(s[j]) && p[j] == unshift_byte(s[j], descending)
        }),
    decreases s.len(),
{
    let p = varlen_dec_payload(s, descending).unwrap();
    if s[0] == spec_terminator(descending) {
    } else {
        lemma_dec_payload_shape(s.skip(1), descending);
        let p1 = varlen_dec_payload(s.skip(1), descending).unwrap();
        assert(p == seq![unshift_byte(s[0], descending)] + p1);
        assert(forall|j: int| 0 <= j < p1.len() ==> p[j + 1] == p1[j]);
        assert(forall|j: int| 1 <= j < s.len() ==> s[j] == s.skip(1)[j - 1]);
    }
}

/// Reads how many bytes the value at the front of `row` occupies, without
/// materialising it: `1` for a null, the payload length plus the terminator
/// otherwise.
pub fn len_from_buffer(row: &[u8], opt: RowEncodingOptions) -> (r: usize)
    requires
        varlen_decoded(row@, opt) is Ok,
    ensures
        r == varlen_decoded(row@, opt).unwrap().1,
{
    let b0 = row[0];
    if b0 == opt.null_sentinel() {
        return 1;
    }
    proof {
        lemma_dec_payload_shape(row@, opt.descending);
    }
    let ghost p = varlen_dec_payload(row@, opt.descending).unwrap();
    let term = if opt.descending {
        TERMINATOR_DESC
    } else {
        TERMINATOR_ASC
    };
    let mut i: usize = 0;
    while row[i] != term
        invariant
            term == spec_terminator(opt.descending),
            varlen_decoded(row@, opt) is Ok,
            row@[0] != spec_null_sentinel(opt),
            p == varlen_dec_payload(row@, opt.descending).unwrap(),
            p.len() < row@.len(),
            row@[p.len() as int] == spec_terminator(opt.descending),
            forall|j: int| 0 <= j < p.len() ==> #[trigger] row@[j] != spec_terminator(opt.descending),
            i <= p.len(),
        decreases p.len() - i,
    {
        i = i + 1;
    }
    proof {
        assert(i == p.len());
    }
    i + 1
}

/// Round trip: decoding the encoding of a value, with any bytes following
/// it, yields the value back and consumes exactly its encoded length.
pub proof fn lemma_varlen_round_trip(v: Option<Seq<u8>>, opt: RowEncodingOptions, rest: Seq<u8>)
    requires
        v matches Some(s) ==> valid_payload(s),
    ensures
        varlen_decoded(varlen_encoded(v, opt) + rest, opt) == Ok::<(Option<Seq<u8>>, int), DecodeError>(
            (v, varlen_encoded_len(v, opt)),
        ),
{
    let w = varlen_encoded(v, opt) + rest;
    match v {
        None => {
            assert(w[0] == spec_null_sentinel(opt));
        },
        Some(s) => {
            let e = varlen_encoded(Some(s), opt);
            if s.len() == 0 {
                assert(w[0] == spec_terminator(opt.descending));
            } else {
                assert(w[0] == shift_byte(s[0], opt.descending));
                assert(is_shifted_byte(w[0]));
            }
            assert(w[0] != spec_null_sentinel(opt));
            lemma_dec_payload_of_encoded(s, opt.descending, rest);
            assert(w =~= Seq::new(s.len(), |i: int| shift_byte(s[i], opt.descending)).push(
                spec_terminator(opt.descending),
            ) + rest);
        },
    }
}

/// The payload scan of `varlen_dec_payload` inverts the encoder: it stops at
/// the terminator and unshifts every payload byte.
pub proof fn lemma_dec_payload_of_encoded(s: Seq<u8>, descending: bool, rest: Seq<u8>)
    requires
        valid_payload(s),
    ensures
        varlen_dec_payload(
            Seq::new(s.len(), |i: int| shift_byte(s[i], descending)).push(
                spec_terminator(descending),
            ) + rest,
            descending,
        ) == Ok::<Seq<u8>, DecodeError>(s),
    decreases s.len(),
{
    let w = Seq::new(s.len(), |i: int| shift_byte(s[i], descending)).push(
        spec_terminator(descending),
    ) + rest;
    if s.len() == 0 {
        assert(w[0] == spec_terminator(descending));
        assert(Seq::<u8>::empty() =~= s);
    } else {
        assert(w[0] == shift_byte(s[0], descending));
        assert(is_shifted_byte(w[0]));
        assert(w[0] != spec_terminator(descending));
        assert(unshift_byte(shift_byte(s[0], descending), descending) == s[0]);
        let s1 = s.skip(1);
        lemma_dec_payload_of_encoded(s1, descending, rest);
        assert(w.skip(1) =~= Seq::new(s1.len(), |i: int| shift_byte(s1[i], descending)).push(
            spec_terminator(descending),
        ) + rest);
        assert(seq![s[0]] + s1 =~= s);
    }
}

/// Ascending/descending duality: for a non-null value the descending
/// encoding is the bytewise inversion of the ascending encoding.
pub proof fn lemma_descending_inverts(
    s: Seq<u8>,
    opt_asc: RowEncodingOptions,
    opt_desc: RowEncodingOptions,
)
    requires
        valid_payload(s),
        !opt_asc.descending,
        opt_desc.descending,
    ensures
        varlen_encoded(Some(s), opt_desc) == Seq::new(
            varlen_encoded(Some(s), opt_asc).len(),
            |i: int| invert_byte(varlen_encoded(Some(s), opt_asc)[i]),
        ),
{
    let ea = varlen_encoded(Some(s), opt_asc);
    let ed = varlen_encoded(Some(s), opt_desc);
    assert forall|i: int| 0 <= i < ea.len() implies ed[i] == invert_byte(ea[i]) by {
        if i < s.len() {
            assert(ea[i] == shift_byte(s[i], false));
            assert(ed[i] == shift_byte(s[i], true));
        } else {
            assert(ea[i] == TERMINATOR_ASC);
            assert(ed[i] == TERMINATOR_DESC);
        }
    }
    assert(ed =~= Seq::new(ea.len(), |i: int| invert_byte(ea[i])));
}

/// No forbidden bytes in the payload: every byte of a non-null encoding but
/// the last stays inside the shifted range, so neither reserved sentinel nor
/// either terminator ever occurs before the final terminator byte.
pub proof fn lemma_no_forbidden_bytes(s: Seq<u8>, opt: RowEncodingOptions)
    requires
        valid_payload(s),
    ensures
        ({
            let e = varlen_encoded(Some(s), opt);
            &&& e.len() == s.len() + 1
            &&& e[e.len() - 1] == spec_terminator(opt.descending)
            &&& forall|i: int| 0 <= i < e.len() - 1 ==> is_shifted_byte(#[trigger] e[i])
            &&& forall|i: int|
                0 <= i < e.len() - 1 ==> #[trigger] e[i] != NULL_SENTINEL_FIRST && e[i]
                    != NULL_SENTINEL_LAST && e[i] != TERMINATOR_ASC && e[i] != TERMINATOR_DESC
        }),
{
    let e = varlen_encoded(Some(s), opt);
    assert forall|i: int| 0 <= i < e.len() - 1 implies is_shifted_byte(#[trigger] e[i]) by {
        assert(e[i] == shift_byte(s[i], opt.descending));
    }
}

} // verus!
