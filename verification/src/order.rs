//! Lexicographic byte order and the order-preservation arguments.
//!
//! `lex_cmp` is the three-way comparison of byte sequences that memcmp-style
//! row comparison performs. The lemmas here show that the wire encodings
//! translate value order into that byte order: shifted payload bytes are
//! strictly greater than the terminator, so a shorter value compares less
//! than a longer value sharing its prefix, and the descending inversion
//! reverses every comparison uniformly.

use vstd::prelude::*;

use crate::fixed::{
    PRESENT_MARKER, be_bytes_u32, fixed_base_bool, fixed_base_u32, fixed_block_bool,
    fixed_block_i32, fixed_block_u32, i32_to_ord_u32, lemma_u32_byte_order, lemma_u32_bytes,
    maybe_invert,
};
use crate::options::{RowEncodingOptions, spec_null_sentinel};
use crate::varlen::{
    is_shifted_byte, shift_byte, spec_terminator, valid_payload, varlen_encoded,
};

verus! {

/// Three-way lexicographic comparison of byte sequences: `-1`, `0` or `1`.
pub open spec fn lex_cmp(a: Seq<u8>, b: Seq<u8>) -> int
    decreases a.len(), b.len(),
{
    if a.len() == 0 && b.len() == 0 {
        0
    } else if a.len() == 0 {
        -1
    } else if b.len() == 0 {
        1
    } else if a[0] < b[0] {
        -1
    } else if a[0] > b[0] {
        1
    } else {
        lex_cmp(a.skip(1), b.skip(1))
    }
}

/// Two sequences disagree at some position that lies inside both.
pub open spec fn differ_within(a: Seq<u8>, b: Seq<u8>) -> bool {
    exists|k: int| 0 <= k < a.len() && k < b.len() && a[k] != b[k]
}

/// `lex_cmp` is zero exactly on equal sequences.
pub proof fn lemma_lex_cmp_zero(a: Seq<u8>, b: Seq<u8>)
    ensures
        lex_cmp(a, b) == 0 <==> a == b,
    decreases a.len(),
{
    if a.len() == 0 || b.len() == 0 {
        if a.len() == 0 && b.len() == 0 {
            assert(a =~= b);
        }
    } else if a[0] == b[0] {
        lemma_lex_cmp_zero(a.skip(1), b.skip(1));
        if a.skip(1) == b.skip(1) {
            assert(a =~= seq![a[0]] + a.skip(1));
            assert(b =~= seq![b[0]] + b.skip(1));
        }
    } else {
        assert(a != b) by {
            assert(a[0] != b[0]);
        }
    }
}

/// Appending suffixes after a shared prefix leaves the comparison to the
/// suffixes.
pub proof fn lemma_lex_cmp_concat_eq(a: Seq<u8>, s: Seq<u8>, t: Seq<u8>)
    ensures
        lex_cmp(a + s, a + t) == lex_cmp(s, t),
    decreases a.len(),
{
    if a.len() == 0 {
        assert(a + s =~= s);
        assert(a + t =~= t);
    } else {
        assert((a + s)[0] == a[0]);
        assert((a + t)[0] == a[0]);
        assert((a + s).skip(1) =~= a.skip(1) + s);
        assert((a + t).skip(1) =~= a.skip(1) + t);
        lemma_lex_cmp_concat_eq(a.skip(1), s, t);
    }
}

/// When two sequences disagree inside both, the comparison is settled there:
/// whatever follows either cannot change it.
pub proof fn lemma_lex_cmp_concat_differ(a: Seq<u8>, b: Seq<u8>, s: Seq<u8>, t: Seq<u8>)
    requires
        differ_within(a, b),
    ensures
        lex_cmp(a + s, b + t) == lex_cmp(a, b),
        lex_cmp(a, b) != 0,
    decreases a.len(),
{
    let k = choose|k: int| 0 <= k < a.len() && k < b.len() && a[k] != b[k];
    assert((a + s)[0] == a[0]);
    assert((b + t)[0] == b[0]);
    if a[0] != b[0] {
    } else {
        assert(k > 0);
        assert(a.skip(1)[k - 1] != b.skip(1)[k - 1]);
        assert((a + s).skip(1) =~= a.skip(1) + s);
        assert((b + t).skip(1) =~= b.skip(1) + t);
        lemma_lex_cmp_concat_differ(a.skip(1), b.skip(1), s, t);
    }
}

/// Three-way comparison of two optional variable-length values under the
/// column's options: nulls sort by `nulls_last` (the variable-length null
/// sentinel is not inverted, so a descending column leaves null placement
/// alone), and non-null values compare lexicographically, reversed when the
/// column is descending.
pub open spec fn varlen_value_cmp(
    x: Option<Seq<u8>>,
    y: Option<Seq<u8>>,
    opt: RowEncodingOptions,
) -> int {
    match (x, y) {
        (None, None) => 0,
        (None, Some(_)) => if opt.nulls_last {
            1int
        } else {
            -1int
        },
        (Some(_), None) => if opt.nulls_last {
            -1int
        } else {
            1int
        },
        (Some(a), Some(b)) => if opt.descending {
            lex_cmp(b, a)
        } else {
            lex_cmp(a, b)
        },
    }
}

/// Comparing two shifted-and-terminated payloads agrees with comparing the
/// raw payloads, reversed under descending order.
proof fn lemma_payload_order(a: Seq<u8>, b: Seq<u8>, descending: bool)
    requires
        valid_payload(a),
        valid_payload(b),
    ensures
        lex_cmp(
            Seq::new(a.len(), |i: int| shift_byte(a[i], descending)).push(
                spec_terminator(descending),
            ),
            Seq::new(b.len(), |i: int| shift_byte(b[i], descending)).push(
                spec_terminator(descending),
            ),
        ) == if descending {
            lex_cmp(b, a)
        } else {
            lex_cmp(a, b)
        },
    decreases a.len(), b.len(),
{
    let ea = Seq::new(a.len(), |i: int| shift_byte(a[i], descending)).push(
        spec_terminator(descending),
    );
    let eb = Seq::new(b.len(), |i: int| shift_byte(b[i], descending)).push(
        spec_terminator(descending),
    );
    if a.len() == 0 && b.len() == 0 {
        assert(ea =~= eb);
        lemma_lex_cmp_zero(ea, eb);
    } else if a.len() == 0 {
        assert(ea[0] == spec_terminator(descending));
        assert(eb[0] == shift_byte(b[0], descending));
        assert(is_shifted_byte(eb[0]));
    } else if b.len() == 0 {
        assert(eb[0] == spec_terminator(descending));
        assert(ea[0] == shift_byte(a[0], descending));
        assert(is_shifted_byte(ea[0]));
    } else {
        assert(ea[0] == shift_byte(a[0], descending));
        assert(eb[0] == shift_byte(b[0], descending));
        if a[0] == b[0] {
            let a1 = a.skip(1);
            let b1 = b.skip(1);
            assert(ea.skip(1) =~= Seq::new(a1.len(), |i: int| shift_byte(a1[i], descending)).push(
                spec_terminator(descending),
            ));
            assert(eb.skip(1) =~= Seq::new(b1.len(), |i: int| shift_byte(b1[i], descending)).push(
                spec_terminator(descending),
            ));
            lemma_payload_order(a1, b1, descending);
        }
    }
}

/// Order preservation for one variable-length column: lexicographic
/// comparison of the encodings of two values equals the comparison of the
/// values themselves under the column's options.
pub proof fn lemma_varlen_order(
    x: Option<Seq<u8>>,
    y: Option<Seq<u8>>,
    opt: RowEncodingOptions,
)
    requires
        x matches Some(a) ==> valid_payload(a),
        y matches Some(b) ==> valid_payload(b),
        !opt.unordered,
    ensures
        lex_cmp(varlen_encoded(x, opt), varlen_encoded(y, opt)) == varlen_value_cmp(x, y, opt),
{
    let ex = varlen_encoded(x, opt);
    let ey = varlen_encoded(y, opt);
    match (x, y) {
        (None, None) => {
            assert(ex =~= ey);
            lemma_lex_cmp_zero(ex, ey);
        },
        (None, Some(b)) => {
            assert(ex[0] == spec_null_sentinel(opt));
            lemma_nonnull_head(b, opt);
        },
        (Some(a), None) => {
            assert(ey[0] == spec_null_sentinel(opt));
            lemma_nonnull_head(a, opt);
        },
        (Some(a), Some(b)) => {
            lemma_payload_order(a, b, opt.descending);
        },
    }
}

/// The first byte of a non-null variable-length encoding is a terminator or
/// a shifted byte, so it lies strictly between the two reserved sentinels.
proof fn lemma_nonnull_head(s: Seq<u8>, opt: RowEncodingOptions)
    requires
        valid_payload(s),
    ensures
        0x00 < varlen_encoded(Some(s), opt)[0] < 0xFF,
{
    let e = varlen_encoded(Some(s), opt);
    if s.len() == 0 {
        assert(e[0] == spec_terminator(opt.descending));
    } else {
        assert(e[0] == shift_byte(s[0], opt.descending));
    }
}

/// Distinct values never share an encoding: their encodings disagree at a
/// position inside both, so whatever follows them in a row cannot mask the
/// difference.
pub proof fn lemma_varlen_enc_differ(
    x: Option<Seq<u8>>,
    y: Option<Seq<u8>>,
    opt: RowEncodingOptions,
)
    requires
        x matches Some(a) ==> valid_payload(a),
        y matches Some(b) ==> valid_payload(b),
        x != y,
    ensures
        differ_within(varlen_encoded(x, opt), varlen_encoded(y, opt)),
{
    let ex = varlen_encoded(x, opt);
    let ey = varlen_encoded(y, opt);
    match (x, y) {
        (None, None) => {
            assert(false);
        },
        (None, Some(b)) => {
            lemma_nonnull_head(b, opt);
            assert(ex[0] != ey[0]);
        },
        (Some(a), None) => {
            lemma_nonnull_head(a, opt);
            assert(ex[0] != ey[0]);
        },
        (Some(a), Some(b)) => {
            let m = if a.len() <= b.len() {
                a.len() as int
            } else {
                b.len() as int
            };
            if exists|i: int| 0 <= i < m && a[i] != b[i] {
                let k = choose|i: int| 0 <= i < m && a[i] != b[i];
                assert(ex[k] == shift_byte(a[k], opt.descending));
                assert(ey[k] == shift_byte(b[k], opt.descending));
                assert(ex[k] != ey[k]);
            } else {
                if a.len() == b.len() {
                    assert(a =~= b);
                    assert(false);
                } else if a.len() < b.len() {
                    assert(ex[m] == spec_terminator(opt.descending));
                    assert(ey[m] == shift_byte(b[m], opt.descending));
                    assert(is_shifted_byte(ey[m]));
                    assert(ex[m] != ey[m]);
                } else {
                    assert(ey[m] == spec_terminator(opt.descending));
                    assert(ex[m] == shift_byte(a[m], opt.descending));
                    assert(is_shifted_byte(ex[m]));
                    assert(ex[m] != ey[m]);
                }
            }
        },
    }
}


/// Equal-length sequences that are not equal disagree at some shared
/// position.
pub proof fn lemma_differ_within_equal_len(a: Seq<u8>, b: Seq<u8>)
    requires
        a.len() == b.len(),
        a != b,
    ensures
        differ_within(a, b),
{
    if forall|k: int| 0 <= k < a.len() ==> a[k] == b[k] {
        assert(a =~= b);
        assert(false);
    }
}

/// When two equal-length sequences first disagree at `k`, the comparison is
/// decided by the bytes there.
proof fn lemma_lex_cmp_first_diff(a: Seq<u8>, b: Seq<u8>, k: int)
    requires
        a.len() == b.len(),
        0 <= k < a.len(),
        forall|j: int| 0 <= j < k ==> a[j] == b[j],
        a[k] != b[k],
    ensures
        lex_cmp(a, b) == (if a[k] < b[k] {
            -1int
        } else {
            1int
        }),
    decreases k,
{
    if k == 0 {
    } else {
        assert(a[0] == b[0]);
        assert(forall|j: int| 0 <= j < k - 1 ==> a.skip(1)[j] == b.skip(1)[j]);
        assert(a.skip(1)[k - 1] != b.skip(1)[k - 1]);
        lemma_lex_cmp_first_diff(a.skip(1), b.skip(1), k - 1);
    }
}

/// Three-way comparison of two optional fixed-width values under the
/// column's options: nulls sort by `nulls_last`, values numerically, and a
/// descending column reverses the whole comparison, null placement
/// included — the fixed-width null block is inverted with the rest.
pub open spec fn fixed_value_cmp_u32(x: Option<u32>, y: Option<u32>, opt: RowEncodingOptions) -> int {
    let base = match (x, y) {
        (None, None) => 0int,
        (None, Some(_)) => if opt.nulls_last {
            1int
        } else {
            -1int
        },
        (Some(_), None) => if opt.nulls_last {
            -1int
        } else {
            1int
        },
        (Some(a), Some(b)) => if a < b {
            -1int
        } else if a > b {
            1int
        } else {
            0int
        },
    };
    if opt.descending {
        -base
    } else {
        base
    }
}

/// The same comparison for signed values.
pub open spec fn fixed_value_cmp_i32(x: Option<i32>, y: Option<i32>, opt: RowEncodingOptions) -> int {
    let base = match (x, y) {
        (None, None) => 0int,
        (None, Some(_)) => if opt.nulls_last {
            1int
        } else {
            -1int
        },
        (Some(_), None) => if opt.nulls_last {
            -1int
        } else {
            1int
        },
        (Some(a), Some(b)) => if a < b {
            -1int
        } else if a > b {
            1int
        } else {
            0int
        },
    };
    if opt.descending {
        -base
    } else {
        base
    }
}

/// The same comparison for booleans, with false below true.
pub open spec fn fixed_value_cmp_bool(x: Option<bool>, y: Option<bool>, opt: RowEncodingOptions) -> int {
    let base = match (x, y) {
        (None, None) => 0int,
        (None, Some(_)) => if opt.nulls_last {
            1int
        } else {
            -1int
        },
        (Some(_), None) => if opt.nulls_last {
            -1int
        } else {
            1int
        },
        (Some(a), Some(b)) => if !a && b {
            -1int
        } else if a && !b {
            1int
        } else {
            0int
        },
    };
    if opt.descending {
        -base
    } else {
        base
    }
}

/// Order preservation for one fixed-width unsigned column.
pub proof fn lemma_fixed_u32_order(x: Option<u32>, y: Option<u32>, opt: RowEncodingOptions)
    requires
        !opt.unordered,
    ensures
        lex_cmp(fixed_block_u32(x, opt), fixed_block_u32(y, opt)) == fixed_value_cmp_u32(
            x,
            y,
            opt,
        ),
{
    let ex = fixed_block_u32(x, opt);
    let ey = fixed_block_u32(y, opt);
    match (x, y) {
        (None, None) => {
            assert(ex =~= ey);
            lemma_lex_cmp_zero(ex, ey);
        },
        (None, Some(b)) => {
            assert(ex[0] == maybe_invert(spec_null_sentinel(opt), opt.descending));
            assert(ey[0] == maybe_invert(PRESENT_MARKER, opt.descending));
            lemma_lex_cmp_first_diff(ex, ey, 0);
        },
        (Some(a), None) => {
            assert(ex[0] == maybe_invert(PRESENT_MARKER, opt.descending));
            assert(ey[0] == maybe_invert(spec_null_sentinel(opt), opt.descending));
            lemma_lex_cmp_first_diff(ex, ey, 0);
        },
        (Some(a), Some(b)) => {
            if a == b {
                assert(ex =~= ey);
                lemma_lex_cmp_zero(ex, ey);
            } else if a < b {
                lemma_fixed_u32_some_diff(a, b, opt);
            } else {
                lemma_fixed_u32_some_diff(b, a, opt);
            }
        },
    }
}

/// For `a < b`, the blocks of `a` and `b` first disagree at the byte the
/// big-endian comparison names, in the right direction.
proof fn lemma_fixed_u32_some_diff(a: u32, b: u32, opt: RowEncodingOptions)
    requires
        a < b,
    ensures
        lex_cmp(fixed_block_u32(Some(a), opt), fixed_block_u32(Some(b), opt)) == (if opt.descending {
            1int
        } else {
            -1int
        }),
        lex_cmp(fixed_block_u32(Some(b), opt), fixed_block_u32(Some(a), opt)) == (if opt.descending {
            -1int
        } else {
            1int
        }),
{
    lemma_u32_byte_order(a, b);
    lemma_u32_bytes(a);
    lemma_u32_bytes(b);
    let ea = fixed_block_u32(Some(a), opt);
    let eb = fixed_block_u32(Some(b), opt);
    let ba = be_bytes_u32(a);
    let bb = be_bytes_u32(b);
    assert(ea[0] == eb[0]);
    assert(forall|j: int| 1 <= j < 5 ==> ea[j] == maybe_invert(ba[j - 1], opt.descending));
    assert(forall|j: int| 1 <= j < 5 ==> eb[j] == maybe_invert(bb[j - 1], opt.descending));
    if ba[0] != bb[0] {
        lemma_lex_cmp_first_diff(ea, eb, 1);
        lemma_lex_cmp_first_diff(eb, ea, 1);
    } else if ba[1] != bb[1] {
        lemma_lex_cmp_first_diff(ea, eb, 2);
        lemma_lex_cmp_first_diff(eb, ea, 2);
    } else if ba[2] != bb[2] {
        lemma_lex_cmp_first_diff(ea, eb, 3);
        lemma_lex_cmp_first_diff(eb, ea, 3);
    } else {
        assert(ba[3] < bb[3]);
        lemma_lex_cmp_first_diff(ea, eb, 4);
        lemma_lex_cmp_first_diff(eb, ea, 4);
    }
}

/// Order preservation for one fixed-width signed column: the shifted
/// unsigned image keeps the signed order.
pub proof fn lemma_fixed_i32_order(x: Option<i32>, y: Option<i32>, opt: RowEncodingOptions)
    requires
        !opt.unordered,
    ensures
        lex_cmp(fixed_block_i32(x, opt), fixed_block_i32(y, opt)) == fixed_value_cmp_i32(
            x,
            y,
            opt,
        ),
{
    let mx = match x {
        None => None,
        Some(a) => Some(i32_to_ord_u32(a)),
    };
    let my = match y {
        None => None,
        Some(b) => Some(i32_to_ord_u32(b)),
    };
    lemma_fixed_u32_order(mx, my, opt);
    assert(fixed_value_cmp_u32(mx, my, opt) == fixed_value_cmp_i32(x, y, opt));
}

/// Order preservation for one boolean column.
pub proof fn lemma_fixed_bool_order(x: Option<bool>, y: Option<bool>, opt: RowEncodingOptions)
    requires
        !opt.unordered,
    ensures
        lex_cmp(fixed_block_bool(x, opt), fixed_block_bool(y, opt)) == fixed_value_cmp_bool(
            x,
            y,
            opt,
        ),
{
    let ex = fixed_block_bool(x, opt);
    let ey = fixed_block_bool(y, opt);
    assert(ex[0] == maybe_invert(fixed_base_bool(x, opt)[0], opt.descending));
    assert(ey[0] == maybe_invert(fixed_base_bool(y, opt)[0], opt.descending));
    assert(ex[1] == maybe_invert(fixed_base_bool(x, opt)[1], opt.descending));
    assert(ey[1] == maybe_invert(fixed_base_bool(y, opt)[1], opt.descending));
    match (x, y) {
        (None, None) => {
            assert(ex =~= ey);
            lemma_lex_cmp_zero(ex, ey);
        },
        (None, Some(_)) => {
            lemma_lex_cmp_first_diff(ex, ey, 0);
        },
        (Some(_), None) => {
            lemma_lex_cmp_first_diff(ex, ey, 0);
        },
        (Some(a), Some(b)) => {
            if a == b {
                assert(ex =~= ey);
                lemma_lex_cmp_zero(ex, ey);
            } else {
                assert(ex[0] == ey[0]);
                assert(ex[1] != ey[1]);
                lemma_lex_cmp_first_diff(ex, ey, 1);
            }
        },
    }
}

} // verus!
