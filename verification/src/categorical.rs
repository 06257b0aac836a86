//! Categorical decoding: interning decoded strings into a dictionary.
//!
//! Instead of materialising each decoded string, the categorical decoder
//! inserts it into a dictionary mapping distinct strings to dense small
//! integer codes, and emits the code. Null handling uses a zero code plus a
//! validity bitmap, promoted lazily exactly as the string decoder does. The
//! only non-local failure is exhaustion of the code space.

use vstd::prelude::*;

use crate::error::DecodeError;
use crate::options::RowEncodingOptions;
use crate::varlen::{bytes_eq, decode_varlen_item};
use crate::decode::{all_rows_decode, dec_vals, row_dec};

verus! {

/// Index of the first entry equal to `s`, if any.
pub open spec fn dict_find(d: Seq<Seq<u8>>, s: Seq<u8>) -> Option<int>
    decreases d.len(),
{
    if d.len() == 0 {
        None
    } else if d[0] == s {
        Some(0int)
    } else {
        match dict_find(d.skip(1), s) {
            Some(i) => Some(i + 1),
            None => None,
        }
    }
}

/// The dictionary after interning `s`: unchanged when present, else with
/// `s` appended.
pub open spec fn dict_after_insert(d: Seq<Seq<u8>>, s: Seq<u8>) -> Seq<Seq<u8>> {
    if dict_find(d, s) is Some {
        d
    } else {
        d.push(s)
    }
}

/// The code interning `s` yields: its index when present, else the next
/// free one.
pub open spec fn dict_code(d: Seq<Seq<u8>>, s: Seq<u8>) -> int {
    match dict_find(d, s) {
        Some(i) => i,
        None => d.len() as int,
    }
}

/// The dictionary after interning every non-null value in order.
pub open spec fn intern_fold(d: Seq<Seq<u8>>, vals: Seq<Option<Seq<u8>>>) -> Seq<Seq<u8>>
    decreases vals.len(),
{
    if vals.len() == 0 {
        d
    } else {
        let d1 = match vals[0] {
            None => d,
            Some(s) => dict_after_insert(d, s),
        };
        intern_fold(d1, vals.skip(1))
    }
}

/// The codes interning every value in order yields; a null yields zero.
pub open spec fn intern_codes(d: Seq<Seq<u8>>, vals: Seq<Option<Seq<u8>>>) -> Seq<int>
    decreases vals.len(),
{
    if vals.len() == 0 {
        Seq::empty()
    } else {
        match vals[0] {
            None => seq![0int] + intern_codes(d, vals.skip(1)),
            Some(s) => seq![dict_code(d, s)] + intern_codes(
                dict_after_insert(d, s),
                vals.skip(1),
            ),
        }
    }
}

/// Interning one more value at the end steps the fold once.
pub proof fn lemma_intern_fold_snoc(d: Seq<Seq<u8>>, vals: Seq<Option<Seq<u8>>>, v: Option<Seq<u8>>)
    ensures
        intern_fold(d, vals.push(v)) == (match v {
            None => intern_fold(d, vals),
            Some(s) => dict_after_insert(intern_fold(d, vals), s),
        }),
    decreases vals.len(),
{
    reveal_with_fuel(intern_fold, 3);
    if vals.len() == 0 {
        assert(vals.push(v)[0] == v);
        assert(vals.push(v).skip(1) =~= Seq::<Option<Seq<u8>>>::empty());
    } else {
        assert(vals.push(v)[0] == vals[0]);
        assert(vals.push(v).skip(1) =~= vals.skip(1).push(v));
        let d1 = match vals[0] {
            None => d,
            Some(s) => dict_after_insert(d, s),
        };
        lemma_intern_fold_snoc(d1, vals.skip(1), v);
    }
}

/// The code sequence of one more value is the previous codes plus the code
/// the then-current dictionary gives it.
pub proof fn lemma_intern_codes_snoc(
    d: Seq<Seq<u8>>,
    vals: Seq<Option<Seq<u8>>>,
    v: Option<Seq<u8>>,
)
    ensures
        intern_codes(d, vals.push(v)) == intern_codes(d, vals).push(
            match v {
                None => 0int,
                Some(s) => dict_code(intern_fold(d, vals), s),
            },
        ),
    decreases vals.len(),
{
    reveal_with_fuel(intern_codes, 3);
    reveal_with_fuel(intern_fold, 3);
    if vals.len() == 0 {
        assert(vals.push(v)[0] == v);
        assert(vals.push(v).skip(1) =~= Seq::<Option<Seq<u8>>>::empty());
        match v {
            None => {
                assert(seq![0int] + Seq::<int>::empty() =~= Seq::<int>::empty().push(0int));
            },
            Some(s) => {
                assert(seq![dict_code(d, s)] + Seq::<int>::empty() =~= Seq::<int>::empty().push(
                    dict_code(d, s),
                ));
            },
        }
    } else {
        assert(vals.push(v)[0] == vals[0]);
        assert(vals.push(v).skip(1) =~= vals.skip(1).push(v));
        let d1 = match vals[0] {
            None => d,
            Some(s) => dict_after_insert(d, s),
        };
        lemma_intern_codes_snoc(d1, vals.skip(1), v);
        let head = match vals[0] {
            None => 0int,
            Some(s) => dict_code(d, s),
        };
        let tail_codes = intern_codes(d1, vals.skip(1));
        let last = match v {
            None => 0int,
            Some(s) => dict_code(intern_fold(d1, vals.skip(1)), s),
        };
        assert(seq![head] + tail_codes.push(last) =~= (seq![head] + tail_codes).push(last));
    }
}

/// `dict_find` reports the first hit: no earlier entry matches and the hit
/// matches.
proof fn lemma_dict_find_hit(d: Seq<Seq<u8>>, s: Seq<u8>, k: int)
    requires
        0 <= k < d.len(),
        d[k] == s,
        forall|j: int| 0 <= j < k ==> d[j] != s,
    ensures
        dict_find(d, s) == Some(k),
    decreases k,
{
    if k == 0 {
    } else {
        assert(d[0] != s);
        assert(forall|j: int| 0 <= j < k - 1 ==> d.skip(1)[j] == d[j + 1]);
        lemma_dict_find_hit(d.skip(1), s, k - 1);
    }
}

/// When no entry matches, `dict_find` reports a miss.
proof fn lemma_dict_find_miss(d: Seq<Seq<u8>>, s: Seq<u8>)
    requires
        forall|j: int| 0 <= j < d.len() ==> d[j] != s,
    ensures
        dict_find(d, s) is None,
    decreases d.len(),
{
    if d.len() > 0 {
        lemma_dict_find_miss(d.skip(1), s);
    }
}

/// A dictionary mapping distinct byte strings to dense integer codes: the
/// code of an entry is its index. Interned strings live for the dictionary's
/// lifetime.
pub struct CategoricalDict {
    pub entries: Vec<Vec<u8>>,
}

impl CategoricalDict {
    /// Entries are pairwise distinct, and every code fits the physical type.
    pub open spec fn wf(&self) -> bool {
        &&& forall|i: int, j: int|
            0 <= i < j < self.entries@.len() ==> self.entries@[i]@ != self.entries@[j]@
        &&& self.entries@.len() <= u32::MAX
    }

    /// The dictionary as the sequence of its interned strings, in code
    /// order.
    pub open spec fn view(&self) -> Seq<Seq<u8>> {
        Seq::new(self.entries@.len(), |i: int| self.entries@[i]@)
    }

    /// An empty dictionary.
    pub fn new() -> (r: Self)
        ensures
            r.wf(),
            r@ =~= Seq::<Seq<u8>>::empty(),
    {
        CategoricalDict { entries: Vec::new() }
    }

    /// Number of interned strings.
    pub fn len(&self) -> (r: usize)
        ensures
            r == self@.len(),
    {
        self.entries.len()
    }

    /// The string behind a code.
    pub fn value_of(&self, code: usize) -> (r: &Vec<u8>)
        requires
            code < self@.len(),
        ensures
            r@ == self@[code as int],
    {
        &self.entries[code]
    }

    /// Interns `s`: the code of the entry equal to it, or the next free
    /// code after appending it. Fails only when the code space is exhausted,
    /// and then changes nothing.
    pub fn insert_cat(&mut self, s: &Vec<u8>) -> (r: Result<u32, DecodeError>)
        requires
            old(self).wf(),
        ensures
            final(self).wf(),
            match dict_find(old(self)@, s@) {
                Some(c) => r == Ok::<u32, DecodeError>(c as u32) && final(self)@ == old(self)@,
                None => if old(self)@.len() < u32::MAX {
                    r == Ok::<u32, DecodeError>(old(self)@.len() as u32) && final(self)@ == old(
                        self,
                    )@.push(s@)
                } else {
                    r == Err::<u32, DecodeError>(DecodeError::CodeSpaceExhausted) && final(self)@
                        == old(self)@
                },
            },
            r matches Ok(c) ==> c == dict_code(old(self)@, s@) && final(self)@ == dict_after_insert(
                old(self)@,
                s@,
            ),
    {
        let ghost d0 = self@;
        let n = self.entries.len();
        let mut i: usize = 0;
        while i < n
            invariant
                self == old(self),
                old(self).wf(),
                d0 == self@,
                n == self.entries@.len(),
                i <= n,
                forall|j: int| 0 <= j < i ==> d0[j] != s@,
            decreases n - i,
        {
            if bytes_eq(&self.entries[i], s) {
                proof {
                    lemma_dict_find_hit(d0, s@, i as int);
                }
                return Ok(i as u32);
            }
            i = i + 1;
        }
        proof {
            lemma_dict_find_miss(d0, s@);
        }
        if n >= 0xFFFF_FFFFusize {
            return Err(DecodeError::CodeSpaceExhausted);
        }
        let copy = clone_bytes(s);
        self.entries.push(copy);
        proof {
            assert(self@ =~= d0.push(s@));
            assert forall|a: int, b: int|
                0 <= a < b < self.entries@.len() implies self.entries@[a]@ != self.entries@[b]@ by {
                if b == self.entries@.len() - 1 {
                    assert(self.entries@[a]@ == d0[a]);
                    assert(d0[a] != s@);
                } else {
                    assert(self.entries@[a]@ == d0[a]);
                    assert(self.entries@[b]@ == d0[b]);
                }
            }
        }
        Ok(n as u32)
    }
}

/// A copy of the given bytes.
fn clone_bytes(s: &Vec<u8>) -> (r: Vec<u8>)
    ensures
        r@ == s@,
{
    let mut out: Vec<u8> = Vec::new();
    let n = s.len();
    let mut i: usize = 0;
    while i < n
        invariant
            n == s@.len(),
            out@.len() == i,
            i <= n,
            forall|j: int| 0 <= j < i ==> out@[j] == s@[j],
        decreases n - i,
    {
        out.push(s[i]);
        i = i + 1;
    }
    proof {
        assert(out@ =~= s@);
    }
    out
}


/// One code per value.
pub proof fn lemma_intern_codes_len(d: Seq<Seq<u8>>, vals: Seq<Option<Seq<u8>>>)
    ensures
        intern_codes(d, vals).len() == vals.len(),
    decreases vals.len(),
{
    if vals.len() > 0 {
        match vals[0] {
            None => {
                lemma_intern_codes_len(d, vals.skip(1));
            },
            Some(s) => {
                lemma_intern_codes_len(dict_after_insert(d, s), vals.skip(1));
            },
        }
    }
}

/// Interning a concatenation folds the first part, then the second.
pub proof fn lemma_intern_fold_app(d: Seq<Seq<u8>>, a: Seq<Option<Seq<u8>>>, b: Seq<Option<Seq<u8>>>)
    ensures
        intern_fold(d, a + b) == intern_fold(intern_fold(d, a), b),
    decreases a.len(),
{
    if a.len() == 0 {
        assert(a + b =~= b);
    } else {
        assert((a + b)[0] == a[0]);
        assert((a + b).skip(1) =~= a.skip(1) + b);
        let d1 = match a[0] {
            None => d,
            Some(s) => dict_after_insert(d, s),
        };
        lemma_intern_fold_app(d1, a.skip(1), b);
    }
}

/// Interning never shrinks the dictionary.
pub proof fn lemma_intern_fold_grows(d: Seq<Seq<u8>>, vals: Seq<Option<Seq<u8>>>)
    ensures
        intern_fold(d, vals).len() >= d.len(),
    decreases vals.len(),
{
    if vals.len() > 0 {
        let d1 = match vals[0] {
            None => d,
            Some(s) => dict_after_insert(d, s),
        };
        lemma_intern_fold_grows(d1, vals.skip(1));
    }
}

/// Category codes with an optional validity bitmap, in the same shape as
/// the binary-view array: without a bitmap every code is valid, with one,
/// rows whose bit is false are null and hold the zero code.
#[derive(Debug)]
pub struct CategoricalArray {
    pub codes: Vec<u32>,
    pub validity: Option<Vec<bool>>,
}

impl CategoricalArray {
    /// A bitmap, when present, has one bit per code.
    pub open spec fn wf(&self) -> bool {
        match self.validity {
            None => true,
            Some(v) => v@.len() == self.codes@.len(),
        }
    }

    /// The code of row `i`: `None` where the bitmap marks it null.
    pub open spec fn spec_code_at(&self, i: int) -> Option<u32> {
        match self.validity {
            None => Some(self.codes@[i]),
            Some(v) => if v@[i] {
                Some(self.codes@[i])
            } else {
                None
            },
        }
    }

    /// The array as the sequence of optional codes it holds.
    pub open spec fn view(&self) -> Seq<Option<u32>> {
        Seq::new(self.codes@.len(), |i: int| self.spec_code_at(i))
    }
}

/// Decodes one variable-length value from every row as the string decoder
/// does, but interns each decoded string into `dict` and emits its category
/// code; a null row emits the zero code and a false validity bit. Succeeds
/// exactly when every row starts with a well-formed value and the final
/// dictionary stays within the code space; the codes then follow
/// `intern_codes` and the dictionary ends as `intern_fold` says.
pub fn decode_str_as_cat(
    rows: &Vec<Vec<u8>>,
    pos: &mut Vec<usize>,
    opt: RowEncodingOptions,
    dict: &mut CategoricalDict,
) -> (r: Result<CategoricalArray, DecodeError>)
    requires
        old(pos)@.len() == rows@.len(),
        forall|i: int| 0 <= i < rows@.len() ==> old(pos)@[i] <= rows@[i]@.len(),
        old(dict).wf(),
    ensures
        final(pos)@.len() == rows@.len(),
        final(dict).wf(),
        r is Ok <==> (all_rows_decode(rows@, old(pos)@, opt) && intern_fold(
            old(dict)@,
            dec_vals(rows@, old(pos)@, opt, rows@.len() as int),
        ).len() <= u32::MAX),
        r matches Ok(arr) ==> (arr.validity is None <==> forall|i: int|
            0 <= i < rows@.len() ==> row_dec(rows@, old(pos)@, opt, i).unwrap().0 is Some),
        r matches Ok(arr) ==> ({
            let vals = dec_vals(rows@, old(pos)@, opt, rows@.len() as int);
            &&& arr.wf()
            &&& arr@.len() == rows@.len()
            &&& final(dict)@ == intern_fold(old(dict)@, vals)
            &&& forall|i: int|
                0 <= i < rows@.len() ==> #[trigger] arr.codes@[i] as int == intern_codes(
                    old(dict)@,
                    vals,
                )[i]
            &&& forall|i: int|
                0 <= i < rows@.len() ==> (#[trigger] arr@[i] is Some) == (row_dec(
                    rows@,
                    old(pos)@,
                    opt,
                    i,
                ).unwrap().0 is Some)
            &&& forall|i: int|
                0 <= i < rows@.len() ==> #[trigger] final(pos)@[i] == old(pos)@[i] + row_dec(
                    rows@,
                    old(pos)@,
                    opt,
                    i,
                ).unwrap().1
        }),
        r matches Err(e) ==> (e == DecodeError::CodeSpaceExhausted || exists|i: int|
            0 <= i < rows@.len() && #[trigger] row_dec(rows@, old(pos)@, opt, i) == Err::<
                (Option<Seq<u8>>, int),
                DecodeError,
            >(e)),
{
    let ghost pos0 = old(pos)@;
    let ghost d0 = old(dict)@;
    let n = rows.len();
    let ghost full = dec_vals(rows@, pos0, opt, n as int);
    let mut codes: Vec<u32> = Vec::new();
    let mut i: usize = 0;
    while i < n
        invariant_except_break
            n == rows@.len(),
            pos0 == old(pos)@,
            d0 == old(dict)@,
            full == dec_vals(rows@, pos0, opt, n as int),
            pos@.len() == n,
            pos0.len() == n,
            i <= n,
            codes@.len() == i,
            dict.wf(),
            dict@ == intern_fold(d0, dec_vals(rows@, pos0, opt, i as int)),
            forall|j: int| 0 <= j < n ==> pos0[j] <= rows@[j]@.len(),
            forall|j: int| i <= j < n ==> pos@[j] == pos0[j],
            forall|j: int|
                0 <= j < i ==> #[trigger] row_dec(rows@, pos0, opt, j) is Ok && row_dec(
                    rows@,
                    pos0,
                    opt,
                    j,
                ).unwrap().0 is Some && pos@[j] == pos0[j] + row_dec(
                    rows@,
                    pos0,
                    opt,
                    j,
                ).unwrap().1,
            forall|j: int|
                0 <= j < i ==> #[trigger] codes@[j] as int == intern_codes(
                    d0,
                    dec_vals(rows@, pos0, opt, i as int),
                )[j],
        ensures
            n == rows@.len(),
            pos0 == old(pos)@,
            d0 == old(dict)@,
            full == dec_vals(rows@, pos0, opt, n as int),
            pos@.len() == n,
            pos0.len() == n,
            codes@.len() <= n,
            dict.wf(),
            dict@ == intern_fold(d0, dec_vals(rows@, pos0, opt, codes@.len() as int)),
            forall|j: int| 0 <= j < n ==> pos0[j] <= rows@[j]@.len(),
            forall|j: int| (codes@.len() as int) < j < n ==> pos@[j] == pos0[j],
            forall|j: int|
                0 <= j < codes@.len() ==> #[trigger] row_dec(rows@, pos0, opt, j) is Ok && row_dec(
                    rows@,
                    pos0,
                    opt,
                    j,
                ).unwrap().0 is Some && pos@[j] == pos0[j] + row_dec(
                    rows@,
                    pos0,
                    opt,
                    j,
                ).unwrap().1,
            forall|j: int|
                0 <= j < codes@.len() ==> #[trigger] codes@[j] as int == intern_codes(
                    d0,
                    dec_vals(rows@, pos0, opt, codes@.len() as int),
                )[j],
            codes@.len() < n ==> row_dec(rows@, pos0, opt, codes@.len() as int) == Ok::<
                (Option<Seq<u8>>, int),
                DecodeError,
            >((None, 1)) && pos@[codes@.len() as int] == pos0[codes@.len() as int] + 1,
        decreases n - i,
    {
        let p = pos[i];
        let _rlen = rows[i].len();
        proof {
            assert(pos@[i as int] == pos0[i as int]);
            assert(pos0[i as int] <= rows@[i as int]@.len());
        }
        let ghost pfx = dec_vals(rows@, pos0, opt, i as int);
        match decode_varlen_item(&rows[i], p, opt) {
            Err(e) => {
                proof {
                    assert(row_dec(rows@, pos0, opt, i as int) == Err::<
                        (Option<Seq<u8>>, int),
                        DecodeError,
                    >(e));
                }
                return Err(e);
            },
            Ok((val, c)) => {
                pos[i] = p + c;
                proof {
                    lemma_intern_codes_len(d0, pfx);
                    assert(dec_vals(rows@, pos0, opt, i + 1) =~= pfx.push(
                        row_dec(rows@, pos0, opt, i as int).unwrap().0,
                    ));
                    lemma_intern_fold_snoc(
                        d0,
                        pfx,
                        row_dec(rows@, pos0, opt, i as int).unwrap().0,
                    );
                    lemma_intern_codes_snoc(
                        d0,
                        pfx,
                        row_dec(rows@, pos0, opt, i as int).unwrap().0,
                    );
                }
                match val {
                    Some(v) => {
                        match dict.insert_cat(&v) {
                            Err(_) => {
                                proof {
                                    let pfx1 = dec_vals(rows@, pos0, opt, i + 1);
                                    let rest = full.skip(i + 1);
                                    assert(full =~= pfx1 + rest);
                                    lemma_intern_fold_app(d0, pfx1, rest);
                                    lemma_intern_fold_grows(intern_fold(d0, pfx1), rest);
                                }
                                return Err(DecodeError::CodeSpaceExhausted);
                            },
                            Ok(code) => {
                                codes.push(code);
                            },
                        }
                    },
                    None => {
                        break;
                    },
                }
            },
        }
        i = i + 1;
    }
    let k = codes.len();
    if k == n {
        proof {
            assert(full =~= dec_vals(rows@, pos0, opt, k as int));
        }
        return Ok(CategoricalArray { codes, validity: None });
    }
    let mut validity: Vec<bool> = Vec::new();
    let mut t: usize = 0;
    while t < k
        invariant
            t <= k,
            validity@.len() == t,
            forall|j: int| 0 <= j < t ==> validity@[j],
        decreases k - t,
    {
        validity.push(true);
        t = t + 1;
    }
    validity.push(false);
    codes.push(0);
    proof {
        lemma_intern_codes_len(d0, dec_vals(rows@, pos0, opt, k as int));
        assert(dec_vals(rows@, pos0, opt, k + 1) =~= dec_vals(rows@, pos0, opt, k as int).push(
            row_dec(rows@, pos0, opt, k as int).unwrap().0,
        ));
        lemma_intern_fold_snoc(
            d0,
            dec_vals(rows@, pos0, opt, k as int),
            row_dec(rows@, pos0, opt, k as int).unwrap().0,
        );
        lemma_intern_codes_snoc(
            d0,
            dec_vals(rows@, pos0, opt, k as int),
            row_dec(rows@, pos0, opt, k as int).unwrap().0,
        );
    }
    let mut i2: usize = k + 1;
    while i2 < n
        invariant
            n == rows@.len(),
            pos0 == old(pos)@,
            d0 == old(dict)@,
            full == dec_vals(rows@, pos0, opt, n as int),
            pos@.len() == n,
            pos0.len() == n,
            k < i2 <= n,
            codes@.len() == i2,
            validity@.len() == i2,
            dict.wf(),
            dict@ == intern_fold(d0, dec_vals(rows@, pos0, opt, i2 as int)),
            forall|j: int| 0 <= j < n ==> pos0[j] <= rows@[j]@.len(),
            forall|j: int| i2 <= j < n ==> pos@[j] == pos0[j],
            forall|j: int|
                0 <= j < i2 ==> #[trigger] row_dec(rows@, pos0, opt, j) is Ok && pos@[j] == pos0[j]
                    + row_dec(rows@, pos0, opt, j).unwrap().1 && validity@[j] == (row_dec(
                    rows@,
                    pos0,
                    opt,
                    j,
                ).unwrap().0 is Some),
            forall|j: int|
                0 <= j < i2 ==> #[trigger] codes@[j] as int == intern_codes(
                    d0,
                    dec_vals(rows@, pos0, opt, i2 as int),
                )[j],
        decreases n - i2,
    {
        let p = pos[i2];
        let _rlen = rows[i2].len();
        proof {
            assert(pos@[i2 as int] == pos0[i2 as int]);
            assert(pos0[i2 as int] <= rows@[i2 as int]@.len());
        }
        let ghost pfx = dec_vals(rows@, pos0, opt, i2 as int);
        match decode_varlen_item(&rows[i2], p, opt) {
            Err(e) => {
                proof {
                    assert(row_dec(rows@, pos0, opt, i2 as int) == Err::<
                        (Option<Seq<u8>>, int),
                        DecodeError,
                    >(e));
                }
                return Err(e);
            },
            Ok((val, c)) => {
                pos[i2] = p + c;
                proof {
                    lemma_intern_codes_len(d0, pfx);
                    assert(dec_vals(rows@, pos0, opt, i2 + 1) =~= pfx.push(
                        row_dec(rows@, pos0, opt, i2 as int).unwrap().0,
                    ));
                    lemma_intern_fold_snoc(
                        d0,
                        pfx,
                        row_dec(rows@, pos0, opt, i2 as int).unwrap().0,
                    );
                    lemma_intern_codes_snoc(
                        d0,
                        pfx,
                        row_dec(rows@, pos0, opt, i2 as int).unwrap().0,
                    );
                }
                match val {
                    Some(v) => {
                        match dict.insert_cat(&v) {
                            Err(_) => {
                                proof {
                                    let pfx1 = dec_vals(rows@, pos0, opt, i2 + 1);
                                    let rest = full.skip(i2 + 1);
                                    assert(full =~= pfx1 + rest);
                                    lemma_intern_fold_app(d0, pfx1, rest);
                                    lemma_intern_fold_grows(intern_fold(d0, pfx1), rest);
                                }
                                return Err(DecodeError::CodeSpaceExhausted);
                            },
                            Ok(code) => {
                                codes.push(code);
                                validity.push(true);
                            },
                        }
                    },
                    None => {
                        codes.push(0);
                        validity.push(false);
                    },
                }
            },
        }
        i2 = i2 + 1;
    }
    proof {
        assert(full =~= dec_vals(rows@, pos0, opt, i2 as int));
        lemma_intern_codes_len(d0, full);
    }
    Ok(CategoricalArray { codes, validity: Some(validity) })
}

} // verus!
