//! General numeric order: decimal numbers with an optional exponent, infinities and
//! NaN, compared exactly (without floating point).
use vstd::prelude::*;
use std::cmp::Ordering;
use crate::keys::int_cmp;
use crate::simd_compare::{compare_bytes, flip, fold_byte, is_digit_byte, lex_cmp};
use crate::zero_copy::{
    blank_end, compare_fractional_parts, dec_value, digit_end, extract_sign, frac_cmp,
    lemma_blank_end, lemma_dec_value_grows, lemma_digit_end, num_digits_lo, num_frac_hi,
    num_frac_lo, num_int_hi, num_sign_minus, num_valid, skip_digits, skip_leading_zeros,
    skip_whitespace, zero_end,
};

verus! {

/// Exponents are read up to this magnitude; larger ones count as this one.
pub const EXPONENT_CAP: u64 = 1000000000000;

/// The lower-case ASCII word `w` stands at `p`, letters in either case.
pub open spec fn word_at(s: Seq<u8>, p: int, w: Seq<u8>) -> bool {
    0 <= p && p + w.len() <= s.len() && forall|k: int| 0 <= k < w.len() ==> fold_byte(#[trigger] s[p + k]) == w[k]
}

pub open spec fn word_inf() -> Seq<u8> {
    seq![105u8, 110u8, 102u8]
}

pub open spec fn word_nan() -> Seq<u8> {
    seq![110u8, 97u8, 110u8]
}

/// Where the exponent's digits start, if `e` or `E` and digits (after an optional
/// sign) follow the mantissa.
pub open spec fn exp_digits_lo(s: Seq<u8>) -> int {
    let m = num_frac_hi(s);
    let q = if m + 1 < s.len() && (s[m + 1] == 45 || s[m + 1] == 43) { m + 2 } else { m + 1 };
    q
}

pub open spec fn has_exponent(s: Seq<u8>) -> bool {
    let m = num_frac_hi(s);
    let q = exp_digits_lo(s);
    0 <= m < s.len() && (s[m] == 101 || s[m] == 69) && q < s.len() && is_digit_byte(s[q])
}

/// The exponent, its magnitude capped.
pub open spec fn exponent(s: Seq<u8>) -> int {
    if has_exponent(s) {
        let m = num_frac_hi(s);
        let q = exp_digits_lo(s);
        let v = dec_value(s, q, digit_end(s, q));
        let capped = if v > EXPONENT_CAP { EXPONENT_CAP as int } else { v };
        if s[m + 1] == 45 { -capped } else { capped }
    } else {
        0
    }
}

/// 0: no number, or minus infinity; 1: a finite number; 2: plus infinity; 3: NaN.
pub open spec fn general_class(s: Seq<u8>) -> int {
    if num_valid(s) {
        1
    } else if word_at(s, num_digits_lo(s), word_inf()) {
        if num_sign_minus(s) { 0 } else { 2 }
    } else if word_at(s, num_digits_lo(s), word_nan()) {
        3
    } else {
        0
    }
}

/// The mantissa's digits, integer part then fraction.
pub open spec fn mantissa_digits(s: Seq<u8>) -> Seq<u8> {
    s.subrange(num_digits_lo(s), num_int_hi(s)) + s.subrange(num_frac_lo(s), num_frac_hi(s))
}

/// Position of the first significant digit of the mantissa.
pub open spec fn first_significant(s: Seq<u8>) -> int {
    zero_end(mantissa_digits(s), 0, mantissa_digits(s).len() as int)
}

pub open spec fn general_zero(s: Seq<u8>) -> bool {
    first_significant(s) == mantissa_digits(s).len()
}

/// The power of ten of the first significant digit (plus one).
pub open spec fn adjusted_exponent(s: Seq<u8>) -> int {
    (num_int_hi(s) - num_digits_lo(s)) - first_significant(s) + exponent(s)
}

pub open spec fn general_negative(s: Seq<u8>) -> bool {
    num_sign_minus(s) && !general_zero(s)
}

/// Order of the absolute values of two finite numbers.
pub open spec fn general_magnitude(a: Seq<u8>, b: Seq<u8>) -> Ordering {
    if general_zero(a) && general_zero(b) {
        Ordering::Equal
    } else if general_zero(a) {
        Ordering::Less
    } else if general_zero(b) {
        Ordering::Greater
    } else {
        match int_cmp(adjusted_exponent(a), adjusted_exponent(b)) {
            Ordering::Equal => frac_cmp(
                mantissa_digits(a),
                first_significant(a),
                mantissa_digits(a).len() as int,
                mantissa_digits(b),
                first_significant(b),
                mantissa_digits(b).len() as int,
                0,
            ),
            o => o,
        }
    }
}

/// Order of two finite numbers.
pub open spec fn finite_cmp(a: Seq<u8>, b: Seq<u8>) -> Ordering {
    if general_negative(a) && !general_negative(b) {
        Ordering::Less
    } else if !general_negative(a) && general_negative(b) {
        Ordering::Greater
    } else if general_negative(a) {
        flip(general_magnitude(a, b))
    } else {
        general_magnitude(a, b)
    }
}

/// General numeric order: no number and minus infinity first, then finite numbers by
/// value, then plus infinity, then NaN; ties go by byte order.
pub open spec fn general_cmp(a: Seq<u8>, b: Seq<u8>) -> Ordering {
    let v = match int_cmp(general_class(a), general_class(b)) {
        Ordering::Equal => if general_class(a) == 1 { finite_cmp(a, b) } else { Ordering::Equal },
        o => o,
    };
    match v {
        Ordering::Equal => lex_cmp(a, b),
        o => o,
    }
}


/// What the general comparison reads of a record.
pub struct GeneralParts {
    pub class: u8,
    pub minus: bool,
    pub digits: Vec<u8>,
    pub first: usize,
    pub zero: bool,
    pub adjusted: i128,
}

pub open spec fn general_parts_of(s: Seq<u8>, p: GeneralParts) -> bool {
    &&& p.class as int == general_class(s)
    &&& p.minus == num_sign_minus(s)
    &&& p.digits@ == mantissa_digits(s)
    &&& p.first == first_significant(s)
    &&& p.first <= p.digits@.len()
    &&& p.zero == general_zero(s)
    &&& p.adjusted == adjusted_exponent(s)
}

/// Whether the three-letter lower-case word `w0 w1 w2` stands at `p`, in either case.
fn word_at_exec(s: &[u8], p: usize, w0: u8, w1: u8, w2: u8) -> (r: bool)
    ensures
        r == word_at(s@, p as int, seq![w0, w1, w2]),
{
    if p >= s.len() || s.len() - p < 3 {
        return false;
    }
    let r = crate::simd_compare::to_lower_byte(s[p]) == w0 && crate::simd_compare::to_lower_byte(s[p + 1]) == w1
        && crate::simd_compare::to_lower_byte(s[p + 2]) == w2;
    proof {
        let w = seq![w0, w1, w2];
        if r {
            assert forall|k: int| 0 <= k < w.len() implies fold_byte(#[trigger] s@[p + k]) == w[k] by {
                if k == 0 {
                } else if k == 1 {
                } else {
                }
            }
        } else {
            if word_at(s@, p as int, w) {
                assert(fold_byte(s@[p + 0]) == w[0]);
                assert(fold_byte(s@[p + 1]) == w[1]);
                assert(fold_byte(s@[p + 2]) == w[2]);
            }
        }
    }
    r
}

proof fn lemma_digit_run_bytes(s: Seq<u8>, q: int)
    requires
        0 <= q <= s.len(),
    ensures
        forall|k: int| q <= k < digit_end(s, q) ==> is_digit_byte(#[trigger] s[k]),
    decreases s.len() - q,
{
    if q < s.len() && is_digit_byte(s[q]) {
        lemma_digit_run_bytes(s, q + 1);
    }
}

/// The exponent after the mantissa that ends at `m`.
fn exponent_exec(s: &[u8], m: usize) -> (r: i64)
    requires
        m == num_frac_hi(s@),
        m <= s@.len(),
    ensures
        r as int == exponent(s@),
{
    if !(m < s.len() && (s[m] == 101 || s[m] == 69)) {
        return 0;
    }
    let minus = m + 1 < s.len() && s[m + 1] == 45;
    let q: usize = if m + 1 < s.len() && (s[m + 1] == 45 || s[m + 1] == 43) {
        m + 2
    } else {
        m + 1
    };
    if !(q < s.len() && 48 <= s[q] && s[q] <= 57) {
        return 0;
    }
    proof {
        lemma_digit_end(s@, q + 1);
        lemma_digit_run_bytes(s@, q as int);
    }
    let e = skip_digits(s, q);
    let mut acc: u64 = 0;
    let mut i = q;
    while i < e
        invariant
            q <= i <= e <= s@.len(),
            e == digit_end(s@, q as int),
            forall|k: int| q <= k < e ==> is_digit_byte(#[trigger] s@[k]),
            acc as int == if dec_value(s@, q as int, i as int) > EXPONENT_CAP {
                EXPONENT_CAP as int
            } else {
                dec_value(s@, q as int, i as int)
            },
            dec_value(s@, q as int, i as int) >= 0,
        decreases e - i,
    {
        proof {
            lemma_dec_value_grows(s@, q as int, i as int);
        }
        let d = (s[i] - 48) as u64;
        if acc >= EXPONENT_CAP {
            acc = EXPONENT_CAP;
        } else {
            acc = acc * 10 + d;
            if acc > EXPONENT_CAP {
                acc = EXPONENT_CAP;
            }
        }
        i = i + 1;
    }
    if minus {
        -(acc as i64)
    } else {
        acc as i64
    }
}

/// Reads the general numeric layout of a record.
pub fn general_parts(s: &[u8]) -> (r: GeneralParts)
    ensures
        general_parts_of(s@, r),
{
    proof {
        lemma_blank_end(s@, 0);
    }
    let p = skip_whitespace(s, 0);
    let (minus, lo) = extract_sign(s, p);
    let int_hi = skip_digits(s, lo);
    let has_frac = int_hi < s.len() && s[int_hi] == 46;
    let (frac_lo, frac_hi) = if has_frac {
        let e = skip_digits(s, int_hi + 1);
        (int_hi + 1, e)
    } else {
        (int_hi, int_hi)
    };
    assert(lo == num_digits_lo(s@) && int_hi == num_int_hi(s@));
    assert(frac_lo == num_frac_lo(s@) && frac_hi == num_frac_hi(s@));
    let valid = int_hi > lo || frac_hi > frac_lo;
    let mut digits: Vec<u8> = Vec::new();
    let mut k = lo;
    while k < int_hi
        invariant
            lo <= k <= int_hi <= s@.len(),
            digits@ == s@.subrange(lo as int, k as int),
        decreases int_hi - k,
    {
        digits.push(s[k]);
        k = k + 1;
        assert(digits@ =~= s@.subrange(lo as int, k as int));
    }
    let ghost int_part = digits@;
    let mut k = frac_lo;
    while k < frac_hi
        invariant
            frac_lo <= k <= frac_hi <= s@.len(),
            digits@ == int_part + s@.subrange(frac_lo as int, k as int),
        decreases frac_hi - k,
    {
        digits.push(s[k]);
        k = k + 1;
        assert(digits@ =~= int_part + s@.subrange(frac_lo as int, k as int));
    }
    assert(digits@ == mantissa_digits(s@));
    let first = skip_leading_zeros(digits.as_slice(), 0, digits.len());
    let zero = first == digits.len();
    let exp = exponent_exec(s, frac_hi);
    let adjusted: i128 = (int_hi - lo) as i128 - first as i128 + exp as i128;
    let class: u8 = if valid {
        1
    } else if word_at_exec(s, lo, 105, 110, 102) {
        if minus {
            0
        } else {
            2
        }
    } else if word_at_exec(s, lo, 110, 97, 110) {
        3
    } else {
        0
    };
    GeneralParts { class, minus, digits, first, zero, adjusted }
}

/// General numeric order of two records.
pub fn compare_general(a: &[u8], b: &[u8]) -> (r: Ordering)
    ensures
        r == general_cmp(a@, b@),
{
    let pa = general_parts(a);
    let pb = general_parts(b);
    let v = if pa.class < pb.class {
        Ordering::Less
    } else if pa.class > pb.class {
        Ordering::Greater
    } else if pa.class == 1 {
        let na = pa.minus && !pa.zero;
        let nb = pb.minus && !pb.zero;
        if na && !nb {
            Ordering::Less
        } else if !na && nb {
            Ordering::Greater
        } else {
            let m = if pa.zero && pb.zero {
                Ordering::Equal
            } else if pa.zero {
                Ordering::Less
            } else if pb.zero {
                Ordering::Greater
            } else if pa.adjusted < pb.adjusted {
                Ordering::Less
            } else if pa.adjusted > pb.adjusted {
                Ordering::Greater
            } else {
                compare_fractional_parts(
                    pa.digits.as_slice(),
                    pa.first,
                    pa.digits.len(),
                    pb.digits.as_slice(),
                    pb.first,
                    pb.digits.len(),
                )
            };
            if na {
                match m {
                    Ordering::Less => Ordering::Greater,
                    Ordering::Greater => Ordering::Less,
                    Ordering::Equal => Ordering::Equal,
                }
            } else {
                m
            }
        }
    } else {
        Ordering::Equal
    };
    match v {
        Ordering::Equal => compare_bytes(a, b),
        _ => v,
    }
}


pub proof fn lemma_zero_end_le(s: Seq<u8>, i: int, hi: int)
    requires
        0 <= i <= hi,
    ensures
        i <= zero_end(s, i, hi) <= hi,
    decreases hi - i,
{
    if i < hi && i < s.len() && s[i] == 48 {
        lemma_zero_end_le(s, i + 1, hi);
    }
}

/// Swapping the arguments of the general numeric order flips its outcome.
pub proof fn lemma_general_cmp_antisym(a: Seq<u8>, b: Seq<u8>)
    ensures
        general_cmp(b, a) == flip(general_cmp(a, b)),
{
    let (ga, gb) = (mantissa_digits(a), mantissa_digits(b));
    lemma_zero_end_le(ga, 0, ga.len() as int);
    lemma_zero_end_le(gb, 0, gb.len() as int);
    crate::zero_copy::lemma_frac_cmp_antisym(ga, first_significant(a), ga.len() as int, gb, first_significant(b), gb.len() as int, 0);
    crate::simd_compare::lemma_lex_cmp_antisym(a, b, 0);
}

} // verus!
