//! Records as byte strings: splitting input into records, writing them back, and the
//! numeric reading of a record.
use vstd::prelude::*;
use std::cmp::Ordering;
use crate::simd_compare::{
    compare_bytes, compare_folded, flip, fold_bytes, is_digit_byte, lex_cmp,
};

verus! {

// ----- numbers written in decimal: [blanks][sign]digits[.digits] -----

pub open spec fn is_blank(c: u8) -> bool {
    c == 32 || c == 9
}

/// First position at or after `i` that is not a blank.
pub open spec fn blank_end(s: Seq<u8>, i: int) -> int
    decreases s.len() - i,
{
    if 0 <= i < s.len() && is_blank(s[i]) {
        blank_end(s, i + 1)
    } else {
        i
    }
}

/// First position at or after `i` that is not a digit.
pub open spec fn digit_end(s: Seq<u8>, i: int) -> int
    decreases s.len() - i,
{
    if 0 <= i < s.len() && is_digit_byte(s[i]) {
        digit_end(s, i + 1)
    } else {
        i
    }
}

/// First position in `[i, hi)` that is not `0`, or `hi`.
pub open spec fn zero_end(s: Seq<u8>, i: int, hi: int) -> int
    decreases hi - i,
{
    if 0 <= i < hi && i < s.len() && s[i] == 48 {
        zero_end(s, i + 1, hi)
    } else if i < hi {
        i
    } else {
        hi
    }
}

/// Where the digits of the number begin: after blanks and one sign.
pub open spec fn num_digits_lo(s: Seq<u8>) -> int {
    let p = blank_end(s, 0);
    if p < s.len() && (s[p] == 45 || s[p] == 43) {
        p + 1
    } else {
        p
    }
}

pub open spec fn num_sign_minus(s: Seq<u8>) -> bool {
    let p = blank_end(s, 0);
    p < s.len() && s[p] == 45
}

pub open spec fn num_int_hi(s: Seq<u8>) -> int {
    digit_end(s, num_digits_lo(s))
}

pub open spec fn num_has_frac(s: Seq<u8>) -> bool {
    num_int_hi(s) < s.len() && s[num_int_hi(s)] == 46
}

pub open spec fn num_frac_lo(s: Seq<u8>) -> int {
    if num_has_frac(s) {
        num_int_hi(s) + 1
    } else {
        num_int_hi(s)
    }
}

pub open spec fn num_frac_hi(s: Seq<u8>) -> int {
    if num_has_frac(s) {
        digit_end(s, num_int_hi(s) + 1)
    } else {
        num_int_hi(s)
    }
}

/// The record starts with a number (after blanks): at least one digit.
pub open spec fn num_valid(s: Seq<u8>) -> bool {
    num_int_hi(s) > num_digits_lo(s) || num_frac_hi(s) > num_frac_lo(s)
}

/// Start of the integer digits without leading zeros.
pub open spec fn num_sig_lo(s: Seq<u8>) -> int {
    zero_end(s, num_digits_lo(s), num_int_hi(s))
}

pub open spec fn all_zeros(s: Seq<u8>, lo: int, hi: int) -> bool {
    forall|k: int| lo <= k < hi ==> s[k] == 48
}

/// The number is zero (so its sign does not count).
pub open spec fn num_is_zero(s: Seq<u8>) -> bool {
    num_sig_lo(s) == num_int_hi(s) && all_zeros(s, num_frac_lo(s), num_frac_hi(s))
}

pub open spec fn num_negative(s: Seq<u8>) -> bool {
    num_sign_minus(s) && !num_is_zero(s)
}

/// Order of the equally long digit strings `a[ai..ai+n]` and `b[bi..bi+n]`.
pub open spec fn seg_cmp(a: Seq<u8>, ai: int, b: Seq<u8>, bi: int, n: int) -> Ordering
    decreases n,
{
    if n <= 0 {
        Ordering::Equal
    } else if a[ai] < b[bi] {
        Ordering::Less
    } else if a[ai] > b[bi] {
        Ordering::Greater
    } else {
        seg_cmp(a, ai + 1, b, bi + 1, n - 1)
    }
}

/// Order of two integer digit strings without leading zeros: more digits is larger.
pub open spec fn int_digits_cmp(a: Seq<u8>, alo: int, ahi: int, b: Seq<u8>, blo: int, bhi: int) -> Ordering {
    if ahi - alo < bhi - blo {
        Ordering::Less
    } else if ahi - alo > bhi - blo {
        Ordering::Greater
    } else {
        seg_cmp(a, alo, b, blo, ahi - alo)
    }
}

/// Order of two fraction digit strings, the shorter padded with zeros, from digit `k`.
pub open spec fn frac_cmp(a: Seq<u8>, alo: int, ahi: int, b: Seq<u8>, blo: int, bhi: int, k: int) -> Ordering
    decreases (ahi - alo) + (bhi - blo) - k,
{
    if k < 0 || alo > ahi || blo > bhi || (alo + k >= ahi && blo + k >= bhi) {
        Ordering::Equal
    } else {
        let x = if alo + k < ahi { a[alo + k] } else { 48u8 };
        let y = if blo + k < bhi { b[blo + k] } else { 48u8 };
        if x < y {
            Ordering::Less
        } else if x > y {
            Ordering::Greater
        } else {
            frac_cmp(a, alo, ahi, b, blo, bhi, k + 1)
        }
    }
}

/// Order of the absolute values of the numbers at the start of `a` and `b`.
pub open spec fn magnitude_cmp(a: Seq<u8>, b: Seq<u8>) -> Ordering {
    let c = int_digits_cmp(a, num_sig_lo(a), num_int_hi(a), b, num_sig_lo(b), num_int_hi(b));
    match c {
        Ordering::Equal => frac_cmp(a, num_frac_lo(a), num_frac_hi(a), b, num_frac_lo(b), num_frac_hi(b), 0),
        _ => c,
    }
}

/// Numeric order of the numbers that start `a` and `b`; a record without a number comes
/// before every number, and two such records are equal.
pub open spec fn numeric_cmp(a: Seq<u8>, b: Seq<u8>) -> Ordering {
    if !num_valid(a) && !num_valid(b) {
        Ordering::Equal
    } else if !num_valid(a) {
        Ordering::Less
    } else if !num_valid(b) {
        Ordering::Greater
    } else if num_negative(a) && !num_negative(b) {
        Ordering::Less
    } else if !num_negative(a) && num_negative(b) {
        Ordering::Greater
    } else if num_negative(a) {
        flip(magnitude_cmp(a, b))
    } else {
        magnitude_cmp(a, b)
    }
}

pub proof fn lemma_seg_cmp_antisym(a: Seq<u8>, ai: int, b: Seq<u8>, bi: int, n: int)
    ensures
        seg_cmp(b, bi, a, ai, n) == flip(seg_cmp(a, ai, b, bi, n)),
    decreases n,
{
    if n > 0 && a[ai] == b[bi] {
        lemma_seg_cmp_antisym(a, ai + 1, b, bi + 1, n - 1);
    }
}

pub proof fn lemma_frac_cmp_antisym(
    a: Seq<u8>,
    alo: int,
    ahi: int,
    b: Seq<u8>,
    blo: int,
    bhi: int,
    k: int,
)
    requires
        alo <= ahi,
        blo <= bhi,
    ensures
        frac_cmp(b, blo, bhi, a, alo, ahi, k) == flip(frac_cmp(a, alo, ahi, b, blo, bhi, k)),
    decreases (ahi - alo) + (bhi - blo) - k,
{
    if !(k < 0 || alo > ahi || blo > bhi || (alo + k >= ahi && blo + k >= bhi)) {
        lemma_frac_cmp_antisym(a, alo, ahi, b, blo, bhi, k + 1);
    }
}

/// Swapping the arguments of the order of magnitudes flips its outcome.
pub proof fn lemma_magnitude_cmp_antisym(a: Seq<u8>, b: Seq<u8>)
    ensures
        magnitude_cmp(b, a) == flip(magnitude_cmp(a, b)),
{
    lemma_seg_cmp_antisym(a, num_sig_lo(a), b, num_sig_lo(b), num_int_hi(a) - num_sig_lo(a));
    lemma_num_layout(a);
    lemma_num_layout(b);
    lemma_frac_cmp_antisym(a, num_frac_lo(a), num_frac_hi(a), b, num_frac_lo(b), num_frac_hi(b), 0);
}

/// Swapping the arguments of the numeric order flips its outcome.
pub proof fn lemma_numeric_cmp_antisym(a: Seq<u8>, b: Seq<u8>)
    ensures
        numeric_cmp(b, a) == flip(numeric_cmp(a, b)),
{
    lemma_seg_cmp_antisym(a, num_sig_lo(a), b, num_sig_lo(b), num_int_hi(a) - num_sig_lo(a));
    lemma_num_layout(a);
    lemma_num_layout(b);
    lemma_frac_cmp_antisym(a, num_frac_lo(a), num_frac_hi(a), b, num_frac_lo(b), num_frac_hi(b), 0);
}

pub proof fn lemma_blank_end(s: Seq<u8>, i: int)
    requires
        0 <= i <= s.len(),
    ensures
        i <= blank_end(s, i) <= s.len(),
    decreases s.len() - i,
{
    if i < s.len() && is_blank(s[i]) {
        lemma_blank_end(s, i + 1);
    }
}

pub proof fn lemma_digit_end(s: Seq<u8>, i: int)
    requires
        0 <= i <= s.len(),
    ensures
        i <= digit_end(s, i) <= s.len(),
    decreases s.len() - i,
{
    if i < s.len() && is_digit_byte(s[i]) {
        lemma_digit_end(s, i + 1);
    }
}

/// The positions of a number's parts come in order within the record.
pub proof fn lemma_num_layout(s: Seq<u8>)
    ensures
        num_frac_lo(s) <= num_frac_hi(s),
        num_int_hi(s) <= num_frac_lo(s),
{
    lemma_blank_end(s, 0);
    lemma_digit_end(s, num_digits_lo(s));
    if num_has_frac(s) {
        lemma_digit_end(s, num_int_hi(s) + 1);
    }
}

// ----- scanning -----

pub fn skip_whitespace(s: &[u8], i: usize) -> (r: usize)
    requires
        i <= s@.len(),
    ensures
        r == blank_end(s@, i as int),
        i <= r <= s@.len(),
{
    let mut j = i;
    while j < s.len() && (s[j] == 32 || s[j] == 9)
        invariant
            i <= j <= s@.len(),
            blank_end(s@, i as int) == blank_end(s@, j as int),
        decreases s@.len() - j,
    {
        j = j + 1;
    }
    j
}

pub fn skip_digits(s: &[u8], i: usize) -> (r: usize)
    requires
        i <= s@.len(),
    ensures
        r == digit_end(s@, i as int),
        i <= r <= s@.len(),
{
    let mut j = i;
    while j < s.len() && 48 <= s[j] && s[j] <= 57
        invariant
            i <= j <= s@.len(),
            digit_end(s@, i as int) == digit_end(s@, j as int),
        decreases s@.len() - j,
    {
        j = j + 1;
    }
    j
}

/// First position in `[lo, hi)` that is not `0`, or `hi`.
pub fn skip_leading_zeros(s: &[u8], lo: usize, hi: usize) -> (r: usize)
    requires
        lo <= hi <= s@.len(),
    ensures
        r == zero_end(s@, lo as int, hi as int),
        lo <= r <= hi,
{
    let mut j = lo;
    while j < hi && s[j] == 48
        invariant
            lo <= j <= hi <= s@.len(),
            zero_end(s@, lo as int, hi as int) == zero_end(s@, j as int, hi as int),
        decreases hi - j,
    {
        j = j + 1;
    }
    j
}

/// Whether the number at `p` is negative, and where its digits begin.
pub fn extract_sign(s: &[u8], p: usize) -> (r: (bool, usize))
    requires
        p <= s@.len(),
    ensures
        r.0 == (p < s@.len() && s@[p as int] == 45),
        r.1 == if p < s@.len() && (s@[p as int] == 45 || s@[p as int] == 43) { p + 1 } else { p as int },
{
    if p < s.len() && s[p] == 45 {
        (true, p + 1)
    } else if p < s.len() && s[p] == 43 {
        (false, p + 1)
    } else {
        (false, p)
    }
}

/// Order of the integer digit strings `a[alo..ahi]` and `b[blo..bhi]` (leading zeros
/// already skipped).
pub fn compare_integer_parts(a: &[u8], alo: usize, ahi: usize, b: &[u8], blo: usize, bhi: usize) -> (r: Ordering)
    requires
        alo <= ahi <= a@.len(),
        blo <= bhi <= b@.len(),
    ensures
        r == int_digits_cmp(a@, alo as int, ahi as int, b@, blo as int, bhi as int),
{
    if ahi - alo < bhi - blo {
        return Ordering::Less;
    }
    if ahi - alo > bhi - blo {
        return Ordering::Greater;
    }
    let n = ahi - alo;
    let mut k: usize = 0;
    while k < n
        invariant
            n == ahi - alo == bhi - blo,
            alo <= ahi <= a@.len(),
            blo <= bhi <= b@.len(),
            k <= n,
            seg_cmp(a@, alo as int, b@, blo as int, n as int) == seg_cmp(
                a@,
                alo + k,
                b@,
                blo + k,
                n - k,
            ),
        decreases n - k,
    {
        if a[alo + k] < b[blo + k] {
            return Ordering::Less;
        }
        if a[alo + k] > b[blo + k] {
            return Ordering::Greater;
        }
        k = k + 1;
    }
    Ordering::Equal
}

/// Order of the fraction digit strings `a[alo..ahi]` and `b[blo..bhi]`, the shorter
/// padded with zeros.
pub fn compare_fractional_parts(a: &[u8], alo: usize, ahi: usize, b: &[u8], blo: usize, bhi: usize) -> (r: Ordering)
    requires
        alo <= ahi <= a@.len(),
        blo <= bhi <= b@.len(),
    ensures
        r == frac_cmp(a@, alo as int, ahi as int, b@, blo as int, bhi as int, 0),
{
    let n = if ahi - alo > bhi - blo {
        ahi - alo
    } else {
        bhi - blo
    };
    let mut k: usize = 0;
    while k < n
        invariant
            alo <= ahi <= a@.len(),
            blo <= bhi <= b@.len(),
            n == if ahi - alo > bhi - blo { ahi - alo } else { bhi - blo },
            k <= n,
            frac_cmp(a@, alo as int, ahi as int, b@, blo as int, bhi as int, 0) == frac_cmp(
                a@,
                alo as int,
                ahi as int,
                b@,
                blo as int,
                bhi as int,
                k as int,
            ),
        decreases n - k,
    {
        let x: u8 = if k < ahi - alo {
            a[alo + k]
        } else {
            48
        };
        let y: u8 = if k < bhi - blo {
            b[blo + k]
        } else {
            48
        };
        if x < y {
            return Ordering::Less;
        }
        if x > y {
            return Ordering::Greater;
        }
        k = k + 1;
    }
    Ordering::Equal
}

/// The layout of the number at the start of `s`.
pub struct NumberParts {
    pub negative: bool,
    pub sig_lo: usize,
    pub int_hi: usize,
    pub frac_lo: usize,
    pub frac_hi: usize,
    pub valid: bool,
    pub zero: bool,
}

pub open spec fn parts_of(s: Seq<u8>, p: NumberParts) -> bool {
    &&& p.negative == num_negative(s)
    &&& p.sig_lo == num_sig_lo(s)
    &&& p.int_hi == num_int_hi(s)
    &&& p.frac_lo == num_frac_lo(s)
    &&& p.frac_hi == num_frac_hi(s)
    &&& p.valid == num_valid(s)
    &&& p.zero == num_is_zero(s)
    &&& p.sig_lo <= p.int_hi <= p.frac_lo <= p.frac_hi <= s.len()
}

/// Finds the number at the start of `s`.
pub fn number_parts(s: &[u8]) -> (r: NumberParts)
    ensures
        parts_of(s@, r),
{
    let p = skip_whitespace(s, 0);
    let (minus, lo) = extract_sign(s, p);
    let int_hi = skip_digits(s, lo);
    let has_frac = int_hi < s.len() && s[int_hi] == 46;
    let (frac_lo, frac_hi) = if has_frac {
        let e = skip_digits(s, int_hi + 1);
        (int_hi + 1, e)
    } else {
        (int_hi, int_hi)
    };
    let sig_lo = skip_leading_zeros(s, lo, int_hi);
    let mut frac_zero = true;
    let mut k = frac_lo;
    while k < frac_hi
        invariant
            frac_lo <= k <= frac_hi <= s@.len(),
            frac_zero == all_zeros(s@, frac_lo as int, k as int),
        decreases frac_hi - k,
    {
        if s[k] != 48 {
            frac_zero = false;
        }
        k = k + 1;
    }
    let zero = sig_lo == int_hi && frac_zero;
    NumberParts {
        negative: minus && !zero,
        sig_lo,
        int_hi,
        frac_lo,
        frac_hi,
        valid: int_hi > lo || frac_hi > frac_lo,
        zero,
    }
}

/// Order of the absolute values of the numbers whose layouts are given.
pub fn compare_magnitude(a: &[u8], pa: &NumberParts, b: &[u8], pb: &NumberParts) -> (r: Ordering)
    requires
        parts_of(a@, *pa),
        parts_of(b@, *pb),
    ensures
        r == magnitude_cmp(a@, b@),
{
    let c = compare_integer_parts(a, pa.sig_lo, pa.int_hi, b, pb.sig_lo, pb.int_hi);
    match c {
        Ordering::Equal => compare_fractional_parts(a, pa.frac_lo, pa.frac_hi, b, pb.frac_lo, pb.frac_hi),
        _ => c,
    }
}

/// Numeric order of the numbers that start `a` and `b`.
pub fn compare_numeric_bytes(a: &[u8], b: &[u8]) -> (r: Ordering)
    ensures
        r == numeric_cmp(a@, b@),
{
    let pa = number_parts(a);
    let pb = number_parts(b);
    if !pa.valid && !pb.valid {
        return Ordering::Equal;
    }
    if !pa.valid {
        return Ordering::Less;
    }
    if !pb.valid {
        return Ordering::Greater;
    }
    if pa.negative && !pb.negative {
        return Ordering::Less;
    }
    if !pa.negative && pb.negative {
        return Ordering::Greater;
    }
    let m = compare_magnitude(a, &pa, b, &pb);
    if pa.negative {
        match m {
            Ordering::Less => Ordering::Greater,
            Ordering::Greater => Ordering::Less,
            Ordering::Equal => Ordering::Equal,
        }
    } else {
        m
    }
}

// ----- plain integers -----

/// The value of the decimal digits `s[lo..hi]`.
pub open spec fn dec_value(s: Seq<u8>, lo: int, hi: int) -> int
    decreases hi - lo,
{
    if hi <= lo {
        0
    } else {
        10 * dec_value(s, lo, hi - 1) + (s[hi - 1] - 48)
    }
}

/// A record that is only an optional sign and digits, with a magnitude that fits in
/// `i64`, read as that integer; the empty record reads as zero.
pub open spec fn int_model(s: Seq<u8>) -> Option<i64> {
    let lo: int = if s.len() > 0 && (s[0] == 45 || s[0] == 43) { 1 } else { 0 };
    let v = dec_value(s, lo, s.len() as int);
    if (forall|k: int| lo <= k < s.len() ==> is_digit_byte(#[trigger] s[k])) && v <= i64::MAX {
        if s.len() > 0 && s[0] == 45 {
            Some((-v) as i64)
        } else {
            Some(v as i64)
        }
    } else {
        None
    }
}

pub proof fn lemma_dec_value_grows(s: Seq<u8>, lo: int, hi: int)
    requires
        0 <= lo <= hi < s.len(),
        forall|k: int| lo <= k <= hi ==> is_digit_byte(#[trigger] s[k]),
    ensures
        dec_value(s, lo, hi + 1) >= dec_value(s, lo, hi) >= 0,
    decreases hi - lo,
{
    if hi > lo {
        lemma_dec_value_grows(s, lo, hi - 1);
    }
}

pub proof fn lemma_dec_value_mono(s: Seq<u8>, lo: int, a: int, b: int)
    requires
        0 <= lo <= a <= b <= s.len(),
        forall|k: int| lo <= k < b ==> is_digit_byte(#[trigger] s[k]),
    ensures
        dec_value(s, lo, b) >= dec_value(s, lo, a),
    decreases b - a,
{
    if b > a {
        lemma_dec_value_mono(s, lo, a, b - 1);
        if b - 1 >= lo {
            lemma_dec_value_grows(s, lo, b - 1);
        }
    }
}

/// Reads a record made only of an optional sign and digits as an integer.
pub fn parse_int(bytes: &[u8]) -> (r: Option<i64>)
    ensures
        r == int_model(bytes@),
{
    let n = bytes.len();
    if n == 0 {
        return Some(0);
    }
    let negative = bytes[0] == 45;
    let start: usize = if bytes[0] == 45 || bytes[0] == 43 {
        1
    } else {
        0
    };
    let ghost s = bytes@;
    let mut result: i64 = 0;
    let mut i = start;
    while i < n
        invariant
            n == s.len(),
            s == bytes@,
            start <= i <= n,
            start == (if s.len() > 0 && (s[0] == 45 || s[0] == 43) { 1int } else { 0int }),
            forall|k: int| start <= k < i ==> is_digit_byte(#[trigger] s[k]),
            result == dec_value(s, start as int, i as int),
            result >= 0,
        decreases n - i,
    {
        let c = bytes[i];
        if !(48 <= c && c <= 57) {
            return None;
        }
        let d = (c - 48) as i64;
        proof {
            lemma_dec_value_grows(s, start as int, i as int);
        }
        if result > (i64::MAX - d) / 10 {
            proof {
                assert(dec_value(s, start as int, i + 1) > i64::MAX);
                if forall|k: int| start <= k < s.len() ==> is_digit_byte(#[trigger] s[k]) {
                    lemma_dec_value_mono(s, start as int, i + 1, n as int);
                }
            }
            return None;
        }
        result = result * 10 + d;
        i = i + 1;
    }
    if negative {
        Some(-result)
    } else {
        Some(result)
    }
}

// ----- records -----

/// A record: the bytes of one line, without its terminator.
pub struct Line {
    bytes: Vec<u8>,
}

impl View for Line {
    type V = Seq<u8>;

    closed spec fn view(&self) -> Seq<u8> {
        self.bytes@
    }
}

/// A copy of the bytes of a slice.
pub fn copy_bytes(data: &[u8]) -> (r: Vec<u8>)
    ensures
        r@ == data@,
{
    let mut v: Vec<u8> = Vec::with_capacity(data.len());
    let mut i: usize = 0;
    while i < data.len()
        invariant
            i <= data@.len(),
            v@ == data@.subrange(0, i as int),
        decreases data@.len() - i,
    {
        v.push(data[i]);
        i = i + 1;
        assert(v@ =~= data@.subrange(0, i as int));
    }
    assert(v@ =~= data@);
    v
}

impl Line {
    pub fn new(data: &[u8]) -> (r: Line)
        ensures
            r@ == data@,
    {
        Line { bytes: copy_bytes(data) }
    }

    pub fn as_bytes(&self) -> (r: &[u8])
        ensures
            r@ == self@,
    {
        self.bytes.as_slice()
    }

    pub fn len(&self) -> (r: usize)
        ensures
            r == self@.len(),
    {
        self.bytes.len()
    }

    pub fn is_empty(&self) -> (r: bool)
        ensures
            r == (self@.len() == 0),
    {
        self.bytes.len() == 0
    }

    /// The record read as a plain integer, if it is one.
    pub fn parse_int(&self) -> (r: Option<i64>)
        ensures
            r == int_model(self@),
    {
        parse_int(self.bytes.as_slice())
    }

    /// Numeric order: as integers where both records are plain integers, otherwise by
    /// the decimal numbers that start them.
    pub fn compare_numeric(&self, other: &Line) -> (r: Ordering)
        ensures
            r == match (int_model(self@), int_model(other@)) {
                (Some(x), Some(y)) => if x < y {
                    Ordering::Less
                } else if x > y {
                    Ordering::Greater
                } else {
                    Ordering::Equal
                },
                _ => numeric_cmp(self@, other@),
            },
    {
        match (self.parse_int(), other.parse_int()) {
            (Some(x), Some(y)) => {
                if x < y {
                    Ordering::Less
                } else if x > y {
                    Ordering::Greater
                } else {
                    Ordering::Equal
                }
            },
            _ => compare_numeric_bytes(self.bytes.as_slice(), other.bytes.as_slice()),
        }
    }

    pub fn compare_ignore_case(&self, other: &Line) -> (r: Ordering)
        ensures
            r == lex_cmp(fold_bytes(self@), fold_bytes(other@)),
    {
        compare_folded(self.bytes.as_slice(), other.bytes.as_slice())
    }

    pub fn compare_lexicographic(&self, other: &Line) -> (r: Ordering)
        ensures
            r == lex_cmp(self@, other@),
    {
        compare_bytes(self.bytes.as_slice(), other.bytes.as_slice())
    }
}

/// Numeric order of two records, as `Line::compare_numeric` gives it.
pub fn compare_numeric_lines(a: &Line, b: &Line) -> (r: Ordering)
    ensures
        r == match (int_model(a@), int_model(b@)) {
            (Some(x), Some(y)) => if x < y {
                Ordering::Less
            } else if x > y {
                Ordering::Greater
            } else {
                Ordering::Equal
            },
            _ => numeric_cmp(a@, b@),
        },
{
    a.compare_numeric(b)
}

/// Byte order with ASCII case folded.
pub fn compare_case_insensitive(a: &[u8], b: &[u8]) -> (r: Ordering)
    ensures
        r == lex_cmp(fold_bytes(a@), fold_bytes(b@)),
{
    compare_folded(a, b)
}

// ----- splitting input into records and writing them out -----

/// First position at or after `i` that holds the terminator `t`, or the length.
pub open spec fn term_pos(s: Seq<u8>, t: u8, i: int) -> int
    decreases s.len() - i,
{
    if i < 0 || i >= s.len() {
        s.len() as int
    } else if s[i] == t {
        i
    } else {
        term_pos(s, t, i + 1)
    }
}

/// The records of `s[i..]`: the pieces between terminators; a last piece without
/// terminator counts, an empty tail does not.
pub open spec fn records_from(s: Seq<u8>, t: u8, i: int) -> Seq<Seq<u8>>
    decreases s.len() - i,
{
    if i < 0 || i >= s.len() {
        Seq::empty()
    } else {
        let e = term_pos(s, t, i);
        if e < i || e >= s.len() {
            seq![s.subrange(i, s.len() as int)]
        } else {
            seq![s.subrange(i, e)] + records_from(s, t, e + 1)
        }
    }
}

/// The records of the input `s` with terminator `t`.
pub open spec fn split_records(s: Seq<u8>, t: u8) -> Seq<Seq<u8>> {
    records_from(s, t, 0)
}

/// Each record followed by the terminator.
pub open spec fn render(recs: Seq<Seq<u8>>, t: u8) -> Seq<u8>
    decreases recs.len(),
{
    if recs.len() == 0 {
        Seq::empty()
    } else {
        recs[0] + seq![t] + render(recs.drop_first(), t)
    }
}

/// The byte strings that a vector of vectors holds.
pub open spec fn views(v: Seq<Vec<u8>>) -> Seq<Seq<u8>> {
    v.map_values(|x: Vec<u8>| x@)
}

pub proof fn lemma_term_pos_bounds(s: Seq<u8>, t: u8, i: int)
    requires
        0 <= i <= s.len(),
    ensures
        i <= term_pos(s, t, i) <= s.len(),
        term_pos(s, t, i) < s.len() ==> s[term_pos(s, t, i)] == t,
        forall|k: int| i <= k < term_pos(s, t, i) ==> s[k] != t,
    decreases s.len() - i,
{
    if i < s.len() && s[i] != t {
        lemma_term_pos_bounds(s, t, i + 1);
    }
}

pub proof fn lemma_render_push(recs: Seq<Seq<u8>>, x: Seq<u8>, t: u8)
    ensures
        render(recs.push(x), t) == render(recs, t) + x + seq![t],
    decreases recs.len(),
{
    if recs.len() == 0 {
        assert(recs.push(x).drop_first() =~= Seq::<Seq<u8>>::empty());
        assert(render(Seq::<Seq<u8>>::empty(), t) == Seq::<u8>::empty());
        assert(recs.push(x)[0] == x);
        assert(render(recs.push(x), t) =~= x + seq![t]);
    } else {
        assert(recs.push(x).drop_first() =~= recs.drop_first().push(x));
        lemma_render_push(recs.drop_first(), x, t);
        assert(render(recs.push(x), t) =~= render(recs, t) + x + seq![t]);
    }
}

/// Writing out the records of an input gives back the input, with a terminator added
/// where the last record lacked one; an empty input gives nothing.
pub proof fn lemma_render_split(s: Seq<u8>, t: u8)
    ensures
        render(split_records(s, t), t) == if s.len() == 0 || s.last() == t {
            s
        } else {
            s.push(t)
        },
{
    lemma_render_records_from(s, t, 0);
    assert(s.subrange(0, s.len() as int) =~= s);
}

proof fn lemma_render_records_from(s: Seq<u8>, t: u8, i: int)
    requires
        0 <= i <= s.len(),
    ensures
        render(records_from(s, t, i), t) == if i == s.len() || s.last() == t {
            s.subrange(i, s.len() as int)
        } else {
            s.subrange(i, s.len() as int).push(t)
        },
    decreases s.len() - i,
{
    if i < s.len() {
        let e = term_pos(s, t, i);
        lemma_term_pos_bounds(s, t, i);
        let rest = if e < s.len() { records_from(s, t, e + 1) } else { Seq::empty() };
        let all = seq![s.subrange(i, e)] + rest;
        assert(records_from(s, t, i) =~= all);
        assert(all.drop_first() =~= rest);
        assert(all[0] == s.subrange(i, e));
        if e < s.len() {
            lemma_render_records_from(s, t, e + 1);
            if e + 1 == s.len() {
                assert(s.last() == t);
                assert(s.subrange(i, s.len() as int) =~= s.subrange(i, e) + seq![t]
                    + s.subrange(e + 1, s.len() as int));
            } else {
                assert(s.subrange(i, s.len() as int) =~= s.subrange(i, e) + seq![t]
                    + s.subrange(e + 1, s.len() as int));
                assert(s.subrange(i, s.len() as int).push(t) =~= s.subrange(i, e) + seq![t]
                    + s.subrange(e + 1, s.len() as int).push(t));
            }
        } else {
            assert(rest =~= Seq::<Seq<u8>>::empty());
            if s.last() == t {
                assert(s[s.len() - 1] == t);
                assert(false);
            }
            assert(render(rest, t) == Seq::<u8>::empty());
            assert(render(all, t) =~= s.subrange(i, e) + seq![t]);
            assert(s.subrange(i, s.len() as int) =~= s.subrange(i, e));
        }
    }
}

/// Splits `data` into records at each terminator `terminator`.
pub fn parse_lines(data: &[u8], terminator: u8) -> (r: Vec<Vec<u8>>)
    ensures
        views(r@) == split_records(data@, terminator),
{
    let n = data.len();
    let ghost s = data@;
    let mut out: Vec<Vec<u8>> = Vec::new();
    let mut i: usize = 0;
    while i < n
        invariant
            n == s.len(),
            s == data@,
            i <= n,
            views(out@) + records_from(s, terminator, i as int) == split_records(s, terminator),
        decreases n - i,
    {
        let mut e = i;
        while e < n && data[e] != terminator
            invariant
                i <= e <= n,
                n == s.len(),
                s == data@,
                term_pos(s, terminator, i as int) == term_pos(s, terminator, e as int),
            decreases n - e,
        {
            e = e + 1;
        }
        let mut rec: Vec<u8> = Vec::with_capacity(e - i);
        let mut k = i;
        while k < e
            invariant
                i <= k <= e <= n,
                n == s.len(),
                s == data@,
                rec@ == s.subrange(i as int, k as int),
            decreases e - k,
        {
            rec.push(data[k]);
            k = k + 1;
            assert(rec@ =~= s.subrange(i as int, k as int));
        }
        let ghost old_views = views(out@);
        out.push(rec);
        proof {
            assert(views(out@) =~= old_views.push(s.subrange(i as int, e as int)));
            lemma_term_pos_bounds(s, terminator, i as int);
            if e < n {
                assert(records_from(s, terminator, i as int) == seq![s.subrange(i as int, e as int)]
                    + records_from(s, terminator, e + 1));
            } else {
                assert(records_from(s, terminator, e + 1) =~= Seq::<Seq<u8>>::empty());
                assert(records_from(s, terminator, i as int) =~= seq![s.subrange(i as int, e as int)]
                    + records_from(s, terminator, e + 1));
            }
            assert(views(out@) + records_from(s, terminator, e + 1) =~= old_views
                + records_from(s, terminator, i as int));
        }
        if e < n {
            i = e + 1;
        } else {
            i = n;
            assert(records_from(s, terminator, e + 1) =~= records_from(s, terminator, n as int));
        }
    }
    proof {
        assert(records_from(s, terminator, i as int) =~= Seq::<Seq<u8>>::empty());
        assert(views(out@) + Seq::<Seq<u8>>::empty() =~= views(out@));
    }
    out
}

/// The records `recs`, taken in the order `order`, each followed by `terminator`.
pub fn write_records(recs: &Vec<Vec<u8>>, order: &Vec<usize>, terminator: u8) -> (r: Vec<u8>)
    requires
        forall|k: int| 0 <= k < order@.len() ==> #[trigger] order@[k] < recs@.len(),
    ensures
        r@ == render(pick(views(recs@), order@), terminator),
{
    let mut out: Vec<u8> = Vec::new();
    let mut i: usize = 0;
    while i < order.len()
        invariant
            i <= order@.len(),
            forall|k: int| 0 <= k < order@.len() ==> #[trigger] order@[k] < recs@.len(),
            out@ == render(pick(views(recs@), order@.subrange(0, i as int)), terminator),
        decreases order@.len() - i,
    {
        let rec = &recs[order[i]];
        let mut k: usize = 0;
        let ghost before = out@;
        while k < rec.len()
            invariant
                k <= rec@.len(),
                out@ == before + rec@.subrange(0, k as int),
            decreases rec@.len() - k,
        {
            out.push(rec[k]);
            k = k + 1;
            assert(out@ =~= before + rec@.subrange(0, k as int));
        }
        out.push(terminator);
        proof {
            let p = pick(views(recs@), order@.subrange(0, i as int));
            assert(pick(views(recs@), order@.subrange(0, i + 1)) =~= p.push(rec@));
            lemma_render_push(p, rec@, terminator);
            assert(rec@.subrange(0, rec@.len() as int) =~= rec@);
            assert(out@ =~= render(p, terminator) + rec@ + seq![terminator]);
        }
        i = i + 1;
    }
    assert(order@.subrange(0, order@.len() as int) =~= order@);
    out
}

/// The records `recs` in the order that `order` gives by position.
pub open spec fn pick(recs: Seq<Seq<u8>>, order: Seq<usize>) -> Seq<Seq<u8>> {
    order.map_values(|i: usize| recs[i as int])
}

} // verus!
