//! The comparator is a total preorder: besides flipping when its arguments are
//! swapped, it is transitive.
use vstd::prelude::*;
use std::cmp::Ordering;
use crate::simd_compare::{flip, lemma_lex_cmp_antisym, lex_cmp, lex_cmp_from};
use crate::config::{SortConfig, SortKey};
use crate::general_numeric::{
    first_significant, general_cmp, general_magnitude, lemma_general_cmp_antisym, lemma_zero_end_le,
    mantissa_digits,
};
use crate::keys::{
    base_cmp, collate_cmp, global_collation, human_cmp, key_cmp, key_collation, key_hash, key_of,
    keys_cmp, lemma_collate_cmp_antisym, lemma_int_cmp_antisym, lemma_keys_cmp_antisym,
    lemma_record_cmp_antisym, normalized, record_cmp, sep_byte, version_cmp_from, Collation,
};
use crate::simd_compare::is_digit_byte;
use crate::zero_copy::{blank_end, digit_end, lemma_blank_end, lemma_digit_end, zero_end,
    frac_cmp, int_digits_cmp, lemma_magnitude_cmp_antisym, lemma_num_layout, magnitude_cmp,
    num_frac_hi, num_frac_lo, num_int_hi, num_sig_lo, numeric_cmp, seg_cmp,
};

verus! {

/// Not greater: the first argument comes first or ties.
pub open spec fn le(o: Ordering) -> bool {
    !(o is Greater)
}

/// Byte order is transitive.
pub proof fn lemma_lex_cmp_trans(a: Seq<u8>, b: Seq<u8>, c: Seq<u8>, i: int)
    requires
        0 <= i,
        le(lex_cmp_from(a, b, i)),
        le(lex_cmp_from(b, c, i)),
    ensures
        le(lex_cmp_from(a, c, i)),
    decreases a.len() - i,
{
    if i < a.len() && i < b.len() && i < c.len() && a[i] == b[i] && b[i] == c[i] {
        lemma_lex_cmp_trans(a, b, c, i + 1);
    }
}

proof fn lemma_seg_cmp_trans(a: Seq<u8>, ai: int, b: Seq<u8>, bi: int, c: Seq<u8>, ci: int, n: int)
    requires
        le(seg_cmp(a, ai, b, bi, n)),
        le(seg_cmp(b, bi, c, ci, n)),
    ensures
        le(seg_cmp(a, ai, c, ci, n)),
    decreases n,
{
    if n > 0 && a[ai] == b[bi] && b[bi] == c[ci] {
        lemma_seg_cmp_trans(a, ai + 1, b, bi + 1, c, ci + 1, n - 1);
    }
}

pub proof fn lemma_int_digits_cmp_trans(
    a: Seq<u8>,
    alo: int,
    ahi: int,
    b: Seq<u8>,
    blo: int,
    bhi: int,
    c: Seq<u8>,
    clo: int,
    chi: int,
)
    ensures
        le(int_digits_cmp(a, alo, ahi, b, blo, bhi)) && le(int_digits_cmp(b, blo, bhi, c, clo, chi))
            ==> le(int_digits_cmp(a, alo, ahi, c, clo, chi)),
{
    if le(int_digits_cmp(a, alo, ahi, b, blo, bhi)) && le(int_digits_cmp(b, blo, bhi, c, clo, chi))
        && ahi - alo == bhi - blo && bhi - blo == chi - clo {
        lemma_seg_cmp_trans(a, alo, b, blo, c, clo, ahi - alo);
    }
}

/// The digit at `k` of a fraction, `0` past its end.
pub open spec fn frac_digit(a: Seq<u8>, alo: int, ahi: int, k: int) -> u8 {
    if alo + k < ahi {
        a[alo + k]
    } else {
        48u8
    }
}

proof fn lemma_frac_cmp_unfold(a: Seq<u8>, alo: int, ahi: int, b: Seq<u8>, blo: int, bhi: int, k: int)
    requires
        0 <= k,
        alo <= ahi,
        blo <= bhi,
        !(alo + k >= ahi && blo + k >= bhi),
    ensures
        frac_cmp(a, alo, ahi, b, blo, bhi, k) == if frac_digit(a, alo, ahi, k) < frac_digit(b, blo, bhi, k) {
            Ordering::Less
        } else if frac_digit(a, alo, ahi, k) > frac_digit(b, blo, bhi, k) {
            Ordering::Greater
        } else {
            frac_cmp(a, alo, ahi, b, blo, bhi, k + 1)
        },
{
}

/// Two fractions that both ended compare alike with any third.
proof fn lemma_frac_cmp_ended_left(a: Seq<u8>, alo: int, ahi: int, b: Seq<u8>, blo: int, bhi: int, c: Seq<u8>, clo: int, chi: int, k: int)
    requires
        0 <= k,
        alo <= ahi,
        blo <= bhi,
        clo <= chi,
        alo + k >= ahi,
        blo + k >= bhi,
    ensures
        frac_cmp(a, alo, ahi, c, clo, chi, k) == frac_cmp(b, blo, bhi, c, clo, chi, k),
        frac_cmp(c, clo, chi, a, alo, ahi, k) == frac_cmp(c, clo, chi, b, blo, bhi, k),
    decreases chi - clo - k,
{
    if clo + k < chi {
        lemma_frac_cmp_ended_left(a, alo, ahi, b, blo, bhi, c, clo, chi, k + 1);
    }
}

pub proof fn lemma_frac_cmp_trans(a: Seq<u8>, alo: int, ahi: int, b: Seq<u8>, blo: int, bhi: int, c: Seq<u8>, clo: int, chi: int, k: int)
    requires
        0 <= k,
        alo <= ahi,
        blo <= bhi,
        clo <= chi,
        le(frac_cmp(a, alo, ahi, b, blo, bhi, k)),
        le(frac_cmp(b, blo, bhi, c, clo, chi, k)),
    ensures
        le(frac_cmp(a, alo, ahi, c, clo, chi, k)),
    decreases (ahi - alo) + (bhi - blo) + (chi - clo) - k,
{
    let ea = alo + k >= ahi;
    let eb = blo + k >= bhi;
    let ec = clo + k >= chi;
    if ea && ec {
    } else if ea && eb {
        lemma_frac_cmp_ended_left(a, alo, ahi, b, blo, bhi, c, clo, chi, k);
    } else if eb && ec {
        lemma_frac_cmp_ended_left(b, blo, bhi, c, clo, chi, a, alo, ahi, k);
    } else {
        lemma_frac_cmp_unfold(a, alo, ahi, b, blo, bhi, k);
        lemma_frac_cmp_unfold(b, blo, bhi, c, clo, chi, k);
        lemma_frac_cmp_unfold(a, alo, ahi, c, clo, chi, k);
        if frac_digit(a, alo, ahi, k) == frac_digit(b, blo, bhi, k) && frac_digit(b, blo, bhi, k)
            == frac_digit(c, clo, chi, k) {
            lemma_frac_cmp_trans(a, alo, ahi, b, blo, bhi, c, clo, chi, k + 1);
        }
    }
}

proof fn lemma_magnitude_cmp_trans(a: Seq<u8>, b: Seq<u8>, c: Seq<u8>)
    requires
        le(magnitude_cmp(a, b)),
        le(magnitude_cmp(b, c)),
    ensures
        le(magnitude_cmp(a, c)),
{
    lemma_num_layout(a);
    lemma_num_layout(b);
    lemma_num_layout(c);
    let (al, ah, bl, bh, cl, ch) = (num_sig_lo(a), num_int_hi(a), num_sig_lo(b), num_int_hi(b), num_sig_lo(c), num_int_hi(c));
    lemma_int_digits_cmp_trans(a, al, ah, b, bl, bh, c, cl, ch);
    lemma_int_digits_cmp_trans(b, bl, bh, c, cl, ch, a, al, ah);
    lemma_int_digits_cmp_trans(c, cl, ch, a, al, ah, b, bl, bh);
    crate::zero_copy::lemma_seg_cmp_antisym(a, al, b, bl, ah - al);
    crate::zero_copy::lemma_seg_cmp_antisym(b, bl, c, cl, bh - bl);
    crate::zero_copy::lemma_seg_cmp_antisym(a, al, c, cl, ah - al);
    let (afl, afh, bfl, bfh, cfl, cfh) = (num_frac_lo(a), num_frac_hi(a), num_frac_lo(b), num_frac_hi(b), num_frac_lo(c), num_frac_hi(c));
    if le(frac_cmp(a, afl, afh, b, bfl, bfh, 0)) && le(frac_cmp(b, bfl, bfh, c, cfl, cfh, 0)) {
        lemma_frac_cmp_trans(a, afl, afh, b, bfl, bfh, c, cfl, cfh, 0);
    }
}

/// Magnitudes are a total preorder: transitive in every rotation, flipping on swap.
pub proof fn lemma_magnitude_preorder(a: Seq<u8>, b: Seq<u8>, c: Seq<u8>)
    ensures
        le(magnitude_cmp(a, b)) && le(magnitude_cmp(b, c)) ==> le(magnitude_cmp(a, c)),
        le(magnitude_cmp(c, b)) && le(magnitude_cmp(b, a)) ==> le(magnitude_cmp(c, a)),
        magnitude_cmp(b, a) == flip(magnitude_cmp(a, b)),
        magnitude_cmp(c, b) == flip(magnitude_cmp(b, c)),
        magnitude_cmp(c, a) == flip(magnitude_cmp(a, c)),
{
    if le(magnitude_cmp(a, b)) && le(magnitude_cmp(b, c)) {
        lemma_magnitude_cmp_trans(a, b, c);
    }
    if le(magnitude_cmp(c, b)) && le(magnitude_cmp(b, a)) {
        lemma_magnitude_cmp_trans(c, b, a);
    }
    lemma_magnitude_cmp_antisym(a, b);
    lemma_magnitude_cmp_antisym(b, c);
    lemma_magnitude_cmp_antisym(a, c);
}

/// Numeric order is transitive.
pub proof fn lemma_numeric_cmp_trans(a: Seq<u8>, b: Seq<u8>, c: Seq<u8>)
    requires
        le(numeric_cmp(a, b)),
        le(numeric_cmp(b, c)),
    ensures
        le(numeric_cmp(a, c)),
{
    lemma_magnitude_preorder(a, b, c);
}


proof fn lemma_version_cmp_trans(a: Seq<u8>, b: Seq<u8>, c: Seq<u8>, i: int, j: int, k: int)
    requires
        0 <= i <= a.len(),
        0 <= j <= b.len(),
        0 <= k <= c.len(),
        le(version_cmp_from(a, b, i, j)),
        le(version_cmp_from(b, c, j, k)),
    ensures
        le(version_cmp_from(a, c, i, k)),
    decreases (a.len() - i) + (b.len() - j) + (c.len() - k),
{
    if i < a.len() && j < b.len() && k < c.len() {
        let (da, db, dc) = (is_digit_byte(a[i]), is_digit_byte(b[j]), is_digit_byte(c[k]));
        if da && db && dc {
            lemma_digit_end(a, i + 1);
            lemma_digit_end(b, j + 1);
            lemma_digit_end(c, k + 1);
            let (ea, eb, ec) = (digit_end(a, i), digit_end(b, j), digit_end(c, k));
            let (za, zb, zc) = (zero_end(a, i, ea), zero_end(b, j, eb), zero_end(c, k, ec));
            lemma_int_digits_preorder(a, za, ea, b, zb, eb, c, zc, ec);
            if int_digits_cmp(a, za, ea, b, zb, eb) is Equal && int_digits_cmp(b, zb, eb, c, zc, ec) is Equal {
                lemma_version_cmp_trans(a, b, c, ea, eb, ec);
            }
        } else if !da && !db && !dc && a[i] == b[j] && b[j] == c[k] {
            lemma_version_cmp_trans(a, b, c, i + 1, j + 1, k + 1);
        }
    }
}

/// Byte order is a total preorder.
pub proof fn lemma_lex_preorder(a: Seq<u8>, b: Seq<u8>, c: Seq<u8>)
    ensures
        le(lex_cmp(a, b)) && le(lex_cmp(b, c)) ==> le(lex_cmp(a, c)),
        le(lex_cmp(a, c)) && le(lex_cmp(c, b)) ==> le(lex_cmp(a, b)),
        le(lex_cmp(b, a)) && le(lex_cmp(a, c)) ==> le(lex_cmp(b, c)),
        le(lex_cmp(b, c)) && le(lex_cmp(c, a)) ==> le(lex_cmp(b, a)),
        le(lex_cmp(c, a)) && le(lex_cmp(a, b)) ==> le(lex_cmp(c, b)),
        le(lex_cmp(c, b)) && le(lex_cmp(b, a)) ==> le(lex_cmp(c, a)),
        lex_cmp(b, a) == flip(lex_cmp(a, b)),
        lex_cmp(c, b) == flip(lex_cmp(b, c)),
        lex_cmp(c, a) == flip(lex_cmp(a, c)),
{
    if le(lex_cmp(a, b)) && le(lex_cmp(b, c)) {
        lemma_lex_cmp_trans(a, b, c, 0);
    }
    if le(lex_cmp(a, c)) && le(lex_cmp(c, b)) {
        lemma_lex_cmp_trans(a, c, b, 0);
    }
    if le(lex_cmp(b, a)) && le(lex_cmp(a, c)) {
        lemma_lex_cmp_trans(b, a, c, 0);
    }
    if le(lex_cmp(b, c)) && le(lex_cmp(c, a)) {
        lemma_lex_cmp_trans(b, c, a, 0);
    }
    if le(lex_cmp(c, a)) && le(lex_cmp(a, b)) {
        lemma_lex_cmp_trans(c, a, b, 0);
    }
    if le(lex_cmp(c, b)) && le(lex_cmp(b, a)) {
        lemma_lex_cmp_trans(c, b, a, 0);
    }
    lemma_lex_cmp_antisym(a, b, 0);
    lemma_lex_cmp_antisym(b, c, 0);
    lemma_lex_cmp_antisym(a, c, 0);
}

/// The order of integer digit strings is a total preorder.
pub proof fn lemma_int_digits_preorder(a: Seq<u8>, alo: int, ahi: int, b: Seq<u8>, blo: int, bhi: int, c: Seq<u8>, clo: int, chi: int)
    ensures
        le(int_digits_cmp(a, alo, ahi, b, blo, bhi)) && le(int_digits_cmp(b, blo, bhi, c, clo, chi)) ==> le(int_digits_cmp(a, alo, ahi, c, clo, chi)),
        le(int_digits_cmp(a, alo, ahi, c, clo, chi)) && le(int_digits_cmp(c, clo, chi, b, blo, bhi)) ==> le(int_digits_cmp(a, alo, ahi, b, blo, bhi)),
        le(int_digits_cmp(b, blo, bhi, a, alo, ahi)) && le(int_digits_cmp(a, alo, ahi, c, clo, chi)) ==> le(int_digits_cmp(b, blo, bhi, c, clo, chi)),
        le(int_digits_cmp(b, blo, bhi, c, clo, chi)) && le(int_digits_cmp(c, clo, chi, a, alo, ahi)) ==> le(int_digits_cmp(b, blo, bhi, a, alo, ahi)),
        le(int_digits_cmp(c, clo, chi, a, alo, ahi)) && le(int_digits_cmp(a, alo, ahi, b, blo, bhi)) ==> le(int_digits_cmp(c, clo, chi, b, blo, bhi)),
        le(int_digits_cmp(c, clo, chi, b, blo, bhi)) && le(int_digits_cmp(b, blo, bhi, a, alo, ahi)) ==> le(int_digits_cmp(c, clo, chi, a, alo, ahi)),
        int_digits_cmp(b, blo, bhi, a, alo, ahi) == flip(int_digits_cmp(a, alo, ahi, b, blo, bhi)),
        int_digits_cmp(c, clo, chi, b, blo, bhi) == flip(int_digits_cmp(b, blo, bhi, c, clo, chi)),
        int_digits_cmp(c, clo, chi, a, alo, ahi) == flip(int_digits_cmp(a, alo, ahi, c, clo, chi)),
{
    if le(int_digits_cmp(a, alo, ahi, b, blo, bhi)) && le(int_digits_cmp(b, blo, bhi, c, clo, chi)) {
        lemma_int_digits_cmp_trans(a, alo, ahi, b, blo, bhi, c, clo, chi);
    }
    if le(int_digits_cmp(a, alo, ahi, c, clo, chi)) && le(int_digits_cmp(c, clo, chi, b, blo, bhi)) {
        lemma_int_digits_cmp_trans(a, alo, ahi, c, clo, chi, b, blo, bhi);
    }
    if le(int_digits_cmp(b, blo, bhi, a, alo, ahi)) && le(int_digits_cmp(a, alo, ahi, c, clo, chi)) {
        lemma_int_digits_cmp_trans(b, blo, bhi, a, alo, ahi, c, clo, chi);
    }
    if le(int_digits_cmp(b, blo, bhi, c, clo, chi)) && le(int_digits_cmp(c, clo, chi, a, alo, ahi)) {
        lemma_int_digits_cmp_trans(b, blo, bhi, c, clo, chi, a, alo, ahi);
    }
    if le(int_digits_cmp(c, clo, chi, a, alo, ahi)) && le(int_digits_cmp(a, alo, ahi, b, blo, bhi)) {
        lemma_int_digits_cmp_trans(c, clo, chi, a, alo, ahi, b, blo, bhi);
    }
    if le(int_digits_cmp(c, clo, chi, b, blo, bhi)) && le(int_digits_cmp(b, blo, bhi, a, alo, ahi)) {
        lemma_int_digits_cmp_trans(c, clo, chi, b, blo, bhi, a, alo, ahi);
    }
    crate::keys::lemma_int_digits_cmp_antisym(a, alo, ahi, b, blo, bhi);
    crate::keys::lemma_int_digits_cmp_antisym(b, blo, bhi, c, clo, chi);
    crate::keys::lemma_int_digits_cmp_antisym(a, alo, ahi, c, clo, chi);
}

/// Numeric order is a total preorder.
pub proof fn lemma_numeric_preorder(a: Seq<u8>, b: Seq<u8>, c: Seq<u8>)
    ensures
        le(numeric_cmp(a, b)) && le(numeric_cmp(b, c)) ==> le(numeric_cmp(a, c)),
        le(numeric_cmp(a, c)) && le(numeric_cmp(c, b)) ==> le(numeric_cmp(a, b)),
        le(numeric_cmp(b, a)) && le(numeric_cmp(a, c)) ==> le(numeric_cmp(b, c)),
        le(numeric_cmp(b, c)) && le(numeric_cmp(c, a)) ==> le(numeric_cmp(b, a)),
        le(numeric_cmp(c, a)) && le(numeric_cmp(a, b)) ==> le(numeric_cmp(c, b)),
        le(numeric_cmp(c, b)) && le(numeric_cmp(b, a)) ==> le(numeric_cmp(c, a)),
        numeric_cmp(b, a) == flip(numeric_cmp(a, b)),
        numeric_cmp(c, b) == flip(numeric_cmp(b, c)),
        numeric_cmp(c, a) == flip(numeric_cmp(a, c)),
{
    if le(numeric_cmp(a, b)) && le(numeric_cmp(b, c)) {
        lemma_numeric_cmp_trans(a, b, c);
    }
    if le(numeric_cmp(a, c)) && le(numeric_cmp(c, b)) {
        lemma_numeric_cmp_trans(a, c, b);
    }
    if le(numeric_cmp(b, a)) && le(numeric_cmp(a, c)) {
        lemma_numeric_cmp_trans(b, a, c);
    }
    if le(numeric_cmp(b, c)) && le(numeric_cmp(c, a)) {
        lemma_numeric_cmp_trans(b, c, a);
    }
    if le(numeric_cmp(c, a)) && le(numeric_cmp(a, b)) {
        lemma_numeric_cmp_trans(c, a, b);
    }
    if le(numeric_cmp(c, b)) && le(numeric_cmp(b, a)) {
        lemma_numeric_cmp_trans(c, b, a);
    }
    crate::zero_copy::lemma_numeric_cmp_antisym(a, b);
    crate::zero_copy::lemma_numeric_cmp_antisym(b, c);
    crate::zero_copy::lemma_numeric_cmp_antisym(a, c);
}

/// The order of sizes is a total preorder.
pub proof fn lemma_human_preorder(a: Seq<u8>, b: Seq<u8>, c: Seq<u8>)
    ensures
        le(human_cmp(a, b)) && le(human_cmp(b, c)) ==> le(human_cmp(a, c)),
        le(human_cmp(a, c)) && le(human_cmp(c, b)) ==> le(human_cmp(a, b)),
        le(human_cmp(b, a)) && le(human_cmp(a, c)) ==> le(human_cmp(b, c)),
        le(human_cmp(b, c)) && le(human_cmp(c, a)) ==> le(human_cmp(b, a)),
        le(human_cmp(c, a)) && le(human_cmp(a, b)) ==> le(human_cmp(c, b)),
        le(human_cmp(c, b)) && le(human_cmp(b, a)) ==> le(human_cmp(c, a)),
        human_cmp(b, a) == flip(human_cmp(a, b)),
        human_cmp(c, b) == flip(human_cmp(b, c)),
        human_cmp(c, a) == flip(human_cmp(a, c)),
{
    lemma_magnitude_preorder(a, b, c);
    lemma_magnitude_preorder(b, c, a);
    lemma_magnitude_preorder(c, a, b);
    if le(human_cmp(a, b)) && le(human_cmp(b, c)) {
        lemma_magnitude_preorder(a, b, c);
    }
    if le(human_cmp(a, c)) && le(human_cmp(c, b)) {
        lemma_magnitude_preorder(a, c, b);
    }
    if le(human_cmp(b, a)) && le(human_cmp(a, c)) {
        lemma_magnitude_preorder(b, a, c);
    }
    if le(human_cmp(b, c)) && le(human_cmp(c, a)) {
        lemma_magnitude_preorder(b, c, a);
    }
    if le(human_cmp(c, a)) && le(human_cmp(a, b)) {
        lemma_magnitude_preorder(c, a, b);
    }
    if le(human_cmp(c, b)) && le(human_cmp(b, a)) {
        lemma_magnitude_preorder(c, b, a);
    }
    crate::keys::lemma_human_cmp_antisym(a, b);
    crate::keys::lemma_human_cmp_antisym(b, c);
    crate::keys::lemma_human_cmp_antisym(a, c);
}

/// Version order is a total preorder.
pub proof fn lemma_version_preorder(a: Seq<u8>, b: Seq<u8>, c: Seq<u8>)
    ensures
        le(version_cmp_from(a, b, 0, 0)) && le(version_cmp_from(b, c, 0, 0)) ==> le(version_cmp_from(a, c, 0, 0)),
        le(version_cmp_from(a, c, 0, 0)) && le(version_cmp_from(c, b, 0, 0)) ==> le(version_cmp_from(a, b, 0, 0)),
        le(version_cmp_from(b, a, 0, 0)) && le(version_cmp_from(a, c, 0, 0)) ==> le(version_cmp_from(b, c, 0, 0)),
        le(version_cmp_from(b, c, 0, 0)) && le(version_cmp_from(c, a, 0, 0)) ==> le(version_cmp_from(b, a, 0, 0)),
        le(version_cmp_from(c, a, 0, 0)) && le(version_cmp_from(a, b, 0, 0)) ==> le(version_cmp_from(c, b, 0, 0)),
        le(version_cmp_from(c, b, 0, 0)) && le(version_cmp_from(b, a, 0, 0)) ==> le(version_cmp_from(c, a, 0, 0)),
        version_cmp_from(b, a, 0, 0) == flip(version_cmp_from(a, b, 0, 0)),
        version_cmp_from(c, b, 0, 0) == flip(version_cmp_from(b, c, 0, 0)),
        version_cmp_from(c, a, 0, 0) == flip(version_cmp_from(a, c, 0, 0)),
{
    if le(version_cmp_from(a, b, 0, 0)) && le(version_cmp_from(b, c, 0, 0)) {
        lemma_version_cmp_trans(a, b, c, 0, 0, 0);
    }
    if le(version_cmp_from(a, c, 0, 0)) && le(version_cmp_from(c, b, 0, 0)) {
        lemma_version_cmp_trans(a, c, b, 0, 0, 0);
    }
    if le(version_cmp_from(b, a, 0, 0)) && le(version_cmp_from(a, c, 0, 0)) {
        lemma_version_cmp_trans(b, a, c, 0, 0, 0);
    }
    if le(version_cmp_from(b, c, 0, 0)) && le(version_cmp_from(c, a, 0, 0)) {
        lemma_version_cmp_trans(b, c, a, 0, 0, 0);
    }
    if le(version_cmp_from(c, a, 0, 0)) && le(version_cmp_from(a, b, 0, 0)) {
        lemma_version_cmp_trans(c, a, b, 0, 0, 0);
    }
    if le(version_cmp_from(c, b, 0, 0)) && le(version_cmp_from(b, a, 0, 0)) {
        lemma_version_cmp_trans(c, b, a, 0, 0, 0);
    }
    crate::keys::lemma_version_cmp_antisym(a, b, 0, 0);
    crate::keys::lemma_version_cmp_antisym(b, c, 0, 0);
    crate::keys::lemma_version_cmp_antisym(a, c, 0, 0);
}


/// Each collation orders keys by a total preorder.
pub proof fn lemma_collate_preorder(col: Collation, salt: u64, a: Seq<u8>, b: Seq<u8>, d: Seq<u8>)
    ensures
        le(collate_cmp(col, salt, a, b)) && le(collate_cmp(col, salt, b, d)) ==> le(collate_cmp(col, salt, a, d)),
        le(collate_cmp(col, salt, a, d)) && le(collate_cmp(col, salt, d, b)) ==> le(collate_cmp(col, salt, a, b)),
        le(collate_cmp(col, salt, b, a)) && le(collate_cmp(col, salt, a, d)) ==> le(collate_cmp(col, salt, b, d)),
        le(collate_cmp(col, salt, b, d)) && le(collate_cmp(col, salt, d, a)) ==> le(collate_cmp(col, salt, b, a)),
        le(collate_cmp(col, salt, d, a)) && le(collate_cmp(col, salt, a, b)) ==> le(collate_cmp(col, salt, d, b)),
        le(collate_cmp(col, salt, d, b)) && le(collate_cmp(col, salt, b, a)) ==> le(collate_cmp(col, salt, d, a)),
        collate_cmp(col, salt, b, a) == flip(collate_cmp(col, salt, a, b)),
        collate_cmp(col, salt, d, b) == flip(collate_cmp(col, salt, b, d)),
        collate_cmp(col, salt, d, a) == flip(collate_cmp(col, salt, a, d)),
{
    lemma_lex_preorder(normalized(col, a), normalized(col, b), normalized(col, d));
    lemma_numeric_preorder(a, b, d);
    lemma_general_preorder(a, b, d);
    lemma_human_preorder(a, b, d);
    lemma_version_preorder(a, b, d);
    lemma_int_cmp_antisym(key_hash(a, salt), key_hash(b, salt));
    lemma_int_cmp_antisym(key_hash(b, salt), key_hash(d, salt));
    lemma_int_cmp_antisym(key_hash(a, salt), key_hash(d, salt));
    lemma_collate_cmp_antisym(col, salt, a, b);
    lemma_collate_cmp_antisym(col, salt, b, d);
    lemma_collate_cmp_antisym(col, salt, a, d);
}

/// Each key orders records by a total preorder.
pub proof fn lemma_key_preorder(cfg: SortConfig, k: SortKey, a: Seq<u8>, b: Seq<u8>, d: Seq<u8>)
    ensures
        le(key_cmp(cfg, k, a, b)) && le(key_cmp(cfg, k, b, d)) ==> le(key_cmp(cfg, k, a, d)),
        le(key_cmp(cfg, k, a, d)) && le(key_cmp(cfg, k, d, b)) ==> le(key_cmp(cfg, k, a, b)),
        le(key_cmp(cfg, k, b, a)) && le(key_cmp(cfg, k, a, d)) ==> le(key_cmp(cfg, k, b, d)),
        le(key_cmp(cfg, k, b, d)) && le(key_cmp(cfg, k, d, a)) ==> le(key_cmp(cfg, k, b, a)),
        le(key_cmp(cfg, k, d, a)) && le(key_cmp(cfg, k, a, b)) ==> le(key_cmp(cfg, k, d, b)),
        le(key_cmp(cfg, k, d, b)) && le(key_cmp(cfg, k, b, a)) ==> le(key_cmp(cfg, k, d, a)),
        key_cmp(cfg, k, b, a) == flip(key_cmp(cfg, k, a, b)),
        key_cmp(cfg, k, d, b) == flip(key_cmp(cfg, k, b, d)),
        key_cmp(cfg, k, d, a) == flip(key_cmp(cfg, k, a, d)),
{
    let col = key_collation(cfg, k);
    let sep = sep_byte(cfg);
    lemma_collate_preorder(
        col,
        cfg.random_salt,
        key_of(a, sep, k, col.ignore_leading_blanks),
        key_of(b, sep, k, col.ignore_leading_blanks),
        key_of(d, sep, k, col.ignore_leading_blanks),
    );
    lemma_collate_cmp_antisym(key_collation(cfg, k), cfg.random_salt, key_of(a, sep_byte(cfg), k, key_collation(cfg, k).ignore_leading_blanks), key_of(b, sep_byte(cfg), k, key_collation(cfg, k).ignore_leading_blanks));
    lemma_collate_cmp_antisym(key_collation(cfg, k), cfg.random_salt, key_of(b, sep_byte(cfg), k, key_collation(cfg, k).ignore_leading_blanks), key_of(d, sep_byte(cfg), k, key_collation(cfg, k).ignore_leading_blanks));
    lemma_collate_cmp_antisym(key_collation(cfg, k), cfg.random_salt, key_of(a, sep_byte(cfg), k, key_collation(cfg, k).ignore_leading_blanks), key_of(d, sep_byte(cfg), k, key_collation(cfg, k).ignore_leading_blanks));
}

proof fn lemma_keys_cmp_trans(cfg: SortConfig, a: Seq<u8>, b: Seq<u8>, d: Seq<u8>, i: int)
    requires
        le(keys_cmp(cfg, a, b, i)),
        le(keys_cmp(cfg, b, d, i)),
    ensures
        le(keys_cmp(cfg, a, d, i)),
    decreases cfg.keys@.len() - i,
{
    if 0 <= i < cfg.keys@.len() {
        let k = cfg.keys@[i];
        lemma_key_preorder(cfg, k, a, b, d);
        if key_cmp(cfg, k, a, b) is Equal && key_cmp(cfg, k, b, d) is Equal {
            lemma_keys_cmp_trans(cfg, a, b, d, i + 1);
        }
    }
}

/// The key definitions together order records by a total preorder.
pub proof fn lemma_keys_preorder(cfg: SortConfig, a: Seq<u8>, b: Seq<u8>, d: Seq<u8>)
    ensures
        le(keys_cmp(cfg, a, b, 0)) && le(keys_cmp(cfg, b, d, 0)) ==> le(keys_cmp(cfg, a, d, 0)),
        le(keys_cmp(cfg, a, d, 0)) && le(keys_cmp(cfg, d, b, 0)) ==> le(keys_cmp(cfg, a, b, 0)),
        le(keys_cmp(cfg, b, a, 0)) && le(keys_cmp(cfg, a, d, 0)) ==> le(keys_cmp(cfg, b, d, 0)),
        le(keys_cmp(cfg, b, d, 0)) && le(keys_cmp(cfg, d, a, 0)) ==> le(keys_cmp(cfg, b, a, 0)),
        le(keys_cmp(cfg, d, a, 0)) && le(keys_cmp(cfg, a, b, 0)) ==> le(keys_cmp(cfg, d, b, 0)),
        le(keys_cmp(cfg, d, b, 0)) && le(keys_cmp(cfg, b, a, 0)) ==> le(keys_cmp(cfg, d, a, 0)),
        keys_cmp(cfg, b, a, 0) == flip(keys_cmp(cfg, a, b, 0)),
        keys_cmp(cfg, d, b, 0) == flip(keys_cmp(cfg, b, d, 0)),
        keys_cmp(cfg, d, a, 0) == flip(keys_cmp(cfg, a, d, 0)),
{
    if le(keys_cmp(cfg, a, b, 0)) && le(keys_cmp(cfg, b, d, 0)) {
        lemma_keys_cmp_trans(cfg, a, b, d, 0);
    }
    if le(keys_cmp(cfg, a, d, 0)) && le(keys_cmp(cfg, d, b, 0)) {
        lemma_keys_cmp_trans(cfg, a, d, b, 0);
    }
    if le(keys_cmp(cfg, b, a, 0)) && le(keys_cmp(cfg, a, d, 0)) {
        lemma_keys_cmp_trans(cfg, b, a, d, 0);
    }
    if le(keys_cmp(cfg, b, d, 0)) && le(keys_cmp(cfg, d, a, 0)) {
        lemma_keys_cmp_trans(cfg, b, d, a, 0);
    }
    if le(keys_cmp(cfg, d, a, 0)) && le(keys_cmp(cfg, a, b, 0)) {
        lemma_keys_cmp_trans(cfg, d, a, b, 0);
    }
    if le(keys_cmp(cfg, d, b, 0)) && le(keys_cmp(cfg, b, a, 0)) {
        lemma_keys_cmp_trans(cfg, d, b, a, 0);
    }
    lemma_keys_cmp_antisym(cfg, a, b, 0);
    lemma_keys_cmp_antisym(cfg, b, d, 0);
    lemma_keys_cmp_antisym(cfg, a, d, 0);
}

/// Before the last resort and the reverse, records are ordered by a total preorder.
pub proof fn lemma_base_preorder(cfg: SortConfig, a: Seq<u8>, b: Seq<u8>, d: Seq<u8>)
    ensures
        le(base_cmp(cfg, a, b)) && le(base_cmp(cfg, b, d)) ==> le(base_cmp(cfg, a, d)),
        le(base_cmp(cfg, a, d)) && le(base_cmp(cfg, d, b)) ==> le(base_cmp(cfg, a, b)),
        le(base_cmp(cfg, b, a)) && le(base_cmp(cfg, a, d)) ==> le(base_cmp(cfg, b, d)),
        le(base_cmp(cfg, b, d)) && le(base_cmp(cfg, d, a)) ==> le(base_cmp(cfg, b, a)),
        le(base_cmp(cfg, d, a)) && le(base_cmp(cfg, a, b)) ==> le(base_cmp(cfg, d, b)),
        le(base_cmp(cfg, d, b)) && le(base_cmp(cfg, b, a)) ==> le(base_cmp(cfg, d, a)),
        base_cmp(cfg, b, a) == flip(base_cmp(cfg, a, b)),
        base_cmp(cfg, d, b) == flip(base_cmp(cfg, b, d)),
        base_cmp(cfg, d, a) == flip(base_cmp(cfg, a, d)),
{
    lemma_keys_preorder(cfg, a, b, d);
    let col = global_collation(cfg);
    let ta = a.subrange(blank_end(a, 0), a.len() as int);
    let tb = b.subrange(blank_end(b, 0), b.len() as int);
    let td = d.subrange(blank_end(d, 0), d.len() as int);
    lemma_blank_end(a, 0);
    lemma_blank_end(b, 0);
    lemma_blank_end(d, 0);
    lemma_collate_preorder(col, cfg.random_salt, ta, tb, td);
    lemma_collate_preorder(col, cfg.random_salt, a, b, d);
    assert(true);
    assert(true);
    assert(true);
}

/// The comparator is a total preorder: transitive, and flipping when its arguments are swapped.
pub proof fn lemma_record_cmp_preorder(cfg: SortConfig, a: Seq<u8>, b: Seq<u8>, d: Seq<u8>)
    ensures
        le(record_cmp(cfg, a, b)) && le(record_cmp(cfg, b, d)) ==> le(record_cmp(cfg, a, d)),
        le(record_cmp(cfg, a, d)) && le(record_cmp(cfg, d, b)) ==> le(record_cmp(cfg, a, b)),
        le(record_cmp(cfg, b, a)) && le(record_cmp(cfg, a, d)) ==> le(record_cmp(cfg, b, d)),
        le(record_cmp(cfg, b, d)) && le(record_cmp(cfg, d, a)) ==> le(record_cmp(cfg, b, a)),
        le(record_cmp(cfg, d, a)) && le(record_cmp(cfg, a, b)) ==> le(record_cmp(cfg, d, b)),
        le(record_cmp(cfg, d, b)) && le(record_cmp(cfg, b, a)) ==> le(record_cmp(cfg, d, a)),
        record_cmp(cfg, b, a) == flip(record_cmp(cfg, a, b)),
        record_cmp(cfg, d, b) == flip(record_cmp(cfg, b, d)),
        record_cmp(cfg, d, a) == flip(record_cmp(cfg, a, d)),
{
    reveal(record_cmp);
    lemma_base_preorder(cfg, a, b, d);
    lemma_lex_preorder(a, b, d);
    lemma_record_cmp_antisym(cfg, a, b);
    lemma_record_cmp_antisym(cfg, b, d);
    lemma_record_cmp_antisym(cfg, a, d);
}


proof fn lemma_general_magnitude_trans(a: Seq<u8>, b: Seq<u8>, d: Seq<u8>)
    ensures
        le(general_magnitude(a, b)) && le(general_magnitude(b, d)) ==> le(general_magnitude(a, d)),
        general_magnitude(b, a) == flip(general_magnitude(a, b)),
{
    let (ga, gb, gd) = (mantissa_digits(a), mantissa_digits(b), mantissa_digits(d));
    let (fa, fb, fd) = (first_significant(a), first_significant(b), first_significant(d));
    lemma_zero_end_le(ga, 0, ga.len() as int);
    lemma_zero_end_le(gb, 0, gb.len() as int);
    lemma_zero_end_le(gd, 0, gd.len() as int);
    crate::zero_copy::lemma_frac_cmp_antisym(ga, fa, ga.len() as int, gb, fb, gb.len() as int, 0);
    crate::zero_copy::lemma_frac_cmp_antisym(gb, fb, gb.len() as int, gd, fd, gd.len() as int, 0);
    crate::zero_copy::lemma_frac_cmp_antisym(ga, fa, ga.len() as int, gd, fd, gd.len() as int, 0);
    if le(frac_cmp(ga, fa, ga.len() as int, gb, fb, gb.len() as int, 0)) && le(frac_cmp(gb, fb, gb.len() as int, gd, fd, gd.len() as int, 0)) {
        lemma_frac_cmp_trans(ga, fa, ga.len() as int, gb, fb, gb.len() as int, gd, fd, gd.len() as int, 0);
    }
    if le(frac_cmp(gb, fb, gb.len() as int, gd, fd, gd.len() as int, 0)) && le(frac_cmp(gd, fd, gd.len() as int, ga, fa, ga.len() as int, 0)) {
        lemma_frac_cmp_trans(gb, fb, gb.len() as int, gd, fd, gd.len() as int, ga, fa, ga.len() as int, 0);
    }
    if le(frac_cmp(gd, fd, gd.len() as int, ga, fa, ga.len() as int, 0)) && le(frac_cmp(ga, fa, ga.len() as int, gb, fb, gb.len() as int, 0)) {
        lemma_frac_cmp_trans(gd, fd, gd.len() as int, ga, fa, ga.len() as int, gb, fb, gb.len() as int, 0);
    }
}

proof fn lemma_general_cmp_trans(a: Seq<u8>, b: Seq<u8>, d: Seq<u8>)
    requires
        le(general_cmp(a, b)),
        le(general_cmp(b, d)),
    ensures
        le(general_cmp(a, d)),
{
    lemma_general_magnitude_trans(a, b, d);
    lemma_general_magnitude_trans(d, b, a);
    lemma_general_magnitude_trans(b, d, a);
    lemma_general_magnitude_trans(a, d, b);
    lemma_general_magnitude_trans(b, a, d);
    lemma_general_magnitude_trans(d, a, b);
    lemma_lex_preorder(a, b, d);
}

/// General numeric order is a total preorder.
pub proof fn lemma_general_preorder(a: Seq<u8>, b: Seq<u8>, d: Seq<u8>)
    ensures
        le(general_cmp(a, b)) && le(general_cmp(b, d)) ==> le(general_cmp(a, d)),
        le(general_cmp(a, d)) && le(general_cmp(d, b)) ==> le(general_cmp(a, b)),
        le(general_cmp(b, a)) && le(general_cmp(a, d)) ==> le(general_cmp(b, d)),
        le(general_cmp(b, d)) && le(general_cmp(d, a)) ==> le(general_cmp(b, a)),
        le(general_cmp(d, a)) && le(general_cmp(a, b)) ==> le(general_cmp(d, b)),
        le(general_cmp(d, b)) && le(general_cmp(b, a)) ==> le(general_cmp(d, a)),
        general_cmp(b, a) == flip(general_cmp(a, b)),
        general_cmp(d, b) == flip(general_cmp(b, d)),
        general_cmp(d, a) == flip(general_cmp(a, d)),
{
    if le(general_cmp(a, b)) && le(general_cmp(b, d)) {
        lemma_general_cmp_trans(a, b, d);
    }
    if le(general_cmp(a, d)) && le(general_cmp(d, b)) {
        lemma_general_cmp_trans(a, d, b);
    }
    if le(general_cmp(b, a)) && le(general_cmp(a, d)) {
        lemma_general_cmp_trans(b, a, d);
    }
    if le(general_cmp(b, d)) && le(general_cmp(d, a)) {
        lemma_general_cmp_trans(b, d, a);
    }
    if le(general_cmp(d, a)) && le(general_cmp(a, b)) {
        lemma_general_cmp_trans(d, a, b);
    }
    if le(general_cmp(d, b)) && le(general_cmp(b, a)) {
        lemma_general_cmp_trans(d, b, a);
    }
    lemma_general_cmp_antisym(a, b);
    lemma_general_cmp_antisym(b, d);
    lemma_general_cmp_antisym(a, d);
}

} // verus!
