//! Byte-order comparisons: plain, with ASCII case folded, and the digit test.
use vstd::prelude::*;
use std::cmp::Ordering;

verus! {

/// The opposite outcome of a comparison.
pub open spec fn flip(o: Ordering) -> Ordering {
    match o {
        Ordering::Less => Ordering::Greater,
        Ordering::Greater => Ordering::Less,
        Ordering::Equal => Ordering::Equal,
    }
}

/// Byte order of `a[i..]` and `b[i..]`: the first differing byte decides, and a proper
/// prefix comes first.
pub open spec fn lex_cmp_from(a: Seq<u8>, b: Seq<u8>, i: int) -> Ordering
    decreases a.len() - i,
{
    if i < 0 {
        Ordering::Equal
    } else if i >= a.len() {
        if i >= b.len() {
            Ordering::Equal
        } else {
            Ordering::Less
        }
    } else if i >= b.len() {
        Ordering::Greater
    } else if a[i] < b[i] {
        Ordering::Less
    } else if a[i] > b[i] {
        Ordering::Greater
    } else {
        lex_cmp_from(a, b, i + 1)
    }
}

/// Byte order (the order of the C locale).
pub open spec fn lex_cmp(a: Seq<u8>, b: Seq<u8>) -> Ordering {
    lex_cmp_from(a, b, 0)
}

/// Swapping the arguments of the byte order flips its outcome.
pub proof fn lemma_lex_cmp_antisym(a: Seq<u8>, b: Seq<u8>, i: int)
    requires
        0 <= i,
    ensures
        lex_cmp_from(b, a, i) == flip(lex_cmp_from(a, b, i)),
    decreases a.len() - i,
{
    if i < a.len() && i < b.len() && a[i] == b[i] {
        lemma_lex_cmp_antisym(a, b, i + 1);
    }
}

/// Only equal sequences are equal in byte order.
pub proof fn lemma_lex_cmp_equal(a: Seq<u8>, b: Seq<u8>, i: int)
    requires
        0 <= i <= a.len(),
        i <= b.len(),
        a.subrange(0, i) == b.subrange(0, i),
        lex_cmp_from(a, b, i) == Ordering::Equal,
    ensures
        a == b,
    decreases a.len() - i,
{
    if i < a.len() {
        assert(a.subrange(0, i + 1) =~= a.subrange(0, i).push(a[i]));
        assert(b.subrange(0, i + 1) =~= b.subrange(0, i).push(b[i]));
        lemma_lex_cmp_equal(a, b, i + 1);
    } else {
        assert(a =~= a.subrange(0, i));
        assert(b =~= b.subrange(0, i));
    }
}

/// A sequence is equal to itself in byte order.
pub proof fn lemma_lex_cmp_refl(a: Seq<u8>, i: int)
    requires
        0 <= i,
    ensures
        lex_cmp_from(a, a, i) == Ordering::Equal,
    decreases a.len() - i,
{
    if i < a.len() {
        lemma_lex_cmp_refl(a, i + 1);
    }
}

/// ASCII upper-case letters become lower case; other bytes stay.
pub open spec fn fold_byte(c: u8) -> u8 {
    if 65 <= c <= 90 {
        (c + 32) as u8
    } else {
        c
    }
}

pub open spec fn fold_bytes(s: Seq<u8>) -> Seq<u8> {
    s.map_values(|c: u8| fold_byte(c))
}

pub open spec fn is_digit_byte(c: u8) -> bool {
    48 <= c <= 57
}

pub fn to_lower_byte(c: u8) -> (r: u8)
    ensures
        r == fold_byte(c),
{
    if 65 <= c && c <= 90 {
        c + 32
    } else {
        c
    }
}

/// Byte order of `a` and `b`.
pub fn compare_bytes(a: &[u8], b: &[u8]) -> (r: Ordering)
    ensures
        r == lex_cmp(a@, b@),
{
    let mut i: usize = 0;
    while i < a.len() && i < b.len()
        invariant
            i <= a@.len(),
            i <= b@.len(),
            lex_cmp(a@, b@) == lex_cmp_from(a@, b@, i as int),
        decreases a@.len() - i,
    {
        if a[i] < b[i] {
            return Ordering::Less;
        }
        if a[i] > b[i] {
            return Ordering::Greater;
        }
        i = i + 1;
    }
    if i < a.len() {
        Ordering::Greater
    } else if i < b.len() {
        Ordering::Less
    } else {
        Ordering::Equal
    }
}

/// Byte order of `a` and `b` with ASCII letters folded to lower case.
pub fn compare_folded(a: &[u8], b: &[u8]) -> (r: Ordering)
    ensures
        r == lex_cmp(fold_bytes(a@), fold_bytes(b@)),
{
    let ghost fa = fold_bytes(a@);
    let ghost fb = fold_bytes(b@);
    let mut i: usize = 0;
    while i < a.len() && i < b.len()
        invariant
            i <= a@.len(),
            i <= b@.len(),
            fa == fold_bytes(a@),
            fb == fold_bytes(b@),
            lex_cmp(fa, fb) == lex_cmp_from(fa, fb, i as int),
        decreases a@.len() - i,
    {
        let x = to_lower_byte(a[i]);
        let y = to_lower_byte(b[i]);
        assert(fa[i as int] == x && fb[i as int] == y);
        if x < y {
            return Ordering::Less;
        }
        if x > y {
            return Ordering::Greater;
        }
        i = i + 1;
    }
    if i < a.len() {
        Ordering::Greater
    } else if i < b.len() {
        Ordering::Less
    } else {
        Ordering::Equal
    }
}

/// Comparisons over whole byte strings.
pub struct SIMDCompare;

impl SIMDCompare {
    /// Byte order of `a` and `b`.
    pub fn compare_bytes_simd(a: &[u8], b: &[u8]) -> (r: Ordering)
        ensures
            r == lex_cmp(a@, b@),
    {
        compare_bytes(a, b)
    }

    /// Byte order of `a` and `b` with ASCII case folded.
    pub fn compare_case_insensitive_simd(a: &[u8], b: &[u8]) -> (r: Ordering)
        ensures
            r == lex_cmp(fold_bytes(a@), fold_bytes(b@)),
    {
        compare_folded(a, b)
    }

    /// Whether every byte is an ASCII digit (true of the empty string).
    pub fn is_all_digits_simd(bytes: &[u8]) -> (r: bool)
        ensures
            r == forall|i: int| 0 <= i < bytes@.len() ==> is_digit_byte(#[trigger] bytes@[i]),
    {
        let mut i: usize = 0;
        while i < bytes.len()
            invariant
                i <= bytes@.len(),
                forall|k: int| 0 <= k < i ==> is_digit_byte(#[trigger] bytes@[k]),
            decreases bytes@.len() - i,
        {
            if !(48 <= bytes[i] && bytes[i] <= 57) {
                return false;
            }
            i = i + 1;
        }
        true
    }
}

} // verus!
