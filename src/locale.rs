//! Comparison under the C locale, the order this library collates in: bytes, or bytes
//! with ASCII case folded. Collation of other locales is left to the caller.
use vstd::prelude::*;
use std::cmp::Ordering;
use crate::config::chars_of;
use crate::simd_compare::{compare_bytes, compare_folded, fold_bytes, lex_cmp};

verus! {

/// The locale that collation follows.
pub struct LocaleConfig {
    /// Whether the locale collates otherwise than by bytes.
    pub enabled: bool,
    pub is_utf8: bool,
    pub locale_name: String,
}

/// `w` occurs in `s` at position `i`.
pub open spec fn occurs_at(s: Seq<char>, w: Seq<char>, i: int) -> bool {
    0 <= i && i + w.len() <= s.len() && s.subrange(i, i + w.len()) == w
}

/// The name marks a UTF-8 locale: it holds `UTF-8` or `utf8`.
pub open spec fn names_utf8(name: Seq<char>) -> bool {
    (exists|i: int| occurs_at(name, "UTF-8"@, i)) || (exists|i: int| occurs_at(name, "utf8"@, i))
}

/// Whether `w` occurs in `s`.
fn contains_text(s: &Vec<char>, w: &Vec<char>) -> (r: bool)
    ensures
        r == exists|i: int| occurs_at(s@, w@, i),
{
    if w.len() > s.len() {
        return false;
    }
    let n = s.len();
    let mut i: usize = 0;
    while i <= n - w.len()
        invariant
            n == s@.len(),
            w@.len() <= s@.len(),
            i <= s@.len() - w@.len() + 1,
            forall|j: int| 0 <= j < i ==> !occurs_at(s@, w@, j),
        decreases s@.len() - w@.len() + 1 - i,
    {
        let mut k: usize = 0;
        while k < w.len() && s[i + k] == w[k]
            invariant
                n == s@.len(),
                i + w@.len() <= s@.len(),
                k <= w@.len(),
                forall|m: int| 0 <= m < k ==> s@[i + m] == w@[m],
            decreases w@.len() - k,
        {
            k = k + 1;
        }
        if k == w.len() {
            assert(s@.subrange(i as int, i + w@.len()) =~= w@);
            assert(occurs_at(s@, w@, i as int));
            return true;
        }
        assert(s@.subrange(i as int, i + w@.len())[k as int] != w@[k as int]);
        i = i + 1;
    }
    false
}

/// `C` and `POSIX` (and no name at all) collate by bytes.
pub open spec fn is_byte_locale(name: Seq<char>) -> bool {
    name.len() == 0 || name == "C"@ || name == "POSIX"@
}

impl LocaleConfig {
    /// The configuration for a locale name such as `C` or `en_US.UTF-8`.
    pub fn from_name(name: &str) -> (r: LocaleConfig)
        ensures
            r.enabled == !is_byte_locale(name@),
            r.is_utf8 == names_utf8(name@),
            r.locale_name@ == name@,
    {
        let text = chars_of(name);
        let utf8_upper = chars_of("UTF-8");
        let utf8_lower = chars_of("utf8");
        let is_utf8 = contains_text(&text, &utf8_upper) || contains_text(&text, &utf8_lower);
        proof {
            reveal_strlit("C");
            reveal_strlit("POSIX");
        }
        let n = name.unicode_len();
        let byte_order = if n == 0 {
            true
        } else if n == 1 {
            let c = name.get_char(0);
            if c == 'C' {
                assert(name@ =~= "C"@);
            } else {
                assert(name@[0] != "C"@[0]);
            }
            assert(name@ != "POSIX"@);
            c == 'C'
        } else if n == 5 {
            let a = name.get_char(0);
            let b = name.get_char(1);
            let c = name.get_char(2);
            let d = name.get_char(3);
            let e = name.get_char(4);
            let hit = a == 'P' && b == 'O' && c == 'S' && d == 'I' && e == 'X';
            if hit {
                assert(name@ =~= "POSIX"@);
            } else {
                assert(name@ != "POSIX"@) by {
                    if name@ == "POSIX"@ {
                        assert(name@[0] == 'P' && name@[1] == 'O' && name@[2] == 'S' && name@[3] == 'I'
                            && name@[4] == 'X');
                    }
                }
            }
            hit
        } else {
            false
        };
        LocaleConfig { enabled: !byte_order, is_utf8, locale_name: name.to_owned() }
    }

    pub fn is_enabled(&self) -> (r: bool)
        ensures
            r == self.enabled,
    {
        self.enabled
    }
}

/// Byte order with ASCII case folded.
fn case_insensitive_byte_compare(a: &[u8], b: &[u8]) -> (r: Ordering)
    ensures
        r == lex_cmp(fold_bytes(a@), fold_bytes(b@)),
{
    compare_folded(a, b)
}

/// Case-insensitive comparison in the C locale: byte order with ASCII case folded.
pub fn strcasecoll_compare(a: &[u8], b: &[u8]) -> (r: Ordering)
    ensures
        r == lex_cmp(fold_bytes(a@), fold_bytes(b@)),
{
    case_insensitive_byte_compare(a, b)
}

/// Comparison in the C locale, with ASCII case folded where asked.
pub fn smart_compare(a: &[u8], b: &[u8], ignore_case: bool) -> (r: Ordering)
    ensures
        r == if ignore_case { lex_cmp(fold_bytes(a@), fold_bytes(b@)) } else { lex_cmp(a@, b@) },
{
    if ignore_case {
        case_insensitive_byte_compare(a, b)
    } else {
        compare_bytes(a, b)
    }
}

} // verus!
