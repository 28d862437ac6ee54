//! The comparator: key extraction from a record and the order of each mode.
use vstd::prelude::*;
use std::cmp::Ordering;
use crate::config::{no_key_options, SortConfig, SortKey, SortMode};
use crate::simd_compare::{
    compare_bytes, compare_folded, flip, fold_bytes, is_digit_byte, lemma_lex_cmp_antisym,
    lex_cmp,
};
use crate::zero_copy::{
    blank_end, compare_integer_parts, compare_magnitude, compare_numeric_bytes, digit_end,
    int_digits_cmp, is_blank, lemma_numeric_cmp_antisym, lemma_seg_cmp_antisym, magnitude_cmp,
    num_frac_hi, num_negative, num_valid, number_parts, numeric_cmp, skip_digits,
    skip_leading_zeros, skip_whitespace, term_pos, zero_end,
};

verus! {

// ----- fields -----

/// First position at or after `i` that is a blank, or the length.
pub open spec fn nonblank_end(s: Seq<u8>, i: int) -> int
    decreases s.len() - i,
{
    if 0 <= i < s.len() && !is_blank(s[i]) {
        nonblank_end(s, i + 1)
    } else {
        i
    }
}

/// End of the field that begins at `pos`: the next separator, or, without a separator,
/// the end of the blanks and then of the non-blanks that follow.
pub open spec fn field_end_at(s: Seq<u8>, sep: Option<u8>, pos: int) -> int {
    match sep {
        Some(c) => term_pos(s, c, pos),
        None => nonblank_end(s, blank_end(s, pos)),
    }
}

/// Where the field after the one that begins at `pos` begins.
pub open spec fn next_field(s: Seq<u8>, sep: Option<u8>, pos: int) -> int {
    let e = field_end_at(s, sep, pos);
    match sep {
        Some(c) => if e < s.len() { e + 1 } else { s.len() as int },
        None => e,
    }
}

/// Where field `k` (from 1) begins; without a separator a field begins with the blanks
/// before it.
pub open spec fn field_begin(s: Seq<u8>, sep: Option<u8>, k: nat) -> int
    decreases k,
{
    if k <= 1 {
        0
    } else {
        next_field(s, sep, field_begin(s, sep, (k - 1) as nat))
    }
}

pub open spec fn field_end(s: Seq<u8>, sep: Option<u8>, k: nat) -> int {
    field_end_at(s, sep, field_begin(s, sep, k))
}

pub open spec fn min_int(a: int, b: int) -> int {
    if a < b {
        a
    } else {
        b
    }
}

/// Where the key begins: the start character (clamped to its field), or the field.
pub open spec fn key_start(s: Seq<u8>, sep: Option<u8>, k: SortKey) -> int {
    let fb = field_begin(s, sep, k.start_field as nat);
    let fe = field_end(s, sep, k.start_field as nat);
    match k.start_char {
        Some(c) => if c == 0 { fb } else { min_int(fb + c - 1, fe) },
        None => fb,
    }
}

/// Where the key ends: the end of the record, or of the end field, or the end
/// character (clamped to its field).
pub open spec fn key_end(s: Seq<u8>, sep: Option<u8>, k: SortKey) -> int {
    match k.end_field {
        None => s.len() as int,
        Some(ef) => {
            let eb = field_begin(s, sep, ef as nat);
            let ee = field_end(s, sep, ef as nat);
            match k.end_char {
                Some(c) => min_int(eb + c, ee),
                None => ee,
            }
        },
    }
}

/// The bounds of the key in the record; an end before the start gives an empty key,
/// and leading blanks are dropped where the key asks for it.
pub open spec fn key_bounds(s: Seq<u8>, sep: Option<u8>, k: SortKey, skip_blanks: bool) -> (int, int) {
    let st = key_start(s, sep, k);
    let en = key_end(s, sep, k);
    let en2 = if en < st { st } else { en };
    let st2 = if skip_blanks { min_int(blank_end(s, st), en2) } else { st };
    (st2, en2)
}

// ----- the order of each mode -----

/// How one key (or the whole record) is compared.
#[derive(Debug, Clone, Copy, PartialEq, Eq, Structural)]
pub struct Collation {
    pub mode: SortMode,
    pub ignore_case: bool,
    pub dictionary_order: bool,
    pub ignore_leading_blanks: bool,
    pub reverse: bool,
}

/// The collation of the whole record from the global options (the global reverse is
/// applied last, to the whole comparison).
pub open spec fn global_collation(c: SortConfig) -> Collation {
    Collation {
        mode: c.mode,
        ignore_case: c.ignore_case,
        dictionary_order: c.dictionary_order,
        ignore_leading_blanks: c.ignore_leading_blanks,
        reverse: false,
    }
}

/// The collation of a key: its own options, or the global ones where it has none.
pub open spec fn key_collation(c: SortConfig, k: SortKey) -> Collation {
    let o = k.options;
    if o == no_key_options() {
        global_collation(c)
    } else {
        Collation {
            mode: if o.numeric {
                SortMode::Numeric
            } else if o.general_numeric {
                SortMode::GeneralNumeric
            } else if o.human_numeric {
                SortMode::HumanNumeric
            } else if o.month {
                SortMode::Month
            } else if o.version {
                SortMode::Version
            } else if o.random {
                SortMode::Random
            } else {
                SortMode::Lexicographic
            },
            ignore_case: o.ignore_case,
            dictionary_order: o.dictionary_order,
            ignore_leading_blanks: o.ignore_leading_blanks,
            reverse: o.reverse,
        }
    }
}

/// Blanks and ASCII letters and digits: what dictionary order looks at.
pub open spec fn is_dict_byte(c: u8) -> bool {
    is_blank(c) || (48 <= c <= 57) || (65 <= c <= 90) || (97 <= c <= 122)
}

/// The bytes that dictionary order keeps, in order.
pub open spec fn dict_filter(s: Seq<u8>) -> Seq<u8>
    decreases s.len(),
{
    if s.len() == 0 {
        s
    } else if is_dict_byte(s.last()) {
        dict_filter(s.drop_last()).push(s.last())
    } else {
        dict_filter(s.drop_last())
    }
}

/// What the byte order of a collation compares.
pub open spec fn normalized(c: Collation, s: Seq<u8>) -> Seq<u8> {
    let d = if c.dictionary_order { dict_filter(s) } else { s };
    if c.ignore_case { fold_bytes(d) } else { d }
}

/// Rank of a size suffix: none, K, M, G, T, P, E, Z, Y.
pub open spec fn suffix_rank(c: u8) -> int {
    if c == 75 || c == 107 {
        1
    } else if c == 77 {
        2
    } else if c == 71 {
        3
    } else if c == 84 {
        4
    } else if c == 80 {
        5
    } else if c == 69 {
        6
    } else if c == 90 {
        7
    } else if c == 89 {
        8
    } else {
        0
    }
}

pub open spec fn human_rank(s: Seq<u8>) -> int {
    let f = num_frac_hi(s);
    if 0 <= f < s.len() {
        suffix_rank(s[f])
    } else {
        0
    }
}

pub open spec fn int_cmp(x: int, y: int) -> Ordering {
    if x < y {
        Ordering::Less
    } else if x > y {
        Ordering::Greater
    } else {
        Ordering::Equal
    }
}

/// Order of sizes such as `2K` and `1G`: by sign, then suffix, then number.
pub open spec fn human_cmp(a: Seq<u8>, b: Seq<u8>) -> Ordering {
    if !num_valid(a) && !num_valid(b) {
        Ordering::Equal
    } else if !num_valid(a) {
        Ordering::Less
    } else if !num_valid(b) {
        Ordering::Greater
    } else if num_negative(a) && !num_negative(b) {
        Ordering::Less
    } else if !num_negative(a) && num_negative(b) {
        Ordering::Greater
    } else {
        let m = match int_cmp(human_rank(a), human_rank(b)) {
            Ordering::Equal => magnitude_cmp(a, b),
            o => o,
        };
        if num_negative(a) { flip(m) } else { m }
    }
}

pub open spec fn upper_byte(c: u8) -> u8 {
    if 97 <= c <= 122 {
        (c - 32) as u8
    } else {
        c
    }
}

/// The month (1 to 12) that three letters name, in either case; 0 for anything else.
pub open spec fn month_of(x: u8, y: u8, z: u8) -> int {
    let (a, b, c) = (upper_byte(x), upper_byte(y), upper_byte(z));
    if a == 74 && b == 65 && c == 78 {
        1
    } else if a == 70 && b == 69 && c == 66 {
        2
    } else if a == 77 && b == 65 && c == 82 {
        3
    } else if a == 65 && b == 80 && c == 82 {
        4
    } else if a == 77 && b == 65 && c == 89 {
        5
    } else if a == 74 && b == 85 && c == 78 {
        6
    } else if a == 74 && b == 85 && c == 76 {
        7
    } else if a == 65 && b == 85 && c == 71 {
        8
    } else if a == 83 && b == 69 && c == 80 {
        9
    } else if a == 79 && b == 67 && c == 84 {
        10
    } else if a == 78 && b == 79 && c == 86 {
        11
    } else if a == 68 && b == 69 && c == 67 {
        12
    } else {
        0
    }
}

/// The month that the record starts with, after blanks; 0 (before January) if none.
pub open spec fn month_num(s: Seq<u8>) -> int {
    let p = blank_end(s, 0);
    if 0 <= p && p + 3 <= s.len() {
        month_of(s[p], s[p + 1], s[p + 2])
    } else {
        0
    }
}

/// Version order of `a[i..]` and `b[j..]`: runs of digits compare as numbers, other
/// bytes one by one, and a digit comes before any other byte.
pub open spec fn version_cmp_from(a: Seq<u8>, b: Seq<u8>, i: int, j: int) -> Ordering
    decreases (a.len() - i) + (b.len() - j),
{
    if i < 0 || j < 0 || (i >= a.len() && j >= b.len()) {
        Ordering::Equal
    } else if i >= a.len() {
        Ordering::Less
    } else if j >= b.len() {
        Ordering::Greater
    } else if is_digit_byte(a[i]) && is_digit_byte(b[j]) {
        let ea = digit_end(a, i);
        let eb = digit_end(b, j);
        if ea <= i || eb <= j || ea > a.len() || eb > b.len() {
            Ordering::Equal
        } else {
            match int_digits_cmp(a, zero_end(a, i, ea), ea, b, zero_end(b, j, eb), eb) {
                Ordering::Equal => version_cmp_from(a, b, ea, eb),
                o => o,
            }
        }
    } else if is_digit_byte(a[i]) {
        Ordering::Less
    } else if is_digit_byte(b[j]) {
        Ordering::Greater
    } else if a[i] < b[j] {
        Ordering::Less
    } else if a[i] > b[j] {
        Ordering::Greater
    } else {
        version_cmp_from(a, b, i + 1, j + 1)
    }
}

/// Modulus and multiplier of the record hash of random mode.
pub const HASH_MODULUS: u64 = 4294967291;
pub const HASH_BASE: u64 = 257;

/// Hash of the first `n` bytes of `s`, starting from the salt.
pub open spec fn hash_prefix(s: Seq<u8>, n: int, salt: u64) -> int
    decreases n,
{
    if n <= 0 {
        salt as int % HASH_MODULUS as int
    } else {
        (hash_prefix(s, n - 1, salt) * HASH_BASE + s[n - 1] + 1) % HASH_MODULUS as int
    }
}

pub open spec fn key_hash(s: Seq<u8>, salt: u64) -> int {
    hash_prefix(s, s.len() as int, salt)
}

/// Order of two keys under one collation, before its reverse.
pub open spec fn collate_cmp(c: Collation, salt: u64, a: Seq<u8>, b: Seq<u8>) -> Ordering {
    match c.mode {
        SortMode::Numeric => numeric_cmp(a, b),
        SortMode::GeneralNumeric => crate::general_numeric::general_cmp(a, b),
        SortMode::HumanNumeric => human_cmp(a, b),
        SortMode::Month => int_cmp(month_num(a), month_num(b)),
        SortMode::Version => version_cmp_from(a, b, 0, 0),
        SortMode::Random => match int_cmp(key_hash(a, salt), key_hash(b, salt)) {
            Ordering::Equal => lex_cmp(normalized(c, a), normalized(c, b)),
            o => o,
        },
        SortMode::Lexicographic => lex_cmp(normalized(c, a), normalized(c, b)),
    }
}

/// The key of a record under a key definition.
pub open spec fn key_of(s: Seq<u8>, sep: Option<u8>, k: SortKey, skip_blanks: bool) -> Seq<u8> {
    let (st, en) = key_bounds(s, sep, k, skip_blanks);
    s.subrange(st, en)
}

/// The field separator as a byte.
pub open spec fn sep_byte(c: SortConfig) -> Option<u8> {
    match c.field_separator {
        Some(ch) => Some(ch as u8),
        None => None,
    }
}

/// Order of two records under one key definition.
pub open spec fn key_cmp(c: SortConfig, k: SortKey, a: Seq<u8>, b: Seq<u8>) -> Ordering {
    let col = key_collation(c, k);
    let sep = sep_byte(c);
    let o = collate_cmp(
        col,
        c.random_salt,
        key_of(a, sep, k, col.ignore_leading_blanks),
        key_of(b, sep, k, col.ignore_leading_blanks),
    );
    if col.reverse { flip(o) } else { o }
}

/// Order under the key definitions from the `i`-th on: the first that tells the
/// records apart decides.
pub open spec fn keys_cmp(c: SortConfig, a: Seq<u8>, b: Seq<u8>, i: int) -> Ordering
    decreases c.keys@.len() - i,
{
    if i < 0 || i >= c.keys@.len() {
        Ordering::Equal
    } else {
        match key_cmp(c, c.keys@[i], a, b) {
            Ordering::Equal => keys_cmp(c, a, b, i + 1),
            o => o,
        }
    }
}

/// Order of two records before the last-resort comparison and the global reverse.
pub open spec fn base_cmp(c: SortConfig, a: Seq<u8>, b: Seq<u8>) -> Ordering {
    if c.keys@.len() == 0 {
        let col = global_collation(c);
        let (a2, b2) = if col.ignore_leading_blanks {
            (a.subrange(blank_end(a, 0), a.len() as int), b.subrange(blank_end(b, 0), b.len() as int))
        } else {
            (a, b)
        };
        collate_cmp(col, c.random_salt, a2, b2)
    } else {
        keys_cmp(c, a, b, 0)
    }
}

/// The comparator of a run: the keys (or the whole record), then, unless stable or
/// unique output is asked for, the byte order of whole records; reversed last where
/// asked.
#[verifier::opaque]
pub open spec fn record_cmp(c: SortConfig, a: Seq<u8>, b: Seq<u8>) -> Ordering {
    let base = base_cmp(c, a, b);
    let tie = match base {
        Ordering::Equal => if c.stable || c.unique { Ordering::Equal } else { lex_cmp(a, b) },
        o => o,
    };
    if c.reverse { flip(tie) } else { tie }
}


// ----- swapping the records flips the order -----

pub proof fn lemma_int_cmp_antisym(x: int, y: int)
    ensures
        int_cmp(y, x) == flip(int_cmp(x, y)),
{
}

pub proof fn lemma_int_digits_cmp_antisym(a: Seq<u8>, alo: int, ahi: int, b: Seq<u8>, blo: int, bhi: int)
    ensures
        int_digits_cmp(b, blo, bhi, a, alo, ahi) == flip(int_digits_cmp(a, alo, ahi, b, blo, bhi)),
{
    lemma_seg_cmp_antisym(a, alo, b, blo, ahi - alo);
}

pub proof fn lemma_version_cmp_antisym(a: Seq<u8>, b: Seq<u8>, i: int, j: int)
    ensures
        version_cmp_from(b, a, j, i) == flip(version_cmp_from(a, b, i, j)),
    decreases (a.len() - i) + (b.len() - j),
{
    if !(i < 0 || j < 0 || (i >= a.len() && j >= b.len())) && i < a.len() && j < b.len() {
        if is_digit_byte(a[i]) && is_digit_byte(b[j]) {
            let ea = digit_end(a, i);
            let eb = digit_end(b, j);
            if !(ea <= i || eb <= j || ea > a.len() || eb > b.len()) {
                lemma_int_digits_cmp_antisym(a, zero_end(a, i, ea), ea, b, zero_end(b, j, eb), eb);
                lemma_version_cmp_antisym(a, b, ea, eb);
            }
        } else if !is_digit_byte(a[i]) && !is_digit_byte(b[j]) && a[i] == b[j] {
            lemma_version_cmp_antisym(a, b, i + 1, j + 1);
        }
    }
}

pub proof fn lemma_human_cmp_antisym(a: Seq<u8>, b: Seq<u8>)
    ensures
        human_cmp(b, a) == flip(human_cmp(a, b)),
{
    lemma_int_cmp_antisym(human_rank(a), human_rank(b));
    crate::zero_copy::lemma_magnitude_cmp_antisym(a, b);
}

/// Swapping the keys flips the order of a collation.
pub proof fn lemma_collate_cmp_antisym(c: Collation, salt: u64, a: Seq<u8>, b: Seq<u8>)
    ensures
        collate_cmp(c, salt, b, a) == flip(collate_cmp(c, salt, a, b)),
{
    lemma_lex_cmp_antisym(normalized(c, a), normalized(c, b), 0);
    lemma_numeric_cmp_antisym(a, b);
    crate::general_numeric::lemma_general_cmp_antisym(a, b);
    lemma_human_cmp_antisym(a, b);
    lemma_int_cmp_antisym(month_num(a), month_num(b));
    lemma_version_cmp_antisym(a, b, 0, 0);
    lemma_int_cmp_antisym(key_hash(a, salt), key_hash(b, salt));
}

pub proof fn lemma_keys_cmp_antisym(c: SortConfig, a: Seq<u8>, b: Seq<u8>, i: int)
    ensures
        keys_cmp(c, b, a, i) == flip(keys_cmp(c, a, b, i)),
    decreases c.keys@.len() - i,
{
    if 0 <= i < c.keys@.len() {
        let k = c.keys@[i];
        let col = key_collation(c, k);
        let sep = sep_byte(c);
        lemma_collate_cmp_antisym(
            col,
            c.random_salt,
            key_of(a, sep, k, col.ignore_leading_blanks),
            key_of(b, sep, k, col.ignore_leading_blanks),
        );
        lemma_keys_cmp_antisym(c, a, b, i + 1);
    }
}

/// Swapping the records flips the comparator's outcome: `compare(a, b)` is the
/// opposite of `compare(b, a)`.
pub proof fn lemma_record_cmp_antisym(c: SortConfig, a: Seq<u8>, b: Seq<u8>)
    ensures
        record_cmp(c, b, a) == flip(record_cmp(c, a, b)),
{
    reveal(record_cmp);
    lemma_keys_cmp_antisym(c, a, b, 0);
    let col = global_collation(c);
    if col.ignore_leading_blanks {
        lemma_collate_cmp_antisym(
            col,
            c.random_salt,
            a.subrange(blank_end(a, 0), a.len() as int),
            b.subrange(blank_end(b, 0), b.len() as int),
        );
    } else {
        lemma_collate_cmp_antisym(col, c.random_salt, a, b);
    }
    lemma_lex_cmp_antisym(a, b, 0);
}

// ----- finding fields -----

proof fn lemma_nonblank_end(s: Seq<u8>, i: int)
    requires
        0 <= i <= s.len(),
    ensures
        i <= nonblank_end(s, i) <= s.len(),
    decreases s.len() - i,
{
    if i < s.len() && !is_blank(s[i]) {
        lemma_nonblank_end(s, i + 1);
    }
}

proof fn lemma_field_end_at(s: Seq<u8>, sep: Option<u8>, pos: int)
    requires
        0 <= pos <= s.len(),
    ensures
        pos <= field_end_at(s, sep, pos) <= s.len(),
        pos <= next_field(s, sep, pos) <= s.len(),
        pos == s.len() ==> next_field(s, sep, pos) == s.len(),
{
    match sep {
        Some(c) => {
            crate::zero_copy::lemma_term_pos_bounds(s, c, pos);
        },
        None => {
            crate::zero_copy::lemma_blank_end(s, pos);
            lemma_nonblank_end(s, blank_end(s, pos));
        },
    }
}

proof fn lemma_field_begin_bounds(s: Seq<u8>, sep: Option<u8>, k: nat)
    ensures
        0 <= field_begin(s, sep, k) <= s.len(),
        field_begin(s, sep, k) <= field_end(s, sep, k) <= s.len(),
    decreases k,
{
    if k > 1 {
        lemma_field_begin_bounds(s, sep, (k - 1) as nat);
        lemma_field_end_at(s, sep, field_begin(s, sep, (k - 1) as nat));
    }
    lemma_field_end_at(s, sep, field_begin(s, sep, k));
}

proof fn lemma_field_begin_stays(s: Seq<u8>, sep: Option<u8>, j: nat, k: nat)
    requires
        1 <= j <= k,
        field_begin(s, sep, j) == s.len(),
    ensures
        field_begin(s, sep, k) == s.len(),
    decreases k - j,
{
    if k > j {
        lemma_field_begin_stays(s, sep, j, (k - 1) as nat);
        lemma_field_end_at(s, sep, s.len() as int);
    }
}

fn nonblank_end_exec(s: &[u8], i: usize) -> (r: usize)
    requires
        i <= s@.len(),
    ensures
        r == nonblank_end(s@, i as int),
{
    let mut j = i;
    while j < s.len() && !(s[j] == 32 || s[j] == 9)
        invariant
            i <= j <= s@.len(),
            nonblank_end(s@, i as int) == nonblank_end(s@, j as int),
        decreases s@.len() - j,
    {
        j = j + 1;
    }
    j
}

fn find_byte(s: &[u8], c: u8, i: usize) -> (r: usize)
    requires
        i <= s@.len(),
    ensures
        r == term_pos(s@, c, i as int),
{
    let mut j = i;
    while j < s.len() && s[j] != c
        invariant
            i <= j <= s@.len(),
            term_pos(s@, c, i as int) == term_pos(s@, c, j as int),
        decreases s@.len() - j,
    {
        j = j + 1;
    }
    j
}

fn field_end_at_exec(s: &[u8], sep: Option<u8>, pos: usize) -> (r: usize)
    requires
        pos <= s@.len(),
    ensures
        r == field_end_at(s@, sep, pos as int),
{
    match sep {
        Some(c) => find_byte(s, c, pos),
        None => {
            let b = skip_whitespace(s, pos);
            nonblank_end_exec(s, b)
        },
    }
}

/// Where field `k` (from 1) of the record begins.
pub fn field_begin_exec(s: &[u8], sep: Option<u8>, k: usize) -> (r: usize)
    ensures
        r == field_begin(s@, sep, k as nat),
{
    let mut pos: usize = 0;
    let mut j: usize = 1;
    while j < k && pos < s.len()
        invariant
            1 <= j,
            j <= k || j == 1,
            pos == field_begin(s@, sep, j as nat),
            pos <= s@.len(),
        decreases k - j,
    {
        proof {
            lemma_field_end_at(s@, sep, pos as int);
        }
        let e = field_end_at_exec(s, sep, pos);
        pos = match sep {
            Some(_) => if e < s.len() {
                e + 1
            } else {
                s.len()
            },
            None => e,
        };
        j = j + 1;
    }
    proof {
        if j < k {
            lemma_field_begin_stays(s@, sep, j as nat, k as nat);
        }
    }
    pos
}

/// The bounds of the key in the record.
pub fn key_bounds_exec(s: &[u8], sep: Option<u8>, k: &SortKey, skip_blanks: bool) -> (r: (usize, usize))
    ensures
        r.0 as int == key_bounds(s@, sep, *k, skip_blanks).0,
        r.1 as int == key_bounds(s@, sep, *k, skip_blanks).1,
        r.0 <= r.1 <= s@.len(),
{
    proof {
        lemma_field_begin_bounds(s@, sep, k.start_field as nat);
    }
    let fb = field_begin_exec(s, sep, k.start_field);
    let fe = field_end_at_exec(s, sep, fb);
    let st: usize = match k.start_char {
        Some(c) => if c == 0 {
            fb
        } else if c - 1 >= fe - fb {
            fe
        } else {
            fb + (c - 1)
        },
        None => fb,
    };
    let en: usize = match k.end_field {
        None => s.len(),
        Some(ef) => {
            proof {
                lemma_field_begin_bounds(s@, sep, ef as nat);
            }
            let eb = field_begin_exec(s, sep, ef);
            let ee = field_end_at_exec(s, sep, eb);
            match k.end_char {
                Some(c) => if c >= ee - eb {
                    ee
                } else {
                    eb + c
                },
                None => ee,
            }
        },
    };
    let en2 = if en < st {
        st
    } else {
        en
    };
    let st2 = if skip_blanks {
        proof {
            crate::zero_copy::lemma_blank_end(s@, st as int);
        }
        let b = skip_whitespace(s, st);
        if b < en2 {
            b
        } else {
            en2
        }
    } else {
        st
    };
    (st2, en2)
}

// ----- comparing keys -----

fn dict_filter_exec(s: &[u8]) -> (r: Vec<u8>)
    ensures
        r@ == dict_filter(s@),
{
    let mut out: Vec<u8> = Vec::new();
    let mut i: usize = 0;
    while i < s.len()
        invariant
            i <= s@.len(),
            out@ == dict_filter(s@.subrange(0, i as int)),
        decreases s@.len() - i,
    {
        let c = s[i];
        proof {
            let t = s@.subrange(0, i + 1);
            assert(t.drop_last() =~= s@.subrange(0, i as int));
            assert(t.last() == c);
        }
        if c == 32 || c == 9 || (48 <= c && c <= 57) || (65 <= c && c <= 90) || (97 <= c && c <= 122) {
            out.push(c);
        }
        i = i + 1;
    }
    assert(s@.subrange(0, s@.len() as int) =~= s@);
    out
}

/// Byte order of what the collation looks at in `a` and `b`.
fn compare_normalized(c: &Collation, a: &[u8], b: &[u8]) -> (r: Ordering)
    ensures
        r == lex_cmp(normalized(*c, a@), normalized(*c, b@)),
{
    if c.dictionary_order {
        let fa = dict_filter_exec(a);
        let fb = dict_filter_exec(b);
        if c.ignore_case {
            compare_folded(fa.as_slice(), fb.as_slice())
        } else {
            compare_bytes(fa.as_slice(), fb.as_slice())
        }
    } else if c.ignore_case {
        compare_folded(a, b)
    } else {
        compare_bytes(a, b)
    }
}

fn upper(c: u8) -> (r: u8)
    ensures
        r == upper_byte(c),
{
    if 97 <= c && c <= 122 {
        c - 32
    } else {
        c
    }
}

/// The month that the record starts with (1 to 12), or 0.
pub fn month_number(s: &[u8]) -> (r: u8)
    ensures
        r as int == month_num(s@),
{
    let p = skip_whitespace(s, 0);
    if p >= s.len() || s.len() - p < 3 {
        return 0;
    }
    let a = upper(s[p]);
    let b = upper(s[p + 1]);
    let c = upper(s[p + 2]);
    if a == 74 && b == 65 && c == 78 {
        1
    } else if a == 70 && b == 69 && c == 66 {
        2
    } else if a == 77 && b == 65 && c == 82 {
        3
    } else if a == 65 && b == 80 && c == 82 {
        4
    } else if a == 77 && b == 65 && c == 89 {
        5
    } else if a == 74 && b == 85 && c == 78 {
        6
    } else if a == 74 && b == 85 && c == 76 {
        7
    } else if a == 65 && b == 85 && c == 71 {
        8
    } else if a == 83 && b == 69 && c == 80 {
        9
    } else if a == 79 && b == 67 && c == 84 {
        10
    } else if a == 78 && b == 79 && c == 86 {
        11
    } else if a == 68 && b == 69 && c == 67 {
        12
    } else {
        0
    }
}

fn suffix_rank_exec(c: u8) -> (r: u8)
    ensures
        r as int == suffix_rank(c),
{
    if c == 75 || c == 107 {
        1
    } else if c == 77 {
        2
    } else if c == 71 {
        3
    } else if c == 84 {
        4
    } else if c == 80 {
        5
    } else if c == 69 {
        6
    } else if c == 90 {
        7
    } else if c == 89 {
        8
    } else {
        0
    }
}

/// Order of sizes with suffixes, such as `2K` and `1G`.
pub fn compare_human(a: &[u8], b: &[u8]) -> (r: Ordering)
    ensures
        r == human_cmp(a@, b@),
{
    let pa = number_parts(a);
    let pb = number_parts(b);
    if !pa.valid && !pb.valid {
        return Ordering::Equal;
    }
    if !pa.valid {
        return Ordering::Less;
    }
    if !pb.valid {
        return Ordering::Greater;
    }
    if pa.negative && !pb.negative {
        return Ordering::Less;
    }
    if !pa.negative && pb.negative {
        return Ordering::Greater;
    }
    let ra: u8 = if pa.frac_hi < a.len() {
        suffix_rank_exec(a[pa.frac_hi])
    } else {
        0
    };
    let rb: u8 = if pb.frac_hi < b.len() {
        suffix_rank_exec(b[pb.frac_hi])
    } else {
        0
    };
    let m = if ra < rb {
        Ordering::Less
    } else if ra > rb {
        Ordering::Greater
    } else {
        compare_magnitude(a, &pa, b, &pb)
    };
    if pa.negative {
        match m {
            Ordering::Less => Ordering::Greater,
            Ordering::Greater => Ordering::Less,
            Ordering::Equal => Ordering::Equal,
        }
    } else {
        m
    }
}

/// Version order: digit runs compare as numbers, other bytes one by one.
pub fn compare_version(a: &[u8], b: &[u8]) -> (r: Ordering)
    ensures
        r == version_cmp_from(a@, b@, 0, 0),
{
    let mut i: usize = 0;
    let mut j: usize = 0;
    while i < a.len() && j < b.len()
        invariant
            i <= a@.len(),
            j <= b@.len(),
            version_cmp_from(a@, b@, 0, 0) == version_cmp_from(a@, b@, i as int, j as int),
        decreases (a@.len() - i) + (b@.len() - j),
    {
        let x = a[i];
        let y = b[j];
        let dx = 48 <= x && x <= 57;
        let dy = 48 <= y && y <= 57;
        if dx && dy {
            proof {
                crate::zero_copy::lemma_digit_end(a@, i + 1);
                crate::zero_copy::lemma_digit_end(b@, j + 1);
            }
            let ea = skip_digits(a, i);
            let eb = skip_digits(b, j);
            let za = skip_leading_zeros(a, i, ea);
            let zb = skip_leading_zeros(b, j, eb);
            let c = compare_integer_parts(a, za, ea, b, zb, eb);
            match c {
                Ordering::Equal => {
                    i = ea;
                    j = eb;
                },
                _ => {
                    return c;
                },
            }
        } else if dx {
            return Ordering::Less;
        } else if dy {
            return Ordering::Greater;
        } else if x < y {
            return Ordering::Less;
        } else if x > y {
            return Ordering::Greater;
        } else {
            i = i + 1;
            j = j + 1;
        }
    }
    if i >= a.len() && j >= b.len() {
        Ordering::Equal
    } else if i >= a.len() {
        Ordering::Less
    } else {
        Ordering::Greater
    }
}

/// The hash that random mode orders keys by.
pub fn key_hash_exec(s: &[u8], salt: u64) -> (r: u64)
    ensures
        r as int == key_hash(s@, salt),
{
    let mut h: u64 = salt % HASH_MODULUS;
    let mut i: usize = 0;
    while i < s.len()
        invariant
            i <= s@.len(),
            h as int == hash_prefix(s@, i as int, salt),
            h < HASH_MODULUS,
        decreases s@.len() - i,
    {
        h = (h * HASH_BASE + s[i] as u64 + 1) % HASH_MODULUS;
        i = i + 1;
    }
    h
}

/// Order of two keys under a collation (before its reverse).
pub fn collate(c: &Collation, salt: u64, a: &[u8], b: &[u8]) -> (r: Ordering)
    ensures
        r == collate_cmp(*c, salt, a@, b@),
{
    match c.mode {
        SortMode::Numeric => compare_numeric_bytes(a, b),
        SortMode::GeneralNumeric => crate::general_numeric::compare_general(a, b),
        SortMode::HumanNumeric => compare_human(a, b),
        SortMode::Month => {
            let x = month_number(a);
            let y = month_number(b);
            if x < y {
                Ordering::Less
            } else if x > y {
                Ordering::Greater
            } else {
                Ordering::Equal
            }
        },
        SortMode::Version => compare_version(a, b),
        SortMode::Random => {
            let x = key_hash_exec(a, salt);
            let y = key_hash_exec(b, salt);
            if x < y {
                Ordering::Less
            } else if x > y {
                Ordering::Greater
            } else {
                compare_normalized(c, a, b)
            }
        },
        SortMode::Lexicographic => compare_normalized(c, a, b),
    }
}

fn global_collation_exec(cfg: &SortConfig) -> (r: Collation)
    ensures
        r == global_collation(*cfg),
{
    Collation {
        mode: cfg.mode,
        ignore_case: cfg.ignore_case,
        dictionary_order: cfg.dictionary_order,
        ignore_leading_blanks: cfg.ignore_leading_blanks,
        reverse: false,
    }
}

fn key_collation_exec(cfg: &SortConfig, k: &SortKey) -> (r: Collation)
    ensures
        r == key_collation(*cfg, *k),
{
    let o = k.options;
    if !(o.numeric || o.general_numeric || o.month || o.reverse || o.ignore_case
        || o.dictionary_order || o.ignore_leading_blanks || o.human_numeric || o.version
        || o.random) {
        assert(o == no_key_options());
        return global_collation_exec(cfg);
    }
    let mode = if o.numeric {
        SortMode::Numeric
    } else if o.general_numeric {
        SortMode::GeneralNumeric
    } else if o.human_numeric {
        SortMode::HumanNumeric
    } else if o.month {
        SortMode::Month
    } else if o.version {
        SortMode::Version
    } else if o.random {
        SortMode::Random
    } else {
        SortMode::Lexicographic
    };
    Collation {
        mode,
        ignore_case: o.ignore_case,
        dictionary_order: o.dictionary_order,
        ignore_leading_blanks: o.ignore_leading_blanks,
        reverse: o.reverse,
    }
}

fn sep_byte_exec(cfg: &SortConfig) -> (r: Option<u8>)
    ensures
        r == sep_byte(*cfg),
{
    match cfg.field_separator {
        Some(ch) => Some(ch as u8),
        None => None,
    }
}

/// Order of two records under one key definition.
pub fn compare_key(cfg: &SortConfig, k: &SortKey, a: &[u8], b: &[u8]) -> (r: Ordering)
    ensures
        r == key_cmp(*cfg, *k, a@, b@),
{
    let col = key_collation_exec(cfg, k);
    let sep = sep_byte_exec(cfg);
    let (sa, ea) = key_bounds_exec(a, sep, k, col.ignore_leading_blanks);
    let (sb, eb) = key_bounds_exec(b, sep, k, col.ignore_leading_blanks);
    let ka = vstd::slice::slice_subrange(a, sa, ea);
    let kb = vstd::slice::slice_subrange(b, sb, eb);
    let o = collate(&col, cfg.random_salt, ka, kb);
    if col.reverse {
        match o {
            Ordering::Less => Ordering::Greater,
            Ordering::Greater => Ordering::Less,
            Ordering::Equal => Ordering::Equal,
        }
    } else {
        o
    }
}

/// The comparator of a run, applied to two records.
pub fn compare_records(cfg: &SortConfig, a: &[u8], b: &[u8]) -> (r: Ordering)
    ensures
        r == record_cmp(*cfg, a@, b@),
{
    reveal(record_cmp);
    let base: Ordering;
    if cfg.keys.len() == 0 {
        let col = global_collation_exec(cfg);
        if col.ignore_leading_blanks {
            let pa = skip_whitespace(a, 0);
            let pb = skip_whitespace(b, 0);
            base = collate(
                &col,
                cfg.random_salt,
                vstd::slice::slice_subrange(a, pa, a.len()),
                vstd::slice::slice_subrange(b, pb, b.len()),
            );
        } else {
            base = collate(&col, cfg.random_salt, a, b);
        }
    } else {
        let mut i: usize = 0;
        let mut o = Ordering::Equal;
        while i < cfg.keys.len() && matches!(o, Ordering::Equal)
            invariant
                i <= cfg.keys@.len(),
                keys_cmp(*cfg, a@, b@, 0) == match o {
                    Ordering::Equal => keys_cmp(*cfg, a@, b@, i as int),
                    _ => o,
                },
            decreases cfg.keys@.len() - i,
        {
            o = compare_key(cfg, &cfg.keys[i], a, b);
            i = i + 1;
        }
        assert(o is Equal ==> keys_cmp(*cfg, a@, b@, i as int) == Ordering::Equal);
        base = o;
    }
    let tie = match base {
        Ordering::Equal => if cfg.stable || cfg.unique {
            Ordering::Equal
        } else {
            compare_bytes(a, b)
        },
        _ => base,
    };
    if cfg.reverse {
        match tie {
            Ordering::Less => Ordering::Greater,
            Ordering::Greater => Ordering::Less,
            Ordering::Equal => Ordering::Equal,
        }
    } else {
        tie
    }
}

} // verus!
