//! Options of a sort run: the global mode and modifiers, key definitions, and their parsing.
use vstd::prelude::*;
use crate::error::{SortError, SortResult};

verus! {

/// Modifiers that a key definition may carry (`-k2,2nr`).
#[derive(Debug, Clone, Copy, PartialEq, Eq, Structural)]
pub struct SortKeyOptions {
    pub numeric: bool,
    pub general_numeric: bool,
    pub month: bool,
    pub reverse: bool,
    pub ignore_case: bool,
    pub dictionary_order: bool,
    pub ignore_leading_blanks: bool,
    pub human_numeric: bool,
    pub version: bool,
    pub random: bool,
}

pub open spec fn no_key_options() -> SortKeyOptions {
    SortKeyOptions {
        numeric: false,
        general_numeric: false,
        month: false,
        reverse: false,
        ignore_case: false,
        dictionary_order: false,
        ignore_leading_blanks: false,
        human_numeric: false,
        version: false,
        random: false,
    }
}

impl Default for SortKeyOptions {
    fn default() -> (r: Self)
        ensures
            r == no_key_options(),
    {
        SortKeyOptions {
            numeric: false,
            general_numeric: false,
            month: false,
            reverse: false,
            ignore_case: false,
            dictionary_order: false,
            ignore_leading_blanks: false,
            human_numeric: false,
            version: false,
            random: false,
        }
    }
}

/// A key definition: fields and characters are counted from 1.
#[derive(Debug, Clone, Copy, PartialEq, Eq, Structural)]
pub struct SortKey {
    pub start_field: usize,
    pub start_char: Option<usize>,
    pub end_field: Option<usize>,
    pub end_char: Option<usize>,
    pub options: SortKeyOptions,
}

// ----- the grammar of a key definition, over characters -----

pub open spec fn is_digit_char(c: char) -> bool {
    '0' <= c && c <= '9'
}

/// End of the run of digits that starts at `i`.
pub open spec fn digit_run_end(s: Seq<char>, i: int) -> int
    decreases s.len() - i,
{
    if 0 <= i < s.len() && is_digit_char(s[i]) {
        digit_run_end(s, i + 1)
    } else {
        i
    }
}

/// The number that the decimal digits `s[lo..hi]` write.
pub open spec fn digits_value(s: Seq<char>, lo: int, hi: int) -> int
    decreases hi - lo,
{
    if hi <= lo {
        0
    } else {
        10 * digits_value(s, lo, hi - 1) + (s[hi - 1] as int - '0' as int)
    }
}

/// The option letters of a key; `i` and `z` are accepted and have no effect here.
pub open spec fn is_key_option_char(c: char) -> bool {
    c == 'n' || c == 'g' || c == 'M' || c == 'r' || c == 'f' || c == 'd' || c == 'b' || c == 'h'
        || c == 'V' || c == 'R' || c == 'i' || c == 'z'
}

pub open spec fn with_option_char(o: SortKeyOptions, c: char) -> SortKeyOptions {
    if c == 'n' {
        SortKeyOptions { numeric: true, ..o }
    } else if c == 'g' {
        SortKeyOptions { general_numeric: true, ..o }
    } else if c == 'M' {
        SortKeyOptions { month: true, ..o }
    } else if c == 'r' {
        SortKeyOptions { reverse: true, ..o }
    } else if c == 'f' {
        SortKeyOptions { ignore_case: true, ..o }
    } else if c == 'd' {
        SortKeyOptions { dictionary_order: true, ..o }
    } else if c == 'b' {
        SortKeyOptions { ignore_leading_blanks: true, ..o }
    } else if c == 'h' {
        SortKeyOptions { human_numeric: true, ..o }
    } else if c == 'V' {
        SortKeyOptions { version: true, ..o }
    } else if c == 'R' {
        SortKeyOptions { random: true, ..o }
    } else {
        o
    }
}

/// The options that the letters `s[i..]` set on top of `o`, if all are option letters.
pub open spec fn options_from(s: Seq<char>, i: int, o: SortKeyOptions) -> Option<SortKeyOptions>
    decreases s.len() - i,
{
    if i >= s.len() || i < 0 {
        Some(o)
    } else if !is_key_option_char(s[i]) {
        None
    } else {
        options_from(s, i + 1, with_option_char(o, s[i]))
    }
}

/// Field number, optional character position and options of one side of a key
/// definition (`F[.C][OPTS]`), or `None` where it is malformed.
pub open spec fn field_spec_model(s: Seq<char>) -> Option<(usize, Option<usize>, SortKeyOptions)> {
    let fe = digit_run_end(s, 0);
    let f = digits_value(s, 0, fe);
    if fe == 0 || f == 0 || f > usize::MAX {
        None
    } else {
        let has_dot = fe < s.len() && s[fe] == '.';
        let ce = if has_dot { digit_run_end(s, fe + 1) } else { fe };
        let c = digits_value(s, fe + 1, ce);
        if has_dot && ce > fe + 1 && (c == 0 || c > usize::MAX) {
            None
        } else {
            let cp = if has_dot && ce > fe + 1 { Some(c as usize) } else { None };
            match options_from(s, ce, no_key_options()) {
                Some(o) => Some((f as usize, cp, o)),
                None => None,
            }
        }
    }
}

/// First position at or after `i` that holds a comma, or the length.
pub open spec fn comma_pos(s: Seq<char>, i: int) -> int
    decreases s.len() - i,
{
    if i < 0 || i >= s.len() {
        s.len() as int
    } else if s[i] == ',' {
        i
    } else {
        comma_pos(s, i + 1)
    }
}

/// Options of both sides together: a flag is set if either side sets it.
pub open spec fn merge_options(a: SortKeyOptions, b: SortKeyOptions) -> SortKeyOptions {
    SortKeyOptions {
        numeric: a.numeric || b.numeric,
        general_numeric: a.general_numeric || b.general_numeric,
        month: a.month || b.month,
        reverse: a.reverse || b.reverse,
        ignore_case: a.ignore_case || b.ignore_case,
        dictionary_order: a.dictionary_order || b.dictionary_order,
        ignore_leading_blanks: a.ignore_leading_blanks || b.ignore_leading_blanks,
        human_numeric: a.human_numeric || b.human_numeric,
        version: a.version || b.version,
        random: a.random || b.random,
    }
}

/// The key that a definition `START[,END]` describes, or `None` where it is malformed.
pub open spec fn key_model(s: Seq<char>) -> Option<SortKey> {
    let comma = comma_pos(s, 0);
    if comma >= s.len() {
        match field_spec_model(s) {
            Some((f, c, o)) => Some(
                SortKey { start_field: f, start_char: c, end_field: None, end_char: None, options: o },
            ),
            None => None,
        }
    } else if comma_pos(s, comma + 1) < s.len() {
        None
    } else {
        match (field_spec_model(s.subrange(0, comma)), field_spec_model(s.subrange(comma + 1, s.len() as int))) {
            (Some((f, c, o)), Some((ef, ec, eo))) => Some(
                SortKey {
                    start_field: f,
                    start_char: c,
                    end_field: Some(ef),
                    end_char: ec,
                    options: merge_options(o, eo),
                },
            ),
            _ => None,
        }
    }
}

proof fn lemma_digits_value_step(s: Seq<char>, lo: int, hi: int)
    requires
        0 <= lo <= hi,
        hi < s.len(),
        forall|k: int| lo <= k <= hi ==> is_digit_char(#[trigger] s[k]),
    ensures
        digits_value(s, lo, hi + 1) == 10 * digits_value(s, lo, hi) + (s[hi] as int - '0' as int),
        digits_value(s, lo, hi + 1) >= digits_value(s, lo, hi),
{
    lemma_digits_value_nonneg(s, lo, hi);
}

proof fn lemma_digits_value_nonneg(s: Seq<char>, lo: int, hi: int)
    requires
        0 <= lo,
        hi <= s.len(),
        forall|k: int| lo <= k < hi ==> is_digit_char(#[trigger] s[k]),
    ensures
        digits_value(s, lo, hi) >= 0,
    decreases hi - lo,
{
    if hi > lo {
        lemma_digits_value_nonneg(s, lo, hi - 1);
        assert(is_digit_char(s[hi - 1]));
    }
}

proof fn lemma_digit_run(s: Seq<char>, i: int, j: int)
    requires
        0 <= i <= j <= s.len(),
        forall|k: int| i <= k < j ==> is_digit_char(#[trigger] s[k]),
        j == s.len() || !is_digit_char(s[j]),
    ensures
        digit_run_end(s, i) == j,
    decreases j - i,
{
    if i < j {
        lemma_digit_run(s, i + 1, j);
    }
}

/// Scans the digits of `s` from `lo` (below `hi`): returns where the run ends and
/// its value, or `None` as value where it does not fit in `usize`.
pub(crate) fn scan_number(s: &Vec<char>, lo: usize, hi: usize) -> (r: (usize, Option<usize>))
    requires
        lo <= hi <= s@.len(),
    ensures
        r.0 == lo + digit_run_end(s@.subrange(lo as int, hi as int), 0),
        lo <= r.0 <= hi,
        forall|k: int| lo <= k < r.0 ==> is_digit_char(#[trigger] s@[k]),
        match r.1 {
            Some(v) => v == digits_value(s@.subrange(lo as int, hi as int), 0, r.0 - lo),
            None => digits_value(s@.subrange(lo as int, hi as int), 0, r.0 - lo) > usize::MAX,
        },
{
    let ghost t = s@.subrange(lo as int, hi as int);
    let mut i: usize = lo;
    let mut acc: Option<usize> = Some(0);
    while i < hi && '0' <= s[i] && s[i] <= '9'
        invariant
            lo <= i <= hi <= s@.len(),
            t == s@.subrange(lo as int, hi as int),
            forall|k: int| lo <= k < i ==> is_digit_char(#[trigger] s@[k]),
            forall|k: int| 0 <= k < i - lo ==> is_digit_char(#[trigger] t[k]),
            match acc {
                Some(v) => v == digits_value(t, 0, i - lo),
                None => digits_value(t, 0, i - lo) > usize::MAX,
            },
        decreases hi - i,
    {
        let d = (s[i] as u32 - '0' as u32) as usize;
        proof {
            assert(t[i - lo] == s@[i as int]);
            lemma_digits_value_step(t, 0, i - lo);
        }
        acc = match acc {
            Some(v) => {
                if v <= (usize::MAX - d) / 10 {
                    Some(v * 10 + d)
                } else {
                    None
                }
            },
            None => None,
        };
        i = i + 1;
    }
    proof {
        lemma_digit_run(t, 0, i - lo);
    }
    (i, acc)
}

/// Applies the option letters `s[lo..hi]`; `None` at the first letter that is no option.
fn scan_options(s: &Vec<char>, lo: usize, hi: usize) -> (r: Option<SortKeyOptions>)
    requires
        lo <= hi <= s@.len(),
    ensures
        r == options_from(s@.subrange(0, hi as int), lo as int, no_key_options()),
{
    let ghost t = s@.subrange(0, hi as int);
    let mut o = SortKeyOptions::default();
    let mut i: usize = lo;
    while i < hi
        invariant
            lo <= i <= hi <= s@.len(),
            t == s@.subrange(0, hi as int),
            options_from(t, lo as int, no_key_options()) == options_from(t, i as int, o),
        decreases hi - i,
    {
        let c = s[i];
        assert(t[i as int] == c);
        if c == 'n' {
            o.numeric = true;
        } else if c == 'g' {
            o.general_numeric = true;
        } else if c == 'M' {
            o.month = true;
        } else if c == 'r' {
            o.reverse = true;
        } else if c == 'f' {
            o.ignore_case = true;
        } else if c == 'd' {
            o.dictionary_order = true;
        } else if c == 'b' {
            o.ignore_leading_blanks = true;
        } else if c == 'h' {
            o.human_numeric = true;
        } else if c == 'V' {
            o.version = true;
        } else if c == 'R' {
            o.random = true;
        } else if c == 'i' || c == 'z' {
        } else {
            return None;
        }
        i = i + 1;
    }
    Some(o)
}

impl SortKey {
    /// Parses one side of a key definition, `s[lo..hi]`.
    fn parse_field_spec(s: &Vec<char>, lo: usize, hi: usize) -> (r: SortResult<
        (usize, Option<usize>, SortKeyOptions),
    >)
        requires
            lo <= hi <= s@.len(),
        ensures
            match field_spec_model(s@.subrange(lo as int, hi as int)) {
                Some(m) => r == Ok::<_, SortError>(m),
                None => r matches Err(SortError::ParseError { .. }),
            },
    {
        let ghost t = s@.subrange(lo as int, hi as int);
        if lo == hi {
            return Err(SortError::parse_error("empty field specification"));
        }
        let (fe, fv) = scan_number(s, lo, hi);
        if fe == lo {
            return Err(SortError::parse_error("invalid field specification"));
        }
        let field = match fv {
            Some(v) => v,
            None => {
                return Err(SortError::parse_error("invalid field number"));
            },
        };
        if field == 0 {
            return Err(SortError::parse_error("field numbers start at 1"));
        }
        let mut ce: usize = fe;
        let mut char_pos: Option<usize> = None;
        if fe < hi && s[fe] == '.' {
            assert(t[fe - lo] == s@[fe as int]);
            let (e, cv) = scan_number(s, fe + 1, hi);
            proof {
                let u = s@.subrange(fe + 1, hi as int);
                assert(u =~= t.subrange(fe + 1 - lo, t.len() as int));
                lemma_sub_digits(t, fe + 1 - lo, e - lo);
            }
            ce = e;
            if e > fe + 1 {
                match cv {
                    Some(v) => {
                        if v == 0 {
                            return Err(SortError::parse_error("character positions start at 1"));
                        }
                        char_pos = Some(v);
                    },
                    None => {
                        return Err(SortError::parse_error("invalid character position"));
                    },
                }
            }
        }
        let opts = scan_options(s, ce, hi);
        proof {
            lemma_options_shift(s@, lo as int, hi as int, ce as int);
        }
        match opts {
            Some(o) => Ok((field, char_pos, o)),
            None => Err(SortError::parse_error("invalid key option")),
        }
    }

    /// Parses a key definition such as `2`, `2,4`, `1.3,1.5` or `2nr`.
    pub fn parse(keydef: &str) -> (r: SortResult<SortKey>)
        ensures
            match key_model(keydef@) {
                Some(k) => r == Ok::<_, SortError>(k),
                None => r matches Err(SortError::ParseError { .. }),
            },
    {
        let s = chars_of(keydef);
        let n = s.len();
        let comma = find_comma(&s, 0);
        if comma >= n {
            assert(s@.subrange(0, n as int) =~= s@);
            let (f, c, o) = Self::parse_field_spec(&s, 0, n)?;
            return Ok(SortKey { start_field: f, start_char: c, end_field: None, end_char: None, options: o });
        }
        let second_comma = find_comma(&s, comma + 1);
        if second_comma < n {
            return Err(SortError::parse_error("invalid key specification"));
        }
        let (f, c, o) = Self::parse_field_spec(&s, 0, comma)?;
        let (ef, ec, eo) = Self::parse_field_spec(&s, comma + 1, n)?;
        let options = SortKeyOptions {
            numeric: o.numeric || eo.numeric,
            general_numeric: o.general_numeric || eo.general_numeric,
            month: o.month || eo.month,
            reverse: o.reverse || eo.reverse,
            ignore_case: o.ignore_case || eo.ignore_case,
            dictionary_order: o.dictionary_order || eo.dictionary_order,
            ignore_leading_blanks: o.ignore_leading_blanks || eo.ignore_leading_blanks,
            human_numeric: o.human_numeric || eo.human_numeric,
            version: o.version || eo.version,
            random: o.random || eo.random,
        };
        Ok(SortKey { start_field: f, start_char: c, end_field: Some(ef), end_char: ec, options })
    }
}

proof fn lemma_sub_digits(t: Seq<char>, a: int, b: int)
    requires
        0 <= a <= b <= t.len(),
    ensures
        digits_value(t.subrange(a, t.len() as int), 0, b - a) == digits_value(t, a, b),
        digit_run_end(t.subrange(a, t.len() as int), 0) == b - a ==> (digit_run_end(t, a) == b),
    decreases b - a,
{
    let u = t.subrange(a, t.len() as int);
    if b > a {
        lemma_sub_digits(t, a, b - 1);
    }
    if digit_run_end(u, 0) == b - a {
        lemma_run_shift(t, a, 0);
    }
}

proof fn lemma_run_shift(t: Seq<char>, a: int, k: int)
    requires
        0 <= a <= t.len(),
        0 <= k <= t.len() - a,
    ensures
        digit_run_end(t.subrange(a, t.len() as int), k) + a == digit_run_end(t, a + k),
    decreases t.len() - a - k,
{
    let u = t.subrange(a, t.len() as int);
    if k < u.len() && is_digit_char(u[k]) {
        lemma_run_shift(t, a, k + 1);
    }
}

proof fn lemma_options_shift(s: Seq<char>, lo: int, hi: int, ce: int)
    requires
        0 <= lo <= ce <= hi <= s.len(),
    ensures
        options_from(s.subrange(0, hi), ce, no_key_options()) == options_from(
            s.subrange(lo, hi),
            ce - lo,
            no_key_options(),
        ),
{
    lemma_options_shift_any(s, lo, hi, ce, no_key_options());
}

proof fn lemma_options_shift_any(s: Seq<char>, lo: int, hi: int, i: int, o: SortKeyOptions)
    requires
        0 <= lo <= i <= hi <= s.len(),
    ensures
        options_from(s.subrange(0, hi), i, o) == options_from(s.subrange(lo, hi), i - lo, o),
    decreases hi - i,
{
    if i < hi {
        assert(s.subrange(0, hi)[i] == s.subrange(lo, hi)[i - lo]);
        lemma_options_shift_any(s, lo, hi, i + 1, with_option_char(o, s[i]));
    }
}

/// The characters of `s`, one per element.
pub(crate) fn chars_of(s: &str) -> (r: Vec<char>)
    ensures
        r@ == s@,
{
    let n = s.unicode_len();
    let mut v: Vec<char> = Vec::new();
    let mut i: usize = 0;
    while i < n
        invariant
            n == s@.len(),
            i <= n,
            v@ == s@.subrange(0, i as int),
        decreases n - i,
    {
        v.push(s.get_char(i));
        i = i + 1;
        assert(v@ =~= s@.subrange(0, i as int));
    }
    assert(v@ =~= s@);
    v
}

/// Position of the first comma at or after `i`, or the length.
fn find_comma(s: &Vec<char>, i: usize) -> (r: usize)
    requires
        i <= s@.len(),
    ensures
        r == comma_pos(s@, i as int),
{
    let mut j: usize = i;
    while j < s.len() && s[j] != ','
        invariant
            i <= j <= s@.len(),
            comma_pos(s@, i as int) == comma_pos(s@, j as int),
        decreases s@.len() - j,
    {
        j = j + 1;
    }
    j
}


/// How lines are compared when no key says otherwise.
#[derive(Debug, Clone, Copy, PartialEq, Eq, Structural)]
pub enum SortMode {
    Lexicographic,
    Numeric,
    GeneralNumeric,
    HumanNumeric,
    Month,
    Version,
    Random,
}

#[derive(Debug, Clone, Copy, PartialEq, Eq, Structural)]
pub enum SortOrder {
    Ascending,
    Descending,
}

/// All options of one run.
#[derive(Debug, Clone)]
pub struct SortConfig {
    pub mode: SortMode,
    pub reverse: bool,
    /// Keep only the first line of each run of equal lines.
    pub unique: bool,
    /// Keep input order among equal lines (no last-resort comparison).
    pub stable: bool,
    pub check: bool,
    pub merge: bool,
    pub zero_terminated: bool,
    pub ignore_case: bool,
    pub dictionary_order: bool,
    pub ignore_leading_blanks: bool,
    pub ignore_nonprinting: bool,
    pub field_separator: Option<char>,
    pub keys: Vec<SortKey>,
    pub output_file: Option<String>,
    pub buffer_size: Option<usize>,
    pub parallel_threads: Option<usize>,
    pub input_files: Vec<String>,
    pub debug: bool,
    pub compress_temp: bool,
    pub temp_dir: Option<String>,
    /// Salt of the hash that random mode orders by; chosen once per run.
    pub random_salt: u64,
}

/// The configuration with every option at its default.
pub open spec fn is_default_config(c: SortConfig) -> bool {
    &&& c.mode == SortMode::Lexicographic
    &&& !c.reverse && !c.unique && !c.stable && !c.check && !c.merge && !c.zero_terminated
    &&& !c.ignore_case && !c.dictionary_order && !c.ignore_leading_blanks && !c.ignore_nonprinting
    &&& c.field_separator.is_none() && c.keys@.len() == 0 && c.output_file.is_none()
    &&& c.buffer_size.is_none() && c.parallel_threads.is_none() && c.input_files@.len() == 0
    &&& !c.debug && !c.compress_temp && c.temp_dir.is_none() && c.random_salt == 0
}

impl Default for SortConfig {
    fn default() -> (r: Self)
        ensures
            is_default_config(r),
    {
        SortConfig {
            mode: SortMode::Lexicographic,
            reverse: false,
            unique: false,
            stable: false,
            check: false,
            merge: false,
            zero_terminated: false,
            ignore_case: false,
            dictionary_order: false,
            ignore_leading_blanks: false,
            ignore_nonprinting: false,
            field_separator: None,
            keys: Vec::new(),
            output_file: None,
            buffer_size: None,
            parallel_threads: None,
            input_files: Vec::new(),
            debug: false,
            compress_temp: false,
            temp_dir: None,
            random_salt: 0,
        }
    }
}

/// Smallest and largest accepted buffer sizes, in bytes.
pub const MIN_BUFFER_SIZE: usize = 1024;
pub const MAX_BUFFER_SIZE: u64 = 8589934592;
/// Largest accepted number of threads.
pub const MAX_THREADS: usize = 1024;
/// Largest accepted number of input files.
pub const MAX_INPUT_FILES: usize = 10000;
/// Buffer size used when none is given.
pub const DEFAULT_BUFFER_SIZE: usize = 1048576;

/// Which check `validate` fails first, if any.
pub enum ConfigFault {
    CheckWithMerge,
    CheckWithUnique,
    NulSeparatorWithoutZero,
    WideSeparator,
    BufferTooSmall,
    BufferTooLarge,
    NoThreads,
    TooManyThreads,
    TooManyInputFiles,
}

pub open spec fn config_fault(c: SortConfig) -> Option<ConfigFault> {
    if c.check && c.merge {
        Some(ConfigFault::CheckWithMerge)
    } else if c.check && c.unique {
        Some(ConfigFault::CheckWithUnique)
    } else if c.field_separator is Some && c.field_separator->0 == '\0' && !c.zero_terminated {
        Some(ConfigFault::NulSeparatorWithoutZero)
    } else if c.field_separator is Some && c.field_separator->0 as u32 >= 128 {
        Some(ConfigFault::WideSeparator)
    } else if c.buffer_size is Some && c.buffer_size->0 < MIN_BUFFER_SIZE {
        Some(ConfigFault::BufferTooSmall)
    } else if c.buffer_size is Some && c.buffer_size->0 as u64 > MAX_BUFFER_SIZE {
        Some(ConfigFault::BufferTooLarge)
    } else if c.parallel_threads is Some && c.parallel_threads->0 == 0 {
        Some(ConfigFault::NoThreads)
    } else if c.parallel_threads is Some && c.parallel_threads->0 > MAX_THREADS {
        Some(ConfigFault::TooManyThreads)
    } else if c.input_files@.len() > MAX_INPUT_FILES {
        Some(ConfigFault::TooManyInputFiles)
    } else {
        None
    }
}

/// The error kind that `validate` reports for a fault.
pub open spec fn fault_matches(f: ConfigFault, e: SortError) -> bool {
    match f {
        ConfigFault::CheckWithMerge | ConfigFault::CheckWithUnique => e is ConflictingOptions,
        ConfigFault::NulSeparatorWithoutZero | ConfigFault::WideSeparator => e is InvalidFieldSeparator,
        ConfigFault::BufferTooSmall | ConfigFault::BufferTooLarge => e is InvalidBufferSize,
        ConfigFault::NoThreads | ConfigFault::TooManyThreads => e is ThreadPoolError,
        ConfigFault::TooManyInputFiles => e is ConflictingOptions,
    }
}

/// The configuration is usable: `validate` accepts it.
pub open spec fn config_valid(c: SortConfig) -> bool {
    config_fault(c).is_none()
}

/// Multiplier of a size suffix (`b`, `K`, `M`, `G`, `T`), in bytes.
pub open spec fn size_suffix_factor(c: char) -> Option<nat> {
    if c == 'b' {
        Some(1)
    } else if c == 'K' || c == 'k' {
        Some(1024)
    } else if c == 'M' || c == 'm' {
        Some(1048576)
    } else if c == 'G' || c == 'g' {
        Some(1073741824)
    } else if c == 'T' || c == 't' {
        Some(1099511627776)
    } else {
        None
    }
}

/// The byte count that a size such as `4096`, `64K` or `2M` gives, if it fits in `usize`.
pub open spec fn size_model(s: Seq<char>) -> Option<usize> {
    let e = digit_run_end(s, 0);
    let v = digits_value(s, 0, e);
    if e == 0 {
        None
    } else if e == s.len() {
        if v <= usize::MAX { Some(v as usize) } else { None }
    } else if e + 1 == s.len() && size_suffix_factor(s[e]) is Some {
        let t = v * size_suffix_factor(s[e])->0;
        if t <= usize::MAX { Some(t as usize) } else { None }
    } else {
        None
    }
}

/// `s` equals the lower-case ASCII word `w` up to the case of its letters.
pub open spec fn equals_folded(s: Seq<char>, w: Seq<char>) -> bool {
    s.len() == w.len() && forall|i: int| 0 <= i < s.len() ==> char_folds_to(#[trigger] s[i], w[i])
}

pub open spec fn char_folds_to(c: char, w: char) -> bool {
    c == w || ('a' <= w && w <= 'z' && c as u32 + 32 == w as u32)
}

/// The mode that a name gives, letters in either case.
pub open spec fn mode_of_name(s: Seq<char>) -> Option<SortMode> {
    if equals_folded(s, "lexicographic"@) || equals_folded(s, "text"@) || equals_folded(s, "default"@) {
        Some(SortMode::Lexicographic)
    } else if equals_folded(s, "numeric"@) || equals_folded(s, "n"@) {
        Some(SortMode::Numeric)
    } else if equals_folded(s, "general-numeric"@) || equals_folded(s, "g"@) {
        Some(SortMode::GeneralNumeric)
    } else if equals_folded(s, "human-numeric"@) || equals_folded(s, "h"@) {
        Some(SortMode::HumanNumeric)
    } else if equals_folded(s, "month"@) || equals_folded(s, "m"@) {
        Some(SortMode::Month)
    } else if equals_folded(s, "version"@) || equals_folded(s, "v"@) {
        Some(SortMode::Version)
    } else if equals_folded(s, "random"@) || equals_folded(s, "r"@) {
        Some(SortMode::Random)
    } else {
        None
    }
}

pub open spec fn mode_name(m: SortMode) -> Seq<char> {
    match m {
        SortMode::Lexicographic => "lexicographic"@,
        SortMode::Numeric => "numeric"@,
        SortMode::GeneralNumeric => "general-numeric"@,
        SortMode::HumanNumeric => "human-numeric"@,
        SortMode::Month => "month"@,
        SortMode::Version => "version"@,
        SortMode::Random => "random"@,
    }
}

fn folded_equal(s: &str, w: &str) -> (r: bool)
    ensures
        r == equals_folded(s@, w@),
{
    let n = s.unicode_len();
    if n != w.unicode_len() {
        return false;
    }
    let mut i: usize = 0;
    while i < n
        invariant
            n == s@.len() == w@.len(),
            i <= n,
            forall|k: int| 0 <= k < i ==> char_folds_to(#[trigger] s@[k], w@[k]),
        decreases n - i,
    {
        let c = s.get_char(i);
        let d = w.get_char(i);
        if !(c == d || ('a' <= d && d <= 'z' && c as u32 + 32 == d as u32)) {
            return false;
        }
        i = i + 1;
    }
    true
}

impl SortMode {
    /// The mode that a name gives (`numeric`, `n`, `version`, ...), case-insensitively.
    pub fn from_name(s: &str) -> (r: SortResult<SortMode>)
        ensures
            match mode_of_name(s@) {
                Some(m) => r == Ok::<_, SortError>(m),
                None => r matches Err(SortError::ParseError { .. }),
            },
    {
        if folded_equal(s, "lexicographic") || folded_equal(s, "text") || folded_equal(s, "default") {
            Ok(SortMode::Lexicographic)
        } else if folded_equal(s, "numeric") || folded_equal(s, "n") {
            Ok(SortMode::Numeric)
        } else if folded_equal(s, "general-numeric") || folded_equal(s, "g") {
            Ok(SortMode::GeneralNumeric)
        } else if folded_equal(s, "human-numeric") || folded_equal(s, "h") {
            Ok(SortMode::HumanNumeric)
        } else if folded_equal(s, "month") || folded_equal(s, "m") {
            Ok(SortMode::Month)
        } else if folded_equal(s, "version") || folded_equal(s, "v") {
            Ok(SortMode::Version)
        } else if folded_equal(s, "random") || folded_equal(s, "r") {
            Ok(SortMode::Random)
        } else {
            Err(SortError::parse_error("unknown sort mode"))
        }
    }

    /// The canonical name of the mode.
    pub fn name(&self) -> (r: &'static str)
        ensures
            r@ == mode_name(*self),
    {
        match self {
            SortMode::Lexicographic => "lexicographic",
            SortMode::Numeric => "numeric",
            SortMode::GeneralNumeric => "general-numeric",
            SortMode::HumanNumeric => "human-numeric",
            SortMode::Month => "month",
            SortMode::Version => "version",
            SortMode::Random => "random",
        }
    }
}

impl std::str::FromStr for SortMode {
    type Err = SortError;

    fn from_str(s: &str) -> Result<Self, Self::Err> {
        SortMode::from_name(s)
    }
}


/// `a` and `b` hold the same options.
pub open spec fn same_options(a: SortConfig, b: SortConfig) -> bool {
    &&& a.mode == b.mode && a.reverse == b.reverse && a.unique == b.unique && a.stable == b.stable
    &&& a.check == b.check && a.merge == b.merge && a.zero_terminated == b.zero_terminated
    &&& a.ignore_case == b.ignore_case && a.dictionary_order == b.dictionary_order
    &&& a.ignore_leading_blanks == b.ignore_leading_blanks
    &&& a.ignore_nonprinting == b.ignore_nonprinting && a.field_separator == b.field_separator
    &&& a.keys@ == b.keys@ && a.output_file == b.output_file && a.buffer_size == b.buffer_size
    &&& a.parallel_threads == b.parallel_threads && a.input_files@ == b.input_files@
    &&& a.debug == b.debug && a.compress_temp == b.compress_temp && a.temp_dir == b.temp_dir
    &&& a.random_salt == b.random_salt
}

fn copy_text(o: &Option<String>) -> (r: Option<String>)
    ensures
        r == *o,
{
    match o {
        Some(t) => Some(t.clone()),
        None => None,
    }
}

fn copy_texts(v: &Vec<String>) -> (r: Vec<String>)
    ensures
        r@ == v@,
{
    let mut out: Vec<String> = Vec::new();
    let mut i: usize = 0;
    while i < v.len()
        invariant
            i <= v@.len(),
            out@ == v@.subrange(0, i as int),
        decreases v@.len() - i,
    {
        out.push(v[i].clone());
        i = i + 1;
        assert(out@ =~= v@.subrange(0, i as int));
    }
    assert(out@ =~= v@);
    out
}

fn copy_keys(v: &Vec<SortKey>) -> (r: Vec<SortKey>)
    ensures
        r@ == v@,
{
    let mut out: Vec<SortKey> = Vec::new();
    let mut i: usize = 0;
    while i < v.len()
        invariant
            i <= v@.len(),
            out@ == v@.subrange(0, i as int),
        decreases v@.len() - i,
    {
        out.push(v[i]);
        i = i + 1;
        assert(out@ =~= v@.subrange(0, i as int));
    }
    assert(out@ =~= v@);
    out
}

/// Whether the key asks for a comparison other than the plain byte order.
pub open spec fn key_is_typed(k: SortKey) -> bool {
    k.options.numeric || k.options.general_numeric || k.options.human_numeric || k.options.month
        || k.options.version || k.options.random
}

impl SortConfig {
    /// The default configuration.
    pub fn new() -> (r: Self)
        ensures
            is_default_config(r),
    {
        Self::default()
    }

    /// A copy of the configuration.
    pub fn duplicate(&self) -> (r: Self)
        ensures
            same_options(r, *self),
    {
        SortConfig {
            mode: self.mode,
            reverse: self.reverse,
            unique: self.unique,
            stable: self.stable,
            check: self.check,
            merge: self.merge,
            zero_terminated: self.zero_terminated,
            ignore_case: self.ignore_case,
            dictionary_order: self.dictionary_order,
            ignore_leading_blanks: self.ignore_leading_blanks,
            ignore_nonprinting: self.ignore_nonprinting,
            field_separator: self.field_separator,
            keys: copy_keys(&self.keys),
            output_file: copy_text(&self.output_file),
            buffer_size: self.buffer_size,
            parallel_threads: self.parallel_threads,
            input_files: copy_texts(&self.input_files),
            debug: self.debug,
            compress_temp: self.compress_temp,
            temp_dir: copy_text(&self.temp_dir),
            random_salt: self.random_salt,
        }
    }

    pub fn with_mode(self, mode: SortMode) -> (r: Self)
        ensures
            r == (SortConfig { mode: mode, ..self }),
    {
        let mut c = self;
        c.mode = mode;
        c
    }

    pub fn with_reverse(self, reverse: bool) -> (r: Self)
        ensures
            r == (SortConfig { reverse: reverse, ..self }),
    {
        let mut c = self;
        c.reverse = reverse;
        c
    }

    pub fn with_unique(self, unique: bool) -> (r: Self)
        ensures
            r == (SortConfig { unique: unique, ..self }),
    {
        let mut c = self;
        c.unique = unique;
        c
    }

    pub fn with_stable(self, stable: bool) -> (r: Self)
        ensures
            r == (SortConfig { stable: stable, ..self }),
    {
        let mut c = self;
        c.stable = stable;
        c
    }

    pub fn with_check(self, check: bool) -> (r: Self)
        ensures
            r == (SortConfig { check: check, ..self }),
    {
        let mut c = self;
        c.check = check;
        c
    }

    pub fn with_merge(self, merge: bool) -> (r: Self)
        ensures
            r == (SortConfig { merge: merge, ..self }),
    {
        let mut c = self;
        c.merge = merge;
        c
    }

    pub fn with_zero_terminated(self, zero_terminated: bool) -> (r: Self)
        ensures
            r == (SortConfig { zero_terminated: zero_terminated, ..self }),
    {
        let mut c = self;
        c.zero_terminated = zero_terminated;
        c
    }

    pub fn with_field_separator(self, separator: Option<char>) -> (r: Self)
        ensures
            r == (SortConfig { field_separator: separator, ..self }),
    {
        let mut c = self;
        c.field_separator = separator;
        c
    }

    pub fn with_output_file(self, output_file: Option<String>) -> (r: Self)
        ensures
            r == (SortConfig { output_file: output_file, ..self }),
    {
        let mut c = self;
        c.output_file = output_file;
        c
    }

    pub fn with_buffer_size(self, buffer_size: Option<usize>) -> (r: Self)
        ensures
            r == (SortConfig { buffer_size: buffer_size, ..self }),
    {
        let mut c = self;
        c.buffer_size = buffer_size;
        c
    }

    pub fn with_parallel_threads(self, threads: Option<usize>) -> (r: Self)
        ensures
            r == (SortConfig { parallel_threads: threads, ..self }),
    {
        let mut c = self;
        c.parallel_threads = threads;
        c
    }

    pub fn with_input_files(self, files: Vec<String>) -> (r: Self)
        ensures
            r == (SortConfig { input_files: files, ..self }),
    {
        let mut c = self;
        c.input_files = files;
        c
    }

    pub fn with_debug(self, debug: bool) -> (r: Self)
        ensures
            r == (SortConfig { debug: debug, ..self }),
    {
        let mut c = self;
        c.debug = debug;
        c
    }

    /// Appends a key definition.
    pub fn add_key(self, key: SortKey) -> (r: Self)
        ensures
            r.keys@ == self.keys@.push(key),
            r == (SortConfig { keys: r.keys, ..self }),
    {
        let mut c = self;
        c.keys.push(key);
        c
    }

    /// Sets the buffer size from text such as `4096`, `64K` or `2M`.
    pub fn set_buffer_size_from_string(&mut self, size_str: &str) -> (r: SortResult<()>)
        ensures
            match size_model(size_str@) {
                Some(v) => r is Ok && *final(self) == (SortConfig { buffer_size: Some(v), ..*old(self) }),
                None => r matches Err(SortError::InvalidBufferSize { .. }) && *final(self) == *old(self),
            },
    {
        let s = chars_of(size_str);
        let n = s.len();
        let (e, v) = scan_number(&s, 0, n);
        proof {
            assert(s@.subrange(0, n as int) =~= s@);
        }
        if e == 0 {
            return Err(SortError::invalid_buffer_size("size must start with digits"));
        }
        let value = match v {
            Some(x) => x,
            None => {
                proof {
                    let t = s@;
                    let dv = digits_value(t, 0, e as int);
                    if e + 1 == n && size_suffix_factor(t[e as int]) is Some {
                        let f = size_suffix_factor(t[e as int])->0;
                        assert(dv * f >= dv) by (nonlinear_arith)
                            requires
                                f >= 1,
                                dv >= 0,
                        ;
                    }
                }
                return Err(SortError::invalid_buffer_size("size too large"));
            },
        };
        let size: usize;
        if e == n {
            size = value;
        } else if e + 1 == n {
            let c = s[e];
            let factor: u64 = if c == 'b' {
                1
            } else if c == 'K' || c == 'k' {
                1024
            } else if c == 'M' || c == 'm' {
                1048576
            } else if c == 'G' || c == 'g' {
                1073741824
            } else if c == 'T' || c == 't' {
                1099511627776
            } else {
                return Err(SortError::invalid_buffer_size("unknown size suffix"));
            };
            if value as u128 * factor as u128 > usize::MAX as u128 {
                return Err(SortError::invalid_buffer_size("size too large"));
            }
            size = (value as u128 * factor as u128) as usize;
        } else {
            return Err(SortError::invalid_buffer_size("unknown size suffix"));
        }
        self.buffer_size = Some(size);
        Ok(())
    }

    /// Checks that the options fit together and lie within their limits.
    pub fn validate(&self) -> (r: SortResult<()>)
        ensures
            match config_fault(*self) {
                None => r is Ok,
                Some(f) => r is Err && fault_matches(f, r->Err_0),
            },
    {
        if self.check && self.merge {
            return Err(SortError::conflicting_options("cannot use both --check and --merge"));
        }
        if self.check && self.unique {
            return Err(SortError::conflicting_options("--check is incompatible with --unique"));
        }
        if let Some(sep) = self.field_separator {
            if sep == '\0' && !self.zero_terminated {
                return Err(
                    SortError::invalid_field_separator("null character separator requires -z option"),
                );
            }
            if sep as u32 >= 128 {
                return Err(SortError::invalid_field_separator("separator must be a single byte"));
            }
        }
        if let Some(buffer_size) = self.buffer_size {
            if buffer_size < MIN_BUFFER_SIZE {
                return Err(SortError::invalid_buffer_size("buffer size too small (minimum 1KB)"));
            }
            if buffer_size as u64 > MAX_BUFFER_SIZE {
                return Err(SortError::invalid_buffer_size("buffer size too large (maximum 8GB)"));
            }
        }
        if let Some(threads) = self.parallel_threads {
            if threads == 0 {
                return Err(SortError::thread_pool_error("thread count must be positive"));
            }
            if threads > MAX_THREADS {
                return Err(SortError::thread_pool_error("too many threads (maximum 1024)"));
            }
        }
        if self.input_files.len() > MAX_INPUT_FILES {
            return Err(SortError::conflicting_options("too many input files (maximum 10000)"));
        }
        Ok(())
    }

    pub fn sort_order(&self) -> (r: SortOrder)
        ensures
            r == (if self.reverse { SortOrder::Descending } else { SortOrder::Ascending }),
    {
        if self.reverse {
            SortOrder::Descending
        } else {
            SortOrder::Ascending
        }
    }

    pub fn random_sort(&self) -> (r: bool)
        ensures
            r == (self.mode == SortMode::Random),
    {
        matches!(self.mode, SortMode::Random)
    }

    /// Whether the global mode compares numbers.
    pub fn numeric_sort(&self) -> (r: bool)
        ensures
            r == (self.mode == SortMode::Numeric || self.mode == SortMode::GeneralNumeric
                || self.mode == SortMode::HumanNumeric),
    {
        matches!(self.mode, SortMode::Numeric | SortMode::GeneralNumeric | SortMode::HumanNumeric)
    }

    /// Whether some key asks for a typed comparison.
    pub fn has_typed_keys(&self) -> (r: bool)
        ensures
            r == exists|i: int| 0 <= i < self.keys@.len() && key_is_typed(#[trigger] self.keys@[i]),
    {
        let mut i: usize = 0;
        while i < self.keys.len()
            invariant
                i <= self.keys@.len(),
                forall|k: int| 0 <= k < i ==> !key_is_typed(#[trigger] self.keys@[k]),
            decreases self.keys@.len() - i,
        {
            let o = self.keys[i].options;
            if o.numeric || o.general_numeric || o.human_numeric || o.month || o.version || o.random {
                return true;
            }
            i = i + 1;
        }
        false
    }

    /// Number of named inputs; zero means standard input.
    pub fn input_file_count(&self) -> (r: usize)
        ensures
            r == self.input_files@.len(),
    {
        self.input_files.len()
    }

    /// No input is named, or the only one is `-`.
    pub fn reading_from_stdin(&self) -> (r: bool)
        ensures
            r == (self.input_files@.len() == 0 || (self.input_files@.len() == 1
                && self.input_files@[0]@ == "-"@)),
    {
        proof {
            reveal_strlit("-");
        }
        if self.input_files.len() == 0 {
            return true;
        }
        if self.input_files.len() != 1 {
            return false;
        }
        let name = self.input_files[0].as_str();
        let n = name.unicode_len();
        if n != 1 {
            assert(name@ != "-"@);
            return false;
        }
        let c = name.get_char(0);
        if c == '-' {
            assert(name@ =~= "-"@);
            true
        } else {
            assert(name@[0] != "-"@[0]);
            false
        }
    }

    pub fn writing_to_stdout(&self) -> (r: bool)
        ensures
            r == self.output_file.is_none(),
    {
        self.output_file.is_none()
    }

    /// The buffer size, or 1 MiB where none is set.
    pub fn effective_buffer_size(&self) -> (r: usize)
        ensures
            r == match self.buffer_size {
                Some(b) => b,
                None => DEFAULT_BUFFER_SIZE,
            },
    {
        match self.buffer_size {
            Some(b) => b,
            None => DEFAULT_BUFFER_SIZE,
        }
    }

    /// The same options for merging already sorted inputs.
    pub fn for_merge(&self) -> (r: Self)
        ensures
            r.merge && !r.check,
            same_options(r, SortConfig { merge: true, check: false, ..*self }),
    {
        let mut c = self.duplicate();
        c.merge = true;
        c.check = false;
        c
    }

    /// The same options for checking order (no merging, no dropping of duplicates).
    pub fn for_check(&self) -> (r: Self)
        ensures
            r.check && !r.merge && !r.unique,
            same_options(r, SortConfig { check: true, merge: false, unique: false, ..*self }),
    {
        let mut c = self.duplicate();
        c.check = true;
        c.merge = false;
        c.unique = false;
        c
    }
}

/// Builds a configuration step by step and validates it at the end.
pub struct SortConfigBuilder {
    config: SortConfig,
}

impl SortConfigBuilder {
    /// The configuration built so far.
    pub closed spec fn current(&self) -> SortConfig {
        self.config
    }

    pub fn new() -> (r: Self)
        ensures
            is_default_config(r.current()),
    {
        SortConfigBuilder { config: SortConfig::default() }
    }

    pub fn mode(self, mode: SortMode) -> (r: Self)
        ensures
            r.current() == (SortConfig { mode, ..self.current() }),
    {
        let mut c = self;
        c.config.mode = mode;
        c
    }

    pub fn reverse(self) -> (r: Self)
        ensures
            r.current() == (SortConfig { reverse: true, ..self.current() }),
    {
        let mut c = self;
        c.config.reverse = true;
        c
    }

    pub fn unique(self) -> (r: Self)
        ensures
            r.current() == (SortConfig { unique: true, ..self.current() }),
    {
        let mut c = self;
        c.config.unique = true;
        c
    }

    pub fn stable(self) -> (r: Self)
        ensures
            r.current() == (SortConfig { stable: true, ..self.current() }),
    {
        let mut c = self;
        c.config.stable = true;
        c
    }

    pub fn check(self) -> (r: Self)
        ensures
            r.current() == (SortConfig { check: true, ..self.current() }),
    {
        let mut c = self;
        c.config.check = true;
        c
    }

    pub fn merge(self) -> (r: Self)
        ensures
            r.current() == (SortConfig { merge: true, ..self.current() }),
    {
        let mut c = self;
        c.config.merge = true;
        c
    }

    pub fn zero_terminated(self) -> (r: Self)
        ensures
            r.current() == (SortConfig { zero_terminated: true, ..self.current() }),
    {
        let mut c = self;
        c.config.zero_terminated = true;
        c
    }

    pub fn field_separator(self, separator: char) -> (r: Self)
        ensures
            r.current() == (SortConfig { field_separator: Some(separator), ..self.current() }),
    {
        let mut c = self;
        c.config.field_separator = Some(separator);
        c
    }

    pub fn key(self, key: SortKey) -> (r: Self)
        ensures
            r.current().keys@ == self.current().keys@.push(key),
            r.current() == (SortConfig { keys: r.current().keys, ..self.current() }),
    {
        let mut c = self;
        c.config.keys.push(key);
        c
    }

    pub fn output_file(self, file: String) -> (r: Self)
        ensures
            r.current() == (SortConfig { output_file: Some(file), ..self.current() }),
    {
        let mut c = self;
        c.config.output_file = Some(file);
        c
    }

    pub fn buffer_size(self, size: usize) -> (r: Self)
        ensures
            r.current() == (SortConfig { buffer_size: Some(size), ..self.current() }),
    {
        let mut c = self;
        c.config.buffer_size = Some(size);
        c
    }

    /// The configuration, if `validate` accepts it.
    pub fn build(self) -> (r: SortResult<SortConfig>)
        ensures
            match config_fault(self.current()) {
                None => r == Ok::<_, SortError>(self.current()),
                Some(f) => r is Err && fault_matches(f, r->Err_0),
            },
    {
        match self.config.validate() {
            Ok(()) => Ok(self.config),
            Err(e) => Err(e),
        }
    }
}

impl Default for SortConfigBuilder {
    fn default() -> (r: Self)
        ensures
            is_default_config(r.current()),
    {
        Self::new()
    }
}

} // verus!
