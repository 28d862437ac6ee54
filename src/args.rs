//! The options of a run as the command line gives them.
use vstd::prelude::*;
use crate::config::{chars_of, digit_run_end, digits_value, scan_number};

verus! {

#[derive(Debug, Clone)]
pub struct SortArgs {
    pub files: Vec<String>,
    pub output: Option<String>,
    pub reverse: bool,
    pub numeric_sort: bool,
    pub general_numeric_sort: bool,
    pub human_numeric_sort: bool,
    pub version_sort: bool,
    pub random_sort: bool,
    pub ignore_case: bool,
    pub unique: bool,
    pub stable: bool,
    pub field_separator: Option<char>,
    pub zero_terminated: bool,
    pub check: bool,
    pub merge: bool,
}

/// No files, no output file, every flag off.
pub open spec fn is_default_args(a: SortArgs) -> bool {
    &&& a.files@.len() == 0 && a.output.is_none() && a.field_separator.is_none()
    &&& !a.reverse && !a.numeric_sort && !a.general_numeric_sort && !a.human_numeric_sort
    &&& !a.version_sort && !a.random_sort && !a.ignore_case && !a.unique && !a.stable
    &&& !a.zero_terminated && !a.check && !a.merge
}

impl Default for SortArgs {
    fn default() -> (r: Self)
        ensures
            is_default_args(r),
    {
        SortArgs {
            files: Vec::new(),
            output: None,
            reverse: false,
            numeric_sort: false,
            general_numeric_sort: false,
            human_numeric_sort: false,
            version_sort: false,
            random_sort: false,
            ignore_case: false,
            unique: false,
            stable: false,
            field_separator: None,
            zero_terminated: false,
            check: false,
            merge: false,
        }
    }
}


/// The decimal digit `d` as a character.
pub open spec fn digit_char(d: int) -> char {
    if d == 0 {
        '0'
    } else if d == 1 {
        '1'
    } else if d == 2 {
        '2'
    } else if d == 3 {
        '3'
    } else if d == 4 {
        '4'
    } else if d == 5 {
        '5'
    } else if d == 6 {
        '6'
    } else if d == 7 {
        '7'
    } else if d == 8 {
        '8'
    } else {
        '9'
    }
}

/// `n` written in decimal.
pub open spec fn decimal(n: nat) -> Seq<char>
    decreases n,
{
    if n < 10 {
        seq![digit_char(n as int)]
    } else {
        decimal(n / 10) + seq![digit_char((n % 10) as int)]
    }
}

/// The number that `s` writes, if it is only digits (at least one) and fits in `usize`.
pub open spec fn number_of(s: Seq<char>) -> Option<nat> {
    if s.len() > 0 && digit_run_end(s, 0) == s.len() && digits_value(s, 0, s.len() as int) <= usize::MAX {
        Some(digits_value(s, 0, s.len() as int) as nat)
    } else {
        None
    }
}

/// `+N`, with `N` a number below the largest `usize`.
pub open spec fn legacy_start(a: Seq<char>) -> Option<nat> {
    if a.len() > 1 && a[0] == '+' {
        match number_of(a.drop_first()) {
            Some(n) => if n < usize::MAX { Some(n) } else { None },
            None => None,
        }
    } else {
        None
    }
}

/// `-M`, with `M` a number.
pub open spec fn legacy_end(a: Seq<char>) -> Option<nat> {
    if a.len() > 1 && a[0] == '-' {
        number_of(a.drop_first())
    } else {
        None
    }
}

/// The arguments from the `i`-th on, with each `+N [-M]` written as `-k N+1[,M]`.
pub open spec fn legacy_from(args: Seq<Seq<char>>, i: int) -> Seq<Seq<char>>
    decreases args.len() - i,
{
    if i < 0 || i >= args.len() {
        Seq::empty()
    } else {
        match legacy_start(args[i]) {
            Some(n) => if i + 1 < args.len() && legacy_end(args[i + 1]) is Some {
                seq!["-k"@, decimal(n + 1) + ","@ + decimal(legacy_end(args[i + 1])->0)] + legacy_from(args, i + 2)
            } else {
                seq!["-k"@, decimal(n + 1)] + legacy_from(args, i + 1)
            },
            None => seq![args[i]] + legacy_from(args, i + 1),
        }
    }
}

pub open spec fn texts(v: Seq<String>) -> Seq<Seq<char>> {
    v.map_values(|s: String| s@)
}

fn digit_text(d: usize) -> (r: &'static str)
    requires
        d < 10,
    ensures
        r@ == seq![digit_char(d as int)],
{
    proof {
        reveal_strlit("0");
        reveal_strlit("1");
        reveal_strlit("2");
        reveal_strlit("3");
        reveal_strlit("4");
        reveal_strlit("5");
        reveal_strlit("6");
        reveal_strlit("7");
        reveal_strlit("8");
        reveal_strlit("9");
    }
    let r = if d == 0 {
        "0"
    } else if d == 1 {
        "1"
    } else if d == 2 {
        "2"
    } else if d == 3 {
        "3"
    } else if d == 4 {
        "4"
    } else if d == 5 {
        "5"
    } else if d == 6 {
        "6"
    } else if d == 7 {
        "7"
    } else if d == 8 {
        "8"
    } else {
        "9"
    };
    assert(r@ =~= seq![digit_char(d as int)]);
    r
}

/// Appends `n` in decimal.
fn push_decimal(s: &mut String, n: usize)
    ensures
        final(s)@ == old(s)@ + decimal(n as nat),
    decreases n,
{
    if n >= 10 {
        push_decimal(s, n / 10);
    }
    s.append(digit_text(n % 10));
    proof {
        if n < 10 {
            assert(n % 10 == n);
        }
        assert(final(s)@ =~= old(s)@ + decimal(n as nat));
    }
}

/// The number that the text after the first character writes, if any.
fn number_after_first(a: &str) -> (r: Option<usize>)
    requires
        a@.len() > 0,
    ensures
        r matches Some(v) ==> number_of(a@.drop_first()) == Some(v as nat),
        r is None ==> number_of(a@.drop_first()) is None,
{
    let s = chars_of(a);
    let n = s.len();
    let (e, v) = scan_number(&s, 1, n);
    proof {
        assert(s@.subrange(1, n as int) =~= a@.drop_first());
    }
    if e != n || n == 1 {
        return None;
    }
    v
}

/// Rewrites the old `+N [-M]` key syntax of the arguments as `-k N+1[,M]`; the first
/// argument (the program name) and all others stay as they are.
pub fn convert_legacy_syntax(args: &Vec<String>) -> (r: Vec<String>)
    ensures
        texts(r@) == if args@.len() == 0 {
            Seq::<Seq<char>>::empty()
        } else {
            seq![args@[0]@] + legacy_from(texts(args@), 1)
        },
{
    proof {
        reveal_strlit("-k");
        reveal_strlit(",");
    }
    let ghost ta = texts(args@);
    let mut out: Vec<String> = Vec::new();
    if args.len() == 0 {
        assert(texts(out@) =~= Seq::<Seq<char>>::empty());
        return out;
    }
    out.push(args[0].clone());
    let n = args.len();
    let mut i: usize = 1;
    assert(texts(out@) =~= seq![args@[0]@]);
    while i < n
        invariant
            n == args@.len(),
            ta == texts(args@),
            1 <= i <= n + 1,
            texts(out@) + legacy_from(ta, i as int) == seq![args@[0]@] + legacy_from(ta, 1),
        decreases n + 1 - i,
    {
        let a = args[i].as_str();
        let ghost before = texts(out@);
        assert(ta[i as int] == a@);
        let start = if a.unicode_len() > 1 && a.get_char(0) == '+' {
            match number_after_first(a) {
                Some(v) => if v < usize::MAX {
                    Some(v)
                } else {
                    None
                },
                None => None,
            }
        } else {
            None
        };
        assert(start matches Some(v) ==> legacy_start(a@) == Some(v as nat));
        assert(start is None ==> legacy_start(a@) is None);
        match start {
            Some(v) => {
                let mut end: Option<usize> = None;
                if i + 1 < n {
                    let b = args[i + 1].as_str();
                    assert(ta[i + 1] == b@);
                    if b.unicode_len() > 1 && b.get_char(0) == '-' {
                        end = number_after_first(b);
                    }
                    assert(end matches Some(m) ==> legacy_end(b@) == Some(m as nat));
                    assert(end is None ==> legacy_end(b@) is None);
                }
                out.push(String::from_str("-k"));
                let mut key = String::new();
                push_decimal(&mut key, v + 1);
                match end {
                    Some(m) => {
                        key.append(",");
                        push_decimal(&mut key, m);
                        out.push(key);
                        proof {
                            assert(texts(out@) =~= before + seq!["-k"@, decimal((v + 1) as nat) + ","@ + decimal(m as nat)]);
                        }
                        i = i + 2;
                    },
                    None => {
                        out.push(key);
                        proof {
                            assert(texts(out@) =~= before + seq!["-k"@, decimal((v + 1) as nat)]);
                        }
                        i = i + 1;
                    },
                }
            },
            None => {
                out.push(args[i].clone());
                proof {
                    assert(texts(out@) =~= before.push(a@));
                }
                i = i + 1;
            },
        }
    }
    proof {
        assert(legacy_from(ta, i as int) =~= Seq::<Seq<char>>::empty());
        assert(texts(out@) + Seq::<Seq<char>>::empty() =~= texts(out@));
    }
    out
}

} // verus!
