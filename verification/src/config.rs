//! Run configuration: side length, batch count and output mode, parsed from
//! the argument list and validated before any generation begins.

use vstd::prelude::*;

verus! {

/// The output mode of a run: one maze per line on standard output
/// (`Computer`), the same but paused after every merge attempt
/// (`ComputerStep`), one grid row per line (`Verbose`), or one maze per line
/// appended to a log file (`Print`).
#[derive(Debug)]
pub enum Mode {
    Computer,
    ComputerStep,
    Verbose,
    Print,
}

/// A validated run configuration: an odd side length greater than 4, a
/// positive batch count, and an output mode.
#[derive(Debug)]
pub struct Config {
    pub size: usize,
    pub count: usize,
    pub mode: Mode,
}

/// Whether `c` is a decimal digit.
pub open spec fn is_digit(c: char) -> bool {
    48 <= c as int <= 57
}

/// Every character is a decimal digit.
pub open spec fn all_digits(s: Seq<char>) -> bool {
    forall|i: int| 0 <= i < s.len() ==> is_digit(#[trigger] s[i])
}

/// The number a digit string denotes.
pub open spec fn digits_value(s: Seq<char>) -> int
    decreases s.len(),
{
    if s.len() == 0 {
        0
    } else {
        digits_value(s.drop_last()) * 10 + (s.last() as int - 48)
    }
}

/// The digit part of a numeral: one optional leading `+` is dropped, as in
/// the machine's own unsigned parsing.
pub open spec fn numeral_digits(s: Seq<char>) -> Seq<char> {
    if s.len() > 0 && s[0] == '+' {
        s.subrange(1, s.len() as int)
    } else {
        s
    }
}

/// The number a numeral denotes.
pub open spec fn numeral_value(s: Seq<char>) -> int {
    digits_value(numeral_digits(s))
}

/// A string parses as a `usize` exactly when, after one optional leading
/// `+`, it is non-empty, holds only decimal digits, and its value fits the
/// machine.
pub open spec fn parses_as_usize(s: Seq<char>) -> bool {
    let d = numeral_digits(s);
    d.len() > 0 && all_digits(d) && digits_value(d) <= usize::MAX
}

/// The mode a mode string selects.
pub open spec fn mode_of(s: Seq<char>) -> Option<Mode> {
    if s == "c"@ {
        Some(Mode::Computer)
    } else if s == "cs"@ {
        Some(Mode::ComputerStep)
    } else if s == "v"@ {
        Some(Mode::Verbose)
    } else if s == "p"@ {
        Some(Mode::Print)
    } else {
        None
    }
}

/// The error a given argument list is rejected with, if any, following the
/// order of the checks: enough arguments, both numbers parse, the mode is
/// known, the size is greater than 4 and odd, the count is positive.
pub open spec fn config_error(args: Seq<Seq<char>>) -> Option<Seq<char>> {
    if args.len() < 4 {
        Some("not enough arguments"@)
    } else if !parses_as_usize(args[1]) {
        Some("not a valid number"@)
    } else if !parses_as_usize(args[2]) {
        Some("not a valid number"@)
    } else if mode_of(args[3]) is None {
        Some("not a valid mode"@)
    } else if numeral_value(args[1]) <= 4 {
        Some("size must be greater than 4"@)
    } else if numeral_value(args[1]) % 2 != 1 {
        Some("size must be odd number"@)
    } else if numeral_value(args[2]) <= 0 {
        Some("must specify positive count"@)
    } else {
        None
    }
}

/// A digit string's value is nonnegative.
proof fn lemma_digits_nonneg(s: Seq<char>)
    requires
        all_digits(s),
    ensures
        digits_value(s) >= 0,
    decreases s.len(),
{
    if s.len() > 0 {
        assert forall|i: int| 0 <= i < s.drop_last().len() implies is_digit(
            #[trigger] s.drop_last()[i],
        ) by {
            assert(s.drop_last()[i] == s[i]);
        }
        lemma_digits_nonneg(s.drop_last());
    }
}

/// A subrange of a digit string is a digit string.
proof fn lemma_all_digits_subrange(s: Seq<char>, i: int, j: int)
    requires
        all_digits(s),
        0 <= i <= j <= s.len(),
    ensures
        all_digits(s.subrange(i, j)),
{
    assert forall|k: int| 0 <= k < j - i implies is_digit(#[trigger] s.subrange(i, j)[k]) by {
        assert(s.subrange(i, j)[k] == s[i + k]);
    }
}

/// Extending a digit prefix by one character multiplies its value by ten and
/// adds the digit.
proof fn lemma_digits_extend(s: Seq<char>, i: int)
    requires
        0 <= i < s.len(),
    ensures
        digits_value(s.subrange(0, i + 1)) == digits_value(s.subrange(0, i)) * 10 + (
        s[i] as int - 48),
{
    assert(s.subrange(0, i + 1).drop_last() =~= s.subrange(0, i));
    assert(s.subrange(0, i + 1).last() == s[i]);
}

/// A digit string's value is at least the value of any of its prefixes.
proof fn lemma_digits_prefix_bound(s: Seq<char>, i: int)
    requires
        all_digits(s),
        0 <= i <= s.len(),
    ensures
        digits_value(s) >= digits_value(s.subrange(0, i)),
    decreases s.len() - i,
{
    if i == s.len() {
        assert(s.subrange(0, i) =~= s);
    } else {
        lemma_digits_extend(s, i);
        lemma_all_digits_subrange(s, 0, i);
        lemma_digits_nonneg(s.subrange(0, i));
        assert(is_digit(s[i]));
        lemma_digits_prefix_bound(s, i + 1);
    }
}

/// Parse a decimal `usize` as the machine's own unsigned parsing does: one
/// optional leading `+`, then one or more decimal digits whose value fits;
/// every other string gives `None`.
pub fn parse_usize(s: &str) -> (r: Option<usize>)
    ensures
        r is Some <==> parses_as_usize(s@),
        r is Some ==> r->0 == numeral_value(s@),
{
    let n = s.unicode_len();
    let mut i: usize = 0;
    if n > 0 && s.get_char(0) == '+' {
        i = 1;
    }
    let ghost start = i as int;
    let ghost d = numeral_digits(s@);
    proof {
        assert(d =~= s@.subrange(start, n as int));
    }
    if i == n {
        return None;
    }
    let mut val: usize = 0;
    while i < n
        invariant
            n == s@.len(),
            d == numeral_digits(s@),
            d =~= s@.subrange(start, n as int),
            0 <= start <= i <= n,
            start < n,
            all_digits(d.subrange(0, i - start)),
            val == digits_value(d.subrange(0, i - start)),
        decreases n - i,
    {
        let c = s.get_char(i);
        proof {
            assert(d[i - start] == s@[i as int]);
        }
        let dc = c as u32;
        if dc < 48 || dc > 57 {
            proof {
                assert(!is_digit(d[i - start]));
            }
            return None;
        }
        let dv = (dc - 48) as usize;
        let overflowed: bool;
        match val.checked_mul(10) {
            Some(v10) => {
                match v10.checked_add(dv) {
                    Some(v) => {
                        val = v;
                        overflowed = false;
                    },
                    None => {
                        overflowed = true;
                    },
                }
            },
            None => {
                overflowed = true;
            },
        }
        if overflowed {
            proof {
                lemma_digits_extend(d, i - start);
                if all_digits(d) {
                    lemma_digits_prefix_bound(d, i - start + 1);
                }
            }
            return None;
        }
        i = i + 1;
        proof {
            lemma_digits_extend(d, i - start - 1);
            assert forall|k: int| 0 <= k < i - start implies is_digit(
                #[trigger] d.subrange(0, i - start)[k],
            ) by {
                assert(d.subrange(0, i - start)[k] == d[k]);
                if k < i - start - 1 {
                    assert(d.subrange(0, i - start - 1)[k] == d[k]);
                }
            }
        }
    }
    proof {
        assert(d.subrange(0, n as int - start) =~= d);
    }
    Some(val)
}

/// Whether two strings hold the same characters.
fn str_eq(a: &str, b: &str) -> (r: bool)
    ensures
        r == (a@ == b@),
{
    let n = a.unicode_len();
    if n != b.unicode_len() {
        return false;
    }
    let mut i: usize = 0;
    while i < n
        invariant
            n == a@.len(),
            n == b@.len(),
            i <= n,
            forall|k: int| 0 <= k < i ==> a@[k] == b@[k],
        decreases n - i,
    {
        if a.get_char(i) != b.get_char(i) {
            return false;
        }
        i = i + 1;
    }
    proof {
        assert(a@ =~= b@);
    }
    true
}

impl Config {
    /// Validate an argument list into a configuration. The first argument is
    /// ignored (by convention it names the program); the next three are the
    /// side length, the batch count and the mode string. Exactly the
    /// malformed and out-of-range argument lists are rejected, each with the
    /// message of the first failing check, before any generation begins.
    pub fn new(args: &[String]) -> (r: Result<Config, &'static str>)
        ensures
            ({
                let v = args@.map_values(|a: String| a@);
                match r {
                    Ok(c) => {
                        &&& config_error(v) is None
                        &&& c.size == numeral_value(v[1])
                        &&& c.count == numeral_value(v[2])
                        &&& Some(c.mode) == mode_of(v[3])
                    },
                    Err(e) => config_error(v) == Some(e@),
                }
            }),
    {
        let ghost v = args@.map_values(|a: String| a@);
        if args.len() < 4 {
            return Err("not enough arguments");
        }
        let size = match parse_usize(args[1].as_str()) {
            Some(val) => val,
            None => {
                return Err("not a valid number");
            },
        };
        let count = match parse_usize(args[2].as_str()) {
            Some(val) => val,
            None => {
                return Err("not a valid number");
            },
        };
        let m = args[3].as_str();
        let mode: Mode;
        if str_eq(m, "c") {
            mode = Mode::Computer;
        } else if str_eq(m, "cs") {
            mode = Mode::ComputerStep;
        } else if str_eq(m, "v") {
            mode = Mode::Verbose;
        } else if str_eq(m, "p") {
            mode = Mode::Print;
        } else {
            return Err("not a valid mode");
        }
        if size <= 4 {
            return Err("size must be greater than 4");
        }
        if size % 2 != 1 {
            return Err("size must be odd number");
        }
        if count == 0 {
            return Err("must specify positive count");
        }
        Ok(Config { size, count, mode })
    }
}

} // verus!
