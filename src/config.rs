use vstd::prelude::*;
use crate::store::Rank;

verus! {

/// The largest sum of ranks, in whole ranks, where none is configured.
pub const DEFAULT_MAX_AGE: u64 = 10000;

/// The settings that the store's operations take.
#[derive(Debug, Clone, Copy, PartialEq, Eq, Structural)]
pub struct Config {
    /// The largest sum of ranks that aging allows.
    pub max_total: Rank,
    /// What one visit adds to a rank.
    pub increment: Rank,
}

impl Config {
    /// The default settings: a sum of ranks of at most 10000, and 1 per visit.
    pub fn new() -> (r: Config)
        ensures
            r.max_total == DEFAULT_MAX_AGE,
            r.increment == 1,
    {
        Config { max_total: DEFAULT_MAX_AGE, increment: 1 }
    }
}

/// Why a setting could not be read.
#[derive(Debug, PartialEq, Eq, Structural)]
pub enum ConfigError {
    /// The maximum age is not a whole number that fits in a `u64`.
    InvalidMaxAge,
}

/// A boolean setting is on exactly when its value is `1`.
pub fn flag_enabled(value: Option<&str>) -> (r: bool)
    ensures
        r == (value matches Some(v) && v@ == seq!['1']),
{
    match value {
        Some(v) => {
            if v.unicode_len() == 1 && v.get_char(0) == '1' {
                assert(v@ =~= seq!['1']);
                true
            } else {
                assert(v@ != seq!['1']) by {
                    if v@ == seq!['1'] {
                        assert(v@.len() == 1 && v@[0] == '1');
                    }
                }
                false
            }
        },
        None => false,
    }
}

pub open spec fn is_digit(c: char) -> bool {
    '0' <= c && c <= '9'
}

pub open spec fn all_digits(s: Seq<char>) -> bool {
    forall|i: int| 0 <= i < s.len() ==> is_digit(#[trigger] s[i])
}

/// The number that a string of decimal digits denotes.
pub open spec fn decimal_value(s: Seq<char>) -> int
    decreases s.len(),
{
    if s.len() == 0 {
        0
    } else {
        decimal_value(s.drop_last()) * 10 + (s.last() as int - '0' as int)
    }
}

/// What `u64`'s `FromStr` reads from a string: an optional `+`, then one or
/// more decimal digits, denoting a value that fits.
pub open spec fn parsed_u64(s: Seq<char>) -> Option<u64> {
    let d = if s.len() > 0 && s[0] == '+' {
        s.drop_first()
    } else {
        s
    };
    if d.len() > 0 && all_digits(d) && decimal_value(d) <= u64::MAX {
        Some(decimal_value(d) as u64)
    } else {
        None
    }
}

/// The configured maximum sum of ranks: the default where none is set, the
/// given number otherwise.
pub open spec fn max_total_setting(value: Option<Seq<char>>) -> Result<Rank, ConfigError> {
    match value {
        None => Ok(DEFAULT_MAX_AGE),
        Some(s) => match parsed_u64(s) {
            Some(v) => Ok(v),
            None => Err(ConfigError::InvalidMaxAge),
        },
    }
}

proof fn lemma_decimal_value_grows(s: Seq<char>, i: int)
    requires
        0 <= i <= s.len(),
        all_digits(s),
    ensures
        decimal_value(s) >= decimal_value(s.subrange(0, i)) >= 0,
    decreases s.len(),
{
    if s.len() > 0 {
        let p = s.drop_last();
        assert(all_digits(p)) by {
            assert forall|k: int| 0 <= k < p.len() implies is_digit(#[trigger] p[k]) by {
                assert(p[k] == s[k]);
            }
        }
        assert(is_digit(s[s.len() - 1]));
        if i == s.len() {
            assert(s.subrange(0, i) =~= s);
            lemma_decimal_value_grows(p, 0);
        } else {
            assert(p.subrange(0, i) =~= s.subrange(0, i));
            lemma_decimal_value_grows(p, i);
        }
    } else {
        assert(s.subrange(0, i) =~= s);
    }
}

/// Reads a decimal number as `u64`'s `FromStr` does.
pub fn parse_u64(s: &str) -> (r: Option<u64>)
    ensures
        r == parsed_u64(s@),
{
    let n = s.unicode_len();
    let start: usize = if n > 0 && s.get_char(0) == '+' {
        1
    } else {
        0
    };
    let ghost d = if s@.len() > 0 && s@[0] == '+' {
        s@.drop_first()
    } else {
        s@
    };
    assert(d =~= s@.subrange(start as int, n as int));
    if start == n {
        return None;
    }
    let mut acc: u64 = 0;
    let mut i: usize = start;
    while i < n
        invariant
            start <= i <= n == s@.len(),
            d == s@.subrange(start as int, n as int),
            d == (if s@.len() > 0 && s@[0] == '+' { s@.drop_first() } else { s@ }),
            d.len() > 0,
            all_digits(d.subrange(0, i - start)),
            acc == decimal_value(d.subrange(0, i - start)),
        decreases n - i,
    {
        let c = s.get_char(i);
        let ghost pre = d.subrange(0, i - start);
        let ghost next = d.subrange(0, i + 1 - start);
        assert(next.drop_last() =~= pre);
        assert(next.last() == c);
        if !('0' <= c && c <= '9') {
            assert(!all_digits(d)) by {
                assert(d[i - start] == c);
            }
            return None;
        }
        let digit = (c as u32 - '0' as u32) as u64;
        assert(digit == c as int - '0' as int);
        if acc > (u64::MAX - digit) / 10 {
            proof {
                let a = acc as int;
                let g = digit as int;
                assert(a * 10 + g > u64::MAX) by (nonlinear_arith)
                    requires a > (u64::MAX - g) / 10, 0 <= g <= 9;
                assert(decimal_value(next) > u64::MAX);
                if all_digits(d) {
                    lemma_decimal_value_grows(d, i + 1 - start);
                }
            }
            return None;
        }
        assert(all_digits(next)) by {
            assert forall|k: int| 0 <= k < next.len() implies is_digit(#[trigger] next[k]) by {
                if k < pre.len() {
                    assert(next[k] == pre[k]);
                }
            }
        }
        acc = acc * 10 + digit;
        i = i + 1;
    }
    assert(d.subrange(0, n - start) =~= d);
    Some(acc)
}

/// Reads the maximum sum of ranks from its setting, if one is given.
pub fn parse_max_total(value: Option<&str>) -> (r: Result<Rank, ConfigError>)
    ensures
        r == max_total_setting(
            match value {
                Some(v) => Some(v@),
                None => None,
            },
        ),
{
    match value {
        None => Ok(DEFAULT_MAX_AGE),
        Some(v) => match parse_u64(v) {
            Some(n) => Ok(n),
            None => Err(ConfigError::InvalidMaxAge),
        },
    }
}

} // verus!
