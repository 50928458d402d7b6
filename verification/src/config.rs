//! The runtime's settings and how they are read from textual values.
use vstd::prelude::*;
use crate::text::chars_of;

verus! {

/// The runtime's settings.
#[derive(Debug, PartialEq, Eq)]
pub struct RuntimeConfig {
    pub assistant_name: String,
    pub poll_interval_ms: u64,
    pub idle_timeout_ms: u64,
}

/// The assistant's name unless configured otherwise.
pub open spec fn default_assistant_name() -> Seq<char> {
    seq!['A', 'n', 'd', 'y']
}

/// The polling interval unless configured otherwise.
pub open spec fn default_poll_interval_ms() -> u64 {
    3000
}

/// The idle timeout unless configured otherwise.
pub open spec fn default_idle_timeout_ms() -> u64 {
    180_000
}

impl Clone for RuntimeConfig {
    fn clone(&self) -> (r: Self)
        ensures
            r == *self,
    {
        RuntimeConfig {
            assistant_name: self.assistant_name.clone(),
            poll_interval_ms: self.poll_interval_ms,
            idle_timeout_ms: self.idle_timeout_ms,
        }
    }
}

impl Default for RuntimeConfig {
    fn default() -> (cfg: Self)
        ensures
            cfg.assistant_name@ == default_assistant_name(),
            cfg.poll_interval_ms == default_poll_interval_ms(),
            cfg.idle_timeout_ms == default_idle_timeout_ms(),
    {
        let name = "Andy".to_owned();
        proof {
            reveal_strlit("Andy");
            assert(name@ =~= default_assistant_name());
        }
        RuntimeConfig { assistant_name: name, poll_interval_ms: 3000, idle_timeout_ms: 180_000 }
    }
}

/// Whether `c` is an ASCII decimal digit.
pub open spec fn is_digit(c: char) -> bool {
    '0' <= c <= '9'
}

/// The number that the decimal digits `d` write.
pub open spec fn digits_value(d: Seq<char>) -> nat
    decreases d.len(),
{
    if d.len() == 0 {
        0
    } else {
        10 * digits_value(d.drop_last()) + ((d.last() as int) - ('0' as int)) as nat
    }
}

/// The digits of `s` after an optional leading `+`.
pub open spec fn unsigned_digits(s: Seq<char>) -> Seq<char> {
    if s.len() > 0 && s[0] == '+' {
        s.drop_first()
    } else {
        s
    }
}

/// What `str::parse::<u64>` gives for `s`: an optional `+` followed by one or
/// more decimal digits whose value fits in a `u64`; otherwise `None`.
pub open spec fn parse_u64_spec(s: Seq<char>) -> Option<u64> {
    let d = unsigned_digits(s);
    if d.len() == 0 || !(forall|i: int| 0 <= i < d.len() ==> is_digit(#[trigger] d[i])) {
        None
    } else if digits_value(d) > u64::MAX {
        None
    } else {
        Some(digits_value(d) as u64)
    }
}

proof fn lemma_digits_prefix_le(d: Seq<char>, j: int)
    requires
        0 <= j <= d.len(),
        forall|i: int| 0 <= i < d.len() ==> is_digit(#[trigger] d[i]),
    ensures
        digits_value(d.take(j)) <= digits_value(d),
    decreases d.len() - j,
{
    if j < d.len() {
        let t = d.take(j + 1);
        assert(t.drop_last() =~= d.take(j));
        assert(is_digit(t.last()));
        lemma_digits_prefix_le(d, j + 1);
        assert(d.take(d.len() as int) =~= d);
    } else {
        assert(d.take(j) =~= d);
    }
}

/// `s` read as a `u64` the way `str::parse::<u64>` reads it.
pub fn parse_u64(s: &str) -> (r: Option<u64>)
    ensures
        r == parse_u64_spec(s@),
{
    let v = chars_of(s);
    let n: usize = v.len();
    let start: usize = if n > 0 && v[0] == '+' { 1 } else { 0 };
    let ghost d = unsigned_digits(v@);
    assert(d =~= v@.skip(start as int));
    if start == n {
        return None;
    }
    let mut value: u64 = 0;
    let mut i: usize = start;
    assert(d.take(0) =~= Seq::<char>::empty());
    while i < n
        invariant
            n == v@.len(),
            start <= i <= n,
            start < n,
            d == v@.skip(start as int),
            d == unsigned_digits(s@),
            forall|k: int| 0 <= k < i - start ==> is_digit(#[trigger] d[k]),
            value == digits_value(d.take(i - start)),
        decreases n - i,
    {
        let c = v[i];
        if !('0' <= c && c <= '9') {
            assert(d[i - start] == c);
            assert(!is_digit(d[i - start]));
            return None;
        }
        assert(d.take(i - start + 1).drop_last() =~= d.take(i - start));
        assert(d.take(i - start + 1).last() == c);
        let digit: u64 = (c as u32 - '0' as u32) as u64;
        assert(digits_value(d.take(i - start + 1)) == 10 * value + digit);
        let next = match value.checked_mul(10) {
            Some(t) => t.checked_add(digit),
            None => None,
        };
        match next {
            Some(t) => {
                value = t;
            },
            None => {
                proof {
                    assert(10 * value + digit > u64::MAX);
                    if forall|k: int| 0 <= k < d.len() ==> is_digit(#[trigger] d[k]) {
                        lemma_digits_prefix_le(d, i - start + 1);
                    }
                }
                return None;
            },
        }
        i = i + 1;
    }
    assert(d.take(n - start) =~= d);
    Some(value)
}

/// `text` read as a `u64`, or `default` when it is absent or unreadable.
fn parse_or(text: Option<String>, default: u64) -> (r: u64)
    ensures
        r == match text {
            Some(t) => match parse_u64_spec(t@) {
                Some(v) => v,
                None => default,
            },
            None => default,
        },
{
    match text {
        Some(t) => match parse_u64(t.as_str()) {
            Some(v) => v,
            None => default,
        },
        None => default,
    }
}

impl RuntimeConfig {
    /// The settings given by the textual values of `ASSISTANT_NAME`,
    /// `POLL_INTERVAL_MS` and `IDLE_TIMEOUT_MS` (`None` where unset): the
    /// name as given, each number as `str::parse::<u64>` reads it, and the
    /// default wherever a value is absent or a number is unreadable.
    pub fn from_values(
        assistant_name: Option<String>,
        poll_interval_ms: Option<String>,
        idle_timeout_ms: Option<String>,
    ) -> (cfg: Self)
        ensures
            cfg.assistant_name@ == match assistant_name {
                Some(n) => n@,
                None => default_assistant_name(),
            },
            cfg.poll_interval_ms == match poll_interval_ms {
                Some(t) => match parse_u64_spec(t@) {
                    Some(v) => v,
                    None => default_poll_interval_ms(),
                },
                None => default_poll_interval_ms(),
            },
            cfg.idle_timeout_ms == match idle_timeout_ms {
                Some(t) => match parse_u64_spec(t@) {
                    Some(v) => v,
                    None => default_idle_timeout_ms(),
                },
                None => default_idle_timeout_ms(),
            },
    {
        let default = RuntimeConfig::default();
        let name = match assistant_name {
            Some(n) => n,
            None => default.assistant_name,
        };
        RuntimeConfig {
            assistant_name: name,
            poll_interval_ms: parse_or(poll_interval_ms, default.poll_interval_ms),
            idle_timeout_ms: parse_or(idle_timeout_ms, default.idle_timeout_ms),
        }
    }
}

} // verus!
