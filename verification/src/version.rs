//! Semantic versions as numeric `major.minor.patch` triples, parsed from
//! their textual form. A version string is three decimal numbers without
//! leading zeros, separated by dots.

use vstd::prelude::*;

verus! {

pub const DOT: u8 = 46;

/// A parsed semantic version.
#[derive(Clone, Copy, PartialEq, Eq, Structural, Debug)]
pub struct Version {
    pub major: u64,
    pub minor: u64,
    pub patch: u64,
}

impl Version {
    /// Strict ordering: lexicographic on (major, minor, patch).
    pub open spec fn lt(self, other: Version) -> bool {
        self.major < other.major || (self.major == other.major && (self.minor < other.minor || (
        self.minor == other.minor && self.patch < other.patch)))
    }

    /// Whether this version is strictly newer than `other`.
    pub fn greater_than(&self, other: &Version) -> (r: bool)
        ensures
            r == other.lt(*self),
    {
        other.major < self.major || (other.major == self.major && (other.minor < self.minor || (
        other.minor == self.minor && other.patch < self.patch)))
    }
}

pub open spec fn is_digit(b: u8) -> bool {
    48 <= b <= 57
}

pub open spec fn all_digits(s: Seq<u8>) -> bool {
    forall|i: int| 0 <= i < s.len() ==> is_digit(s[i])
}

/// The value of a decimal digit string, most significant digit first.
pub open spec fn dec_value(s: Seq<u8>) -> int
    decreases s.len(),
{
    if s.len() == 0 {
        0
    } else {
        dec_value(s.take(s.len() - 1)) * 10 + (s[s.len() - 1] - 48)
    }
}

/// A well-formed decimal number: non-empty, at most 19 digits (so the
/// value fits in 64 bits), no leading zero except for `0` itself.
pub open spec fn valid_number(s: Seq<u8>) -> bool {
    1 <= s.len() <= 19 && all_digits(s) && (s.len() > 1 ==> s[0] != 48)
}

pub open spec fn pow10(n: nat) -> int
    decreases n,
{
    if n == 0 {
        1
    } else {
        10 * pow10((n - 1) as nat)
    }
}

pub proof fn lemma_dec_value_bound(s: Seq<u8>)
    requires
        all_digits(s),
    ensures
        0 <= dec_value(s) < pow10(s.len()),
    decreases s.len(),
{
    if s.len() > 0 {
        assert(all_digits(s.take(s.len() - 1)));
        lemma_dec_value_bound(s.take(s.len() - 1));
    }
}

pub proof fn lemma_pow10_19()
    ensures
        pow10(19) == 10_000_000_000_000_000_000,
{
    reveal_with_fuel(pow10, 20);
}

/// The first position at or after `i` holding a dot (or the end).
pub open spec fn dot_end(s: Seq<u8>, i: int) -> int
    decreases s.len() - i when 0 <= i <= s.len()
{
    if i < s.len() && s[i] != DOT {
        dot_end(s, i + 1)
    } else {
        i
    }
}

/// Parse a version string: exactly three well-formed decimal numbers
/// separated by single dots.
pub open spec fn spec_parse_version(s: Seq<u8>) -> Option<Version> {
    let d1 = dot_end(s, 0);
    let d2 = dot_end(s, d1 + 1);
    if d1 < s.len() && d2 < s.len() && dot_end(s, d2 + 1) == s.len() && valid_number(
        s.subrange(0, d1),
    ) && valid_number(s.subrange(d1 + 1, d2)) && valid_number(s.subrange(d2 + 1, s.len() as int)) {
        Some(
            Version {
                major: dec_value(s.subrange(0, d1)) as u64,
                minor: dec_value(s.subrange(d1 + 1, d2)) as u64,
                patch: dec_value(s.subrange(d2 + 1, s.len() as int)) as u64,
            },
        )
    } else {
        None
    }
}

/// Whether the bytes form a well-formed version string.
pub open spec fn valid_version(s: Seq<u8>) -> bool {
    spec_parse_version(s) is Some
}

/// Find the first dot at or after `i`.
fn exec_dot_end(s: &Vec<u8>, i: usize) -> (r: usize)
    requires
        i <= s.len(),
    ensures
        r as int == dot_end(s@, i as int),
        i <= r <= s.len(),
{
    let mut j = i;
    while j < s.len() && s[j] != DOT
        invariant
            i <= j <= s.len(),
            dot_end(s@, i as int) == dot_end(s@, j as int),
        decreases s.len() - j,
    {
        j += 1;
    }
    j
}

/// Read the value of the digits `s[lo..hi]`, checking them on the way;
/// `None` unless they form a well-formed decimal number.
fn parse_number(s: &Vec<u8>, lo: usize, hi: usize) -> (r: Option<u64>)
    requires
        lo <= hi <= s.len(),
    ensures
        match r {
            Some(v) => valid_number(s@.subrange(lo as int, hi as int)) && v == dec_value(
                s@.subrange(lo as int, hi as int),
            ),
            None => !valid_number(s@.subrange(lo as int, hi as int)),
        },
{
    let part = Ghost(s@.subrange(lo as int, hi as int));
    if hi - lo < 1 || hi - lo > 19 {
        return None;
    }
    if hi - lo > 1 && s[lo] == 48 {
        return None;
    }
    let mut v: u64 = 0;
    let mut k = lo;
    while k < hi
        invariant
            lo <= k <= hi <= s.len(),
            hi - lo <= 19,
            all_digits(s@.subrange(lo as int, k as int)),
            v == dec_value(s@.subrange(lo as int, k as int)),
            v < pow10((k - lo) as nat),
        decreases hi - k,
    {
        let b = s[k];
        if b < 48 || b > 57 {
            proof {
                assert(s@.subrange(lo as int, hi as int)[k - lo] == s@[k as int]);
                assert(!all_digits(s@.subrange(lo as int, hi as int)));
            }
            return None;
        }
        proof {
            lemma_pow10_19();
            assert(pow10((k - lo) as nat) * 10 == pow10((k - lo + 1) as nat));
            assert(pow10((k + 1 - lo) as nat) <= pow10(19)) by {
                lemma_pow10_monotone((k + 1 - lo) as nat, 19);
            }
            assert(s@.subrange(lo as int, k + 1).take(k - lo) =~= s@.subrange(
                lo as int,
                k as int,
            ));
            assert(s@.subrange(lo as int, k + 1)[k - lo] == s@[k as int]);
        }
        v = v * 10 + ((b - 48) as u64);
        k += 1;
    }
    proof {
        assert(s@.subrange(lo as int, k as int) =~= part@);
    }
    Some(v)
}

pub proof fn lemma_pow10_monotone(a: nat, b: nat)
    requires
        a <= b,
    ensures
        pow10(a) <= pow10(b),
        pow10(a) >= 1,
    decreases b,
{
    if b > 0 {
        if a == b {
            lemma_pow10_monotone((a - 1) as nat, (b - 1) as nat);
        } else {
            lemma_pow10_monotone(a, (b - 1) as nat);
        }
    }
}

/// Parse a version string into its numeric triple; `None` unless it is
/// three well-formed decimal numbers separated by dots.
pub fn parse_version(s: &Vec<u8>) -> (r: Option<Version>)
    ensures
        r == spec_parse_version(s@),
{
    let d1 = exec_dot_end(s, 0);
    if d1 >= s.len() {
        return None;
    }
    let d2 = exec_dot_end(s, d1 + 1);
    if d2 >= s.len() {
        return None;
    }
    let d3 = exec_dot_end(s, d2 + 1);
    if d3 != s.len() {
        return None;
    }
    let major = parse_number(s, 0, d1);
    let minor = parse_number(s, d1 + 1, d2);
    let patch = parse_number(s, d2 + 1, s.len());
    match (major, minor, patch) {
        (Some(a), Some(b), Some(c)) => {
            proof {
                lemma_pow10_19();
                lemma_dec_value_bound(s@.subrange(0, d1 as int));
                lemma_dec_value_bound(s@.subrange(d1 + 1, d2 as int));
                lemma_dec_value_bound(s@.subrange(d2 + 1, s@.len() as int));
                lemma_pow10_monotone(s@.subrange(0, d1 as int).len(), 19);
                lemma_pow10_monotone(s@.subrange(d1 + 1, d2 as int).len(), 19);
                lemma_pow10_monotone(s@.subrange(d2 + 1, s@.len() as int).len(), 19);
            }
            Some(Version { major: a, minor: b, patch: c })
        },
        _ => None,
    }
}

} // verus!
