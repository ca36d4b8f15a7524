//! Project versions of the form `major[.minor[.patch]]`.
use vstd::prelude::*;
use crate::chars::{
    chars_of, is_ascii_digit, lemma_split_on_len, split_on, split_ranges, string_of_range,
};

verus! {

#[verifier::external_type_specification]
#[verifier::external_body]
pub struct ExParseIntError(core::num::ParseIntError);

/// A version number.
#[derive(Debug, Clone, Copy, PartialEq, Eq, PartialOrd, Ord, Hash, Structural)]
pub struct Version {
    pub major: usize,
    pub minor: usize,
    pub patch: usize,
}

/// Why a text is not a version.
#[derive(Debug, PartialEq, Eq)]
pub enum ParseVersionError {
    /// A component is not a decimal number that fits in `usize`.
    Int(core::num::ParseIntError),
    /// More than three components.
    Overflow,
}

impl ParseVersionError {
    pub fn is_int(&self) -> (r: bool)
        ensures
            r == (self is Int),
    {
        match self {
            ParseVersionError::Int(_) => true,
            _ => false,
        }
    }
}

pub open spec fn all_digits(s: Seq<char>) -> bool {
    forall|i: int| 0 <= i < s.len() ==> is_ascii_digit(#[trigger] s[i])
}

/// The value of a run of decimal digits.
pub open spec fn digits_value(s: Seq<char>) -> nat
    decreases s.len(),
{
    if s.len() == 0 {
        0
    } else {
        digits_value(s.drop_last()) * 10 + ((s.last() as int) - ('0' as int)) as nat
    }
}

/// The digits of a decimal number after its optional `+`.
pub open spec fn decimal_digits(s: Seq<char>) -> Seq<char> {
    if s.len() > 0 && s[0] == '+' {
        s.drop_first()
    } else {
        s
    }
}

/// Whether `s` is a decimal number that fits in `usize`.
pub open spec fn decimal_ok(s: Seq<char>) -> bool {
    decimal_digits(s).len() > 0 && all_digits(decimal_digits(s)) && digits_value(decimal_digits(s))
        <= usize::MAX
}

pub open spec fn decimal_value(s: Seq<char>) -> nat {
    digits_value(decimal_digits(s))
}

/// Relies on usize's FromStr: an optional `+` followed by one or more ASCII
/// digits whose value fits in usize gives that value; any other text is an
/// error.
#[verifier::external_body]
fn parse_usize(s: &str) -> (r: Result<usize, core::num::ParseIntError>)
    ensures
        r is Ok <==> decimal_ok(s@),
        r matches Ok(v) ==> v == decimal_value(s@),
{
    s.parse::<usize>()
}

/// Whether every one of at most three components is a number.
pub open spec fn version_ok(s: Seq<char>) -> bool {
    let ps = split_on(s, '.');
    ps.len() <= 3 && forall|k: int| 0 <= k < ps.len() ==> decimal_ok(#[trigger] ps[k])
}

pub open spec fn component(ps: Seq<Seq<char>>, k: int) -> usize {
    if k < ps.len() {
        decimal_value(ps[k]) as usize
    } else {
        0
    }
}

/// The version a valid text denotes; missing components are zero.
pub open spec fn version_of(s: Seq<char>) -> Version {
    let ps = split_on(s, '.');
    Version { major: component(ps, 0), minor: component(ps, 1), patch: component(ps, 2) }
}

impl Version {
    pub fn new(major: usize, minor: usize, patch: usize) -> (r: Version)
        ensures
            r == (Version { major, minor, patch }),
    {
        Version { major, minor, patch }
    }

    /// Parses `major[.minor[.patch]]`. A fourth component is `Overflow`
    /// once the first three are numbers; a component that is not a number
    /// is `Int`.
    pub fn from_str(s: &str) -> (r: Result<Version, ParseVersionError>)
        ensures
            r is Ok <==> version_ok(s@),
            r matches Ok(v) ==> v == version_of(s@),
            r matches Err(ParseVersionError::Overflow) <==> split_on(s@, '.').len() > 3 && forall|
                k: int,
            | 0 <= k < 3 ==> decimal_ok(#[trigger] split_on(s@, '.')[k]),
    {
        let cs = chars_of(s);
        let ranges = split_ranges(&cs, '.');
        let ghost ps = split_on(cs@, '.');
        proof {
            lemma_split_on_len(cs@, '.');
        }
        let mut vals: Vec<usize> = Vec::new();
        let mut k: usize = 0;
        while k < ranges.len()
            invariant
                cs@ == s@,
                ps == split_on(cs@, '.'),
                ranges@.len() == ps.len(),
                forall|j: int| 0 <= j < ranges@.len() ==> #[trigger] ranges@[j].0 <= ranges@[j].1 <= cs@.len(),
                forall|j: int|
                    0 <= j < ranges@.len() ==> cs@.subrange(ranges@[j].0 as int, ranges@[j].1 as int)
                        == #[trigger] ps[j],
                0 <= k <= ranges.len(),
                k <= 3,
                vals@.len() == k,
                forall|j: int| 0 <= j < k ==> decimal_ok(#[trigger] ps[j]) && vals@[j] == decimal_value(ps[j]),
            decreases ranges.len() - k,
        {
            if k >= 3 {
                return Err(ParseVersionError::Overflow);
            }
            let piece = string_of_range(&cs, ranges[k].0, ranges[k].1);
            assert(piece@ == ps[k as int]);
            match parse_usize(piece.as_str()) {
                Ok(v) => {
                    vals.push(v);
                },
                Err(e) => {
                    return Err(ParseVersionError::Int(e));
                },
            }
            k = k + 1;
        }
        let major = vals[0];
        let minor = if vals.len() > 1 { vals[1] } else { 0 };
        let patch = if vals.len() > 2 { vals[2] } else { 0 };
        Ok(Version::new(major, minor, patch))
    }
}

impl Default for Version {
    fn default() -> (r: Version)
        ensures
            r == (Version { major: 1, minor: 0, patch: 0 }),
    {
        Version::new(1, 0, 0)
    }
}

} // verus!
