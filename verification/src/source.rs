//! Source positions, Python versions and decoded-source metadata.
use vstd::prelude::*;

use crate::text::{
    find_char, first_index_of, is_first_index, lemma_first_index_unique, push_char, slice_chars, str_chars, string_from_chars,
    strip_prefix_chars, strip_prefix_spec,
};

verus! {

/// A half-open byte range `[start, end)` in canonical UTF-8 source text.
#[derive(Clone, Copy, Debug, PartialEq, Eq, Structural, Hash)]
pub struct TextRange {
    pub start: u32,
    pub end: u32,
}

impl TextRange {
    pub fn new(start: u32, end: u32) -> (range: Self)
        ensures
            range.start == start,
            range.end == end,
    {
        TextRange { start, end }
    }
}

/// A `major.minor` Python language version.
#[derive(Clone, Copy, Debug, PartialEq, Eq, Structural, Hash, PartialOrd, Ord)]
pub struct PythonVersion {
    pub major: u8,
    pub minor: u8,
}

/// Versions 3.10 through 3.14 form the semantic support matrix.
pub open spec fn is_semantic_version(v: PythonVersion) -> bool {
    v.major == 3 && 10 <= v.minor <= 14
}

impl PythonVersion {
    /// Python 3.10.
    pub fn py310() -> (v: Self)
        ensures
            v.major == 3 && v.minor == 10,
    {
        PythonVersion { major: 3, minor: 10 }
    }

    /// Python 3.11.
    pub fn py311() -> (v: Self)
        ensures
            v.major == 3 && v.minor == 11,
    {
        PythonVersion { major: 3, minor: 11 }
    }

    /// Python 3.12.
    pub fn py312() -> (v: Self)
        ensures
            v.major == 3 && v.minor == 12,
    {
        PythonVersion { major: 3, minor: 12 }
    }

    /// Python 3.13.
    pub fn py313() -> (v: Self)
        ensures
            v.major == 3 && v.minor == 13,
    {
        PythonVersion { major: 3, minor: 13 }
    }

    /// Python 3.14.
    pub fn py314() -> (v: Self)
        ensures
            v.major == 3 && v.minor == 14,
    {
        PythonVersion { major: 3, minor: 14 }
    }

    /// Python 3.15.
    pub fn py315() -> (v: Self)
        ensures
            v.major == 3 && v.minor == 15,
    {
        PythonVersion { major: 3, minor: 15 }
    }


    /// Whether this version belongs to the semantic support matrix (3.10 to 3.14).
    pub fn is_candidate_semantic_version(self) -> (yes: bool)
        ensures
            yes == is_semantic_version(self),
    {
        self.major == 3 && self.minor >= 10 && self.minor <= 14
    }

    /// Whether this version is the forward grammar canary (3.15).
    pub fn is_forward_canary(self) -> (yes: bool)
        ensures
            yes == (self.major == 3 && self.minor == 15),
    {
        self.major == 3 && self.minor == 15
    }

    /// The default target, Python 3.14.
    pub fn default_version() -> (v: Self)
        ensures
            v.major == 3 && v.minor == 14,
    {
        PythonVersion { major: 3, minor: 14 }
    }

    /// `major.minor` in decimal.
    pub fn to_display_string(self) -> (s: String)
        ensures
            s@ == decimal_spec(self.major as nat) + seq!['.'] + decimal_spec(self.minor as nat),
    {
        let mut s = decimal_string(self.major as u64);
        push_char(&mut s, '.');
        let minor = decimal_string(self.minor as u64);
        s.append(minor.as_str());
        s
    }

    /// Parses `3.12` or `py3.12` style version strings: a leading `py` is removed, then a
    /// leading `python`, so `python3.12` leaves `thon3.12` and is rejected.
    pub fn parse(value: &str) -> (parsed: Result<PythonVersion, PythonVersionParseError>)
        ensures
            match parsed {
                Ok(v) => spec_parse_version(value@) == Some(v),
                Err(e) => spec_parse_version(value@) is None && e.0@ == spec_version_text(value@),
            },
    {
        let chars = str_chars(value);
        let py: Vec<char> = vec!['p', 'y'];
        let python: Vec<char> = vec!['p', 'y', 't', 'h', 'o', 'n'];
        let once = strip_prefix_chars(&chars, &py);
        let stripped = strip_prefix_chars(&once, &python);
        match find_char(&stripped, '.') {
            None => Err(PythonVersionParseError(string_from_chars(&stripped))),
            Some(k) => {
                let major_text = slice_chars(&stripped, 0, k);
                let minor_text = slice_chars(&stripped, k + 1, stripped.len());
                match (parse_u8(&major_text), parse_u8(&minor_text)) {
                    (Some(major), Some(minor)) => Ok(PythonVersion { major, minor }),
                    _ => Err(PythonVersionParseError(string_from_chars(&stripped))),
                }
            },
        }
    }
}

impl Default for PythonVersion {
    fn default() -> (v: Self)
        ensures
            v.major == 3 && v.minor == 14,
    {
        PythonVersion { major: 3, minor: 14 }
    }
}

/// `value` is not a `major.minor` version string; holds the text after prefix stripping.
#[derive(Clone, Debug, PartialEq, Eq)]
pub struct PythonVersionParseError(pub String);

impl PythonVersionParseError {
    /// Human-readable description of the error.
    pub fn message(&self) -> (m: String)
        ensures
            m@ == seq!['i', 'n', 'v', 'a', 'l', 'i', 'd', ' ', 'P', 'y', 't', 'h', 'o', 'n', ' ',
                'v', 'e', 'r', 's', 'i', 'o', 'n', ' ', '`'] + self.0@ + seq!['`'],
    {
        let mut m = string_from_chars(
            &['i', 'n', 'v', 'a', 'l', 'i', 'd', ' ', 'P', 'y', 't', 'h', 'o', 'n', ' ', 'v', 'e',
                'r', 's', 'i', 'o', 'n', ' ', '`'],
        );
        m.append(self.0.as_str());
        push_char(&mut m, '`');
        m
    }
}

/// Encoding metadata of a decoded source file.
#[derive(Clone, Debug, PartialEq, Eq)]
pub struct DecodedSourceInfo {
    pub encoding: String,
    pub had_utf8_bom: bool,
}

// ----- decimal numbers -----

pub open spec fn is_digit(c: char) -> bool {
    '0' <= c <= '9'
}

pub open spec fn all_digits(s: Seq<char>) -> bool {
    forall|i: int| 0 <= i < s.len() ==> is_digit(s[i])
}

/// Value of a string of decimal digits.
pub open spec fn digits_value(s: Seq<char>) -> nat
    decreases s.len(),
{
    if s.len() == 0 {
        0
    } else {
        digits_value(s.drop_last()) * 10 + ((s.last() as u32 - '0' as u32) as nat)
    }
}

/// What `u8::from_str` accepts: an optional `+` followed by at least one digit, at most 255.
pub open spec fn spec_parse_u8(s: Seq<char>) -> Option<u8> {
    let d = strip_prefix_spec(s, seq!['+']);
    if d.len() > 0 && all_digits(d) && digits_value(d) <= 255 {
        Some(digits_value(d) as u8)
    } else {
        None
    }
}

/// The text of a version after removing a leading `py`, then a leading `python`.
pub open spec fn spec_version_text(value: Seq<char>) -> Seq<char> {
    strip_prefix_spec(
        strip_prefix_spec(value, seq!['p', 'y']),
        seq!['p', 'y', 't', 'h', 'o', 'n'],
    )
}

/// The version denoted by `value`, if it is one.
pub open spec fn spec_parse_version(value: Seq<char>) -> Option<PythonVersion> {
    let t = spec_version_text(value);
    match first_index_of(t, '.') {
        None => None,
        Some(k) => match (spec_parse_u8(t.take(k)), spec_parse_u8(t.skip(k + 1))) {
            (Some(major), Some(minor)) => Some(PythonVersion { major, minor }),
            _ => None,
        },
    }
}

pub proof fn lemma_digits_value_prefix_monotone(s: Seq<char>, i: int)
    requires
        0 <= i <= s.len(),
        all_digits(s),
    ensures
        digits_value(s.take(i)) <= digits_value(s),
    decreases s.len() - i,
{
    if i < s.len() {
        lemma_digits_value_prefix_monotone(s, i + 1);
        assert(s.take(i + 1).drop_last() == s.take(i));
    } else {
        assert(s.take(i) == s);
    }
}

/// Parses an unsigned decimal byte the way `u8::from_str` does.
pub fn parse_u8(s: &[char]) -> (r: Option<u8>)
    ensures
        r == spec_parse_u8(s@),
{
    let plus: Vec<char> = vec!['+'];
    let d = strip_prefix_chars(s, &plus);
    assert(plus@ == seq!['+']);
    assert(d@ == strip_prefix_spec(s@, seq!['+']));
    if d.len() == 0 {
        return None;
    }
    let mut value: u32 = 0;
    let mut i: usize = 0;
    while i < d.len()
        invariant
            d@ == strip_prefix_spec(s@, seq!['+']),
            d@.len() > 0,
            0 <= i <= d@.len(),
            all_digits(d@.take(i as int)),
            value == digits_value(d@.take(i as int)),
            value <= 255,
        decreases d@.len() - i,
    {
        let c = d[i];
        if !('0' <= c && c <= '9') {
            assert(d@[i as int] == c);
            assert(!is_digit(d@[i as int]));
            assert(!all_digits(d@));
            return None;
        }
        assert(d@.take((i + 1) as int).drop_last() == d@.take(i as int));
        assert(d@.take((i + 1) as int).last() == c);
        let next = value * 10 + (c as u32 - '0' as u32);
        assert(all_digits(d@.take((i + 1) as int)));
        assert(digits_value(d@.take((i + 1) as int)) == next);
        if next > 255 {
            proof {
                if all_digits(d@) {
                    lemma_digits_value_prefix_monotone(d@, (i + 1) as int);
                }
            }
            return None;
        }
        value = next;
        i = i + 1;
    }
    assert(d@.take(d@.len() as int) == d@);
    Some(value as u8)
}

/// Decimal rendering of a natural number, without leading zeros.
pub open spec fn decimal_spec(n: nat) -> Seq<char>
    decreases n,
{
    if n < 10 {
        seq![digit_char(n)]
    } else {
        decimal_spec(n / 10).push(digit_char(n % 10))
    }
}

pub open spec fn digit_char(d: nat) -> char {
    if d == 0 {
        '0'
    } else if d == 1 {
        '1'
    } else if d == 2 {
        '2'
    } else if d == 3 {
        '3'
    } else if d == 4 {
        '4'
    } else if d == 5 {
        '5'
    } else if d == 6 {
        '6'
    } else if d == 7 {
        '7'
    } else if d == 8 {
        '8'
    } else {
        '9'
    }
}

pub fn digit_to_char(d: u64) -> (c: char)
    requires
        d < 10,
    ensures
        c == digit_char(d as nat),
{
    if d == 0 {
        '0'
    } else if d == 1 {
        '1'
    } else if d == 2 {
        '2'
    } else if d == 3 {
        '3'
    } else if d == 4 {
        '4'
    } else if d == 5 {
        '5'
    } else if d == 6 {
        '6'
    } else if d == 7 {
        '7'
    } else if d == 8 {
        '8'
    } else {
        '9'
    }
}

/// The decimal digits of `n`.
pub fn decimal_string(n: u64) -> (s: String)
    ensures
        s@ == decimal_spec(n as nat),
    decreases n,
{
    if n < 10 {
        let mut s = String::new();
        push_char(&mut s, digit_to_char(n));
        s
    } else {
        let mut s = decimal_string(n / 10);
        push_char(&mut s, digit_to_char(n % 10));
        s
    }
}


// ----- display and parse -----

/// The decimal rendering of `n` is a non-empty run of digits whose value is `n`.
pub proof fn lemma_decimal_digits(n: nat)
    ensures
        decimal_spec(n).len() > 0,
        all_digits(decimal_spec(n)),
        digits_value(decimal_spec(n)) == n,
    decreases n,
{
    let d = decimal_spec(n);
    lemma_digit_char_value(n % 10);
    if n >= 10 {
        lemma_decimal_digits(n / 10);
        assert(d.drop_last() =~= decimal_spec(n / 10));
        assert(d.last() == digit_char(n % 10));
        assert(digits_value(d) == digits_value(decimal_spec(n / 10)) * 10 + (n % 10));
        assert((n / 10) * 10 + n % 10 == n) by (nonlinear_arith);
    } else {
        assert(d.drop_last() =~= Seq::<char>::empty());
        assert(digits_value(Seq::<char>::empty()) == 0);
        assert(d.last() == digit_char(n));
        assert(n % 10 == n);
    }
}

/// The digit character of `d` is a digit whose value is `d`.
pub proof fn lemma_digit_char_value(d: nat)
    requires
        d < 10,
    ensures
        is_digit(digit_char(d)),
        (digit_char(d) as u32 - '0' as u32) as nat == d,
{
}

/// A rendered byte reads back as the same byte.
pub proof fn lemma_parse_u8_decimal(n: u8)
    ensures
        spec_parse_u8(decimal_spec(n as nat)) == Some(n),
{
    lemma_decimal_digits(n as nat);
    let d = decimal_spec(n as nat);
    assert(!seq!['+'].is_prefix_of(d)) by {
        assert(is_digit(d[0]));
        assert(d.subrange(0, 1)[0] == d[0]);
        assert(seq!['+'][0] == '+');
    }
}

/// Parsing the displayed form of a version gives the version back: `parse` of
/// `to_display_string` is `Ok` of the same major and minor numbers.
pub proof fn lemma_version_display_parses(v: PythonVersion)
    ensures
        spec_parse_version(decimal_spec(v.major as nat) + seq!['.'] + decimal_spec(v.minor as nat)) == Some(v),
{
    let major = decimal_spec(v.major as nat);
    let minor = decimal_spec(v.minor as nat);
    let shown = major + seq!['.'] + minor;
    lemma_decimal_digits(v.major as nat);
    lemma_decimal_digits(v.minor as nat);
    lemma_parse_u8_decimal(v.major);
    lemma_parse_u8_decimal(v.minor);
    assert(shown[0] == major[0]);
    assert(is_digit(major[0]));
    assert(!seq!['p', 'y'].is_prefix_of(shown)) by {
        assert(seq!['p', 'y'][0] == 'p');
        assert(shown.subrange(0, 2)[0] == shown[0]);
    }
    assert(!seq!['p', 'y', 't', 'h', 'o', 'n'].is_prefix_of(shown)) by {
        assert(seq!['p', 'y', 't', 'h', 'o', 'n'][0] == 'p');
        if shown.len() >= 6 {
            assert(shown.subrange(0, 6)[0] == shown[0]);
        }
    }
    assert(spec_version_text(shown) == shown);
    let k = major.len() as int;
    assert(is_first_index(shown, '.', k)) by {
        assert forall|j: int| 0 <= j < k implies shown[j] != '.' by {
            assert(shown[j] == major[j]);
            assert(is_digit(major[j]));
        }
    }
    lemma_first_index_unique(shown, '.', k);
    assert(shown.take(k) =~= major);
    assert(shown.skip(k + 1) =~= minor);
}

} // verus!
