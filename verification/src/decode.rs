//! Python-compatible decoding of source bytes into canonical UTF-8 text.
use vstd::prelude::*;
use vstd::utf8::{decode_utf8, valid_utf8};

use crate::source::{decimal_spec, decimal_string, DecodedSourceInfo};
use crate::text::push_char;

verus! {

/// A decoded source file.
#[derive(Clone, Debug, PartialEq, Eq)]
pub struct DecodedSource {
    pub text: String,
    pub info: DecodedSourceInfo,
}

#[derive(Clone, Debug, PartialEq, Eq)]
pub enum SourceDecodeError {
    UnsupportedEncoding(String),
    InvalidEncoding { encoding: String, message: String },
    BomWithNonUtf8Encoding(String),
}


/// The description of a decoding error.
pub open spec fn decode_error_message(e: SourceDecodeError) -> Seq<char> {
    match e {
        SourceDecodeError::UnsupportedEncoding(enc) => "source declares unsupported encoding `"@ + enc@ + "`"@,
        SourceDecodeError::InvalidEncoding { encoding, message } => "source is not valid "@ + encoding@ + ": "@
            + message@,
        SourceDecodeError::BomWithNonUtf8Encoding(enc) => "UTF-8 BOM cannot be combined with declared encoding `"@
            + enc@ + "`"@,
    }
}

impl SourceDecodeError {
    /// The error's description.
    pub fn message(&self) -> (m: String)
        ensures
            m@ == decode_error_message(*self),
    {
        match self {
            SourceDecodeError::UnsupportedEncoding(enc) => {
                let mut m = <String as vstd::string::StringExecFns>::from_str("source declares unsupported encoding `");
                m.append(enc.as_str());
                m.append("`");
                m
            },
            SourceDecodeError::InvalidEncoding { encoding, message } => {
                let mut m = <String as vstd::string::StringExecFns>::from_str("source is not valid ");
                m.append(encoding.as_str());
                m.append(": ");
                m.append(message.as_str());
                m
            },
            SourceDecodeError::BomWithNonUtf8Encoding(enc) => {
                let mut m = <String as vstd::string::StringExecFns>::from_str(
                    "UTF-8 BOM cannot be combined with declared encoding `",
                );
                m.append(enc.as_str());
                m.append("`");
                m
            },
        }
    }
}

// ----- byte-level scanning -----

/// The searches the coding-declaration recognizer performs over a line.
#[derive(Clone, Copy, PartialEq, Eq, Structural)]
pub enum ScanKind {
    /// a byte other than space, tab or form feed
    NonWhitespace,
    /// the start of `coding`, compared ASCII case-insensitively
    Coding,
    /// `:` or `=`
    Delimiter,
    /// a byte other than space or tab
    NonBlank,
    /// a byte that cannot occur in an encoding label
    NonLabel,
}

pub open spec fn ascii_lower(x: u8) -> u8 {
    if 65 <= x <= 90 {
        (x + 32) as u8
    } else {
        x
    }
}

/// `coding` starts at position `i` of `l`, ignoring ASCII case.
pub open spec fn coding_at(l: Seq<u8>, i: int) -> bool {
    &&& 0 <= i
    &&& i + 6 <= l.len()
    &&& ascii_lower(l[i]) == 99
    &&& ascii_lower(l[i + 1]) == 111
    &&& ascii_lower(l[i + 2]) == 100
    &&& ascii_lower(l[i + 3]) == 105
    &&& ascii_lower(l[i + 4]) == 110
    &&& ascii_lower(l[i + 5]) == 103
}

/// ASCII letters, digits, `-`, `_` and `.`.
pub open spec fn is_label_byte(x: u8) -> bool {
    (48 <= x <= 57) || (65 <= x <= 90) || (97 <= x <= 122) || x == 45 || x == 95 || x == 46
}

pub open spec fn scan_pred(kind: ScanKind, l: Seq<u8>, i: int) -> bool {
    match kind {
        ScanKind::NonWhitespace => !(l[i] == 32 || l[i] == 9 || l[i] == 12),
        ScanKind::Coding => coding_at(l, i),
        ScanKind::Delimiter => l[i] == 58 || l[i] == 61,
        ScanKind::NonBlank => !(l[i] == 32 || l[i] == 9),
        ScanKind::NonLabel => !is_label_byte(l[i]),
    }
}

pub open spec fn is_first_from(kind: ScanKind, l: Seq<u8>, from: int, i: int) -> bool {
    &&& from <= i < l.len()
    &&& scan_pred(kind, l, i)
    &&& forall|j: int| from <= j < i ==> !scan_pred(kind, l, j)
}

/// The first position at or after `from` where `kind` holds, or the length of `l`.
pub open spec fn first_from(kind: ScanKind, l: Seq<u8>, from: int) -> int {
    if exists|i: int| is_first_from(kind, l, from, i) {
        choose|i: int| is_first_from(kind, l, from, i)
    } else {
        l.len() as int
    }
}

fn scan_pred_exec(kind: ScanKind, l: &[u8], i: usize) -> (yes: bool)
    requires
        i < l@.len(),
    ensures
        yes == scan_pred(kind, l@, i as int),
{
    match kind {
        ScanKind::NonWhitespace => !(l[i] == 32 || l[i] == 9 || l[i] == 12),
        ScanKind::Coding => {
            if l.len() - i < 6 {
                false
            } else {
                lower(l[i]) == 99 && lower(l[i + 1]) == 111 && lower(l[i + 2]) == 100 && lower(
                    l[i + 3],
                ) == 105 && lower(l[i + 4]) == 110 && lower(l[i + 5]) == 103
            }
        },
        ScanKind::Delimiter => l[i] == 58 || l[i] == 61,
        ScanKind::NonBlank => !(l[i] == 32 || l[i] == 9),
        ScanKind::NonLabel => !label_byte(l[i]),
    }
}

fn lower(x: u8) -> (y: u8)
    ensures
        y == ascii_lower(x),
{
    if 65 <= x && x <= 90 {
        x + 32
    } else {
        x
    }
}

fn label_byte(x: u8) -> (yes: bool)
    ensures
        yes == is_label_byte(x),
{
    (48 <= x && x <= 57) || (65 <= x && x <= 90) || (97 <= x && x <= 122) || x == 45 || x == 95
        || x == 46
}

/// The first position at or after `from` where `kind` holds, or the length of `l`.
fn scan(kind: ScanKind, l: &[u8], from: usize) -> (i: usize)
    requires
        from <= l@.len(),
    ensures
        i == first_from(kind, l@, from as int),
        from <= i <= l@.len(),
{
    let mut i = from;
    while i < l.len()
        invariant
            from <= i <= l@.len(),
            forall|j: int| from <= j < i ==> !scan_pred(kind, l@, j),
        decreases l@.len() - i,
    {
        if scan_pred_exec(kind, l, i) {
            proof {
                let c = choose|c: int| is_first_from(kind, l@, from as int, c);
                assert(is_first_from(kind, l@, from as int, i as int));
                if c < i {
                    assert(!scan_pred(kind, l@, c));
                }
                if i < c {
                    assert(!scan_pred(kind, l@, i as int));
                }
            }
            return i;
        }
        i = i + 1;
    }
    proof {
        assert(!exists|c: int| is_first_from(kind, l@, from as int, c));
    }
    i
}

// ----- the coding declaration -----

pub open spec fn has_utf8_bom(b: Seq<u8>) -> bool {
    b.len() >= 3 && b[0] == 0xEF && b[1] == 0xBB && b[2] == 0xBF
}

pub open spec fn without_bom(b: Seq<u8>) -> Seq<u8> {
    if has_utf8_bom(b) {
        b.skip(3)
    } else {
        b
    }
}

pub open spec fn is_first_newline(b: Seq<u8>, k: int) -> bool {
    &&& 0 <= k < b.len()
    &&& b[k] == 10
    &&& forall|j: int| 0 <= j < k ==> b[j] != 10
}

pub open spec fn first_newline(b: Seq<u8>) -> Option<int> {
    if exists|k: int| is_first_newline(b, k) {
        Some(choose|k: int| is_first_newline(b, k))
    } else {
        None
    }
}

/// The first two physical lines (without their `\n`); the remainder counts as a line when
/// fewer than two newlines occur.
pub open spec fn first_two_lines(b: Seq<u8>) -> Seq<Seq<u8>> {
    match first_newline(b) {
        None => seq![b],
        Some(k) => {
            let rest = b.skip(k + 1);
            match first_newline(rest) {
                None => seq![b.take(k), rest],
                Some(k2) => seq![b.take(k), rest.take(k2)],
            }
        },
    }
}

pub open spec fn trim_cr(l: Seq<u8>) -> Seq<u8> {
    if l.len() > 0 && l.last() == 13 {
        l.drop_last()
    } else {
        l
    }
}

/// The encoding label a comment line declares (`# ... coding[:=] label`), if any.
pub open spec fn declared_label_in_line(line: Seq<u8>) -> Option<Seq<u8>> {
    let l = trim_cr(line);
    let p = first_from(ScanKind::NonWhitespace, l, 0);
    if p >= l.len() || l[p] != 35 {
        None
    } else {
        let c = first_from(ScanKind::Coding, l, 0);
        if c >= l.len() {
            None
        } else {
            let d = first_from(ScanKind::Delimiter, l, c + 6);
            if d >= l.len() {
                None
            } else {
                let ls = first_from(ScanKind::NonBlank, l, d + 1);
                let le = first_from(ScanKind::NonLabel, l, ls);
                if ls < le {
                    Some(l.subrange(ls, le))
                } else {
                    None
                }
            }
        }
    }
}

/// The label declared by the first of the first two lines that declares one.
pub open spec fn declared_label(b: Seq<u8>) -> Option<Seq<u8>> {
    let lines = first_two_lines(b);
    match declared_label_in_line(lines[0]) {
        Some(label) => Some(label),
        None => if lines.len() > 1 {
            declared_label_in_line(lines[1])
        } else {
            None
        },
    }
}

fn first_newline_exec(b: &[u8], from: usize) -> (k: Option<usize>)
    requires
        from <= b@.len(),
    ensures
        match k {
            Some(k) => from <= k < b@.len() && first_newline(b@.skip(from as int)) == Some(
                k - from,
            ),
            None => first_newline(b@.skip(from as int)) is None,
        },
{
    let ghost s = b@.skip(from as int);
    let mut i = from;
    while i < b.len()
        invariant
            from <= i <= b@.len(),
            s == b@.skip(from as int),
            forall|j: int| 0 <= j < i - from ==> s[j] != 10,
        decreases b@.len() - i,
    {
        if b[i] == 10 {
            proof {
                assert(is_first_newline(s, i - from));
                let c = choose|c: int| is_first_newline(s, c);
                if c < i - from {
                    assert(s[c] != 10);
                }
                if i - from < c {
                    assert(s[i - from] != 10);
                }
            }
            return Some(i);
        }
        i = i + 1;
    }
    proof {
        assert(!exists|c: int| is_first_newline(s, c));
    }
    None
}

fn copy_range(b: &[u8], from: usize, to: usize) -> (out: Vec<u8>)
    requires
        from <= to <= b@.len(),
    ensures
        out@ == b@.subrange(from as int, to as int),
{
    let mut out: Vec<u8> = Vec::new();
    let mut i = from;
    while i < to
        invariant
            from <= i <= to <= b@.len(),
            out@ == b@.subrange(from as int, i as int),
        decreases to - i,
    {
        out.push(b[i]);
        assert(b@.subrange(from as int, (i + 1) as int) == b@.subrange(from as int, i as int).push(
            b@[i as int],
        ));
        i = i + 1;
    }
    out
}

/// The declared label of one line.
fn label_in_line(line: &[u8]) -> (label: Option<Vec<u8>>)
    ensures
        match label {
            Some(v) => declared_label_in_line(line@) == Some(v@),
            None => declared_label_in_line(line@) is None,
        },
{
    let len = if line.len() > 0 && line[line.len() - 1] == 13 {
        line.len() - 1
    } else {
        line.len()
    };
    let l = copy_range(line, 0, len);
    assert(l@ == trim_cr(line@));
    let p = scan(ScanKind::NonWhitespace, &l, 0);
    if p >= l.len() || l[p] != 35 {
        return None;
    }
    let c = scan(ScanKind::Coding, &l, 0);
    if c >= l.len() {
        return None;
    }
    proof {
        let w = choose|i: int| is_first_from(ScanKind::Coding, l@, 0, i);
        assert(is_first_from(ScanKind::Coding, l@, 0, c as int));
    }
    let d = scan(ScanKind::Delimiter, &l, c + 6);
    if d >= l.len() {
        return None;
    }
    let ls = scan(ScanKind::NonBlank, &l, d + 1);
    let le = scan(ScanKind::NonLabel, &l, ls);
    if ls < le {
        Some(copy_range(&l, ls, le))
    } else {
        None
    }
}

/// The encoding label declared in the first two lines, if any.
fn find_declared_encoding(b: &[u8]) -> (label: Option<Vec<u8>>)
    ensures
        match label {
            Some(v) => declared_label(b@) == Some(v@),
            None => declared_label(b@) is None,
        },
{
    let first_end = first_newline_exec(b, 0);
    assert(b@.skip(0) == b@);
    match first_end {
        None => {
            assert(first_newline(b@) is None);
            assert(first_two_lines(b@) == seq![b@]);
            label_in_line(b)
        },
        Some(k) => {
            assert(first_newline(b@) == Some(k as int));
            assert(k < b.len());
            let line1 = copy_range(b, 0, k);
            assert(line1@ == b@.take(k as int));
            assert(first_two_lines(b@)[0] == b@.take(k as int));
            let found = label_in_line(&line1);
            if found.is_some() {
                return found;
            }
            let second_end = first_newline_exec(b, k + 1);
            let end = match second_end {
                Some(k2) => k2,
                None => b.len(),
            };
            let line2 = copy_range(b, k + 1, end);
            proof {
                let rest = b@.skip(k + 1);
                match second_end {
                    Some(k2) => {
                        assert(line2@ == rest.take(k2 - (k + 1)));
                        assert(first_two_lines(b@) == seq![b@.take(k as int), rest.take(k2 - (k + 1))]);
                    },
                    None => {
                        assert(line2@ == rest);
                        assert(first_two_lines(b@) == seq![b@.take(k as int), rest]);
                    },
                }
                assert(first_two_lines(b@)[1] == line2@);
                assert(first_two_lines(b@).len() == 2);
            }
            label_in_line(&line2)
        },
    }
}

// ----- encodings -----

/// `label` with ASCII letters lowered and `_` spelled `-`.
pub open spec fn normalize_label(label: Seq<u8>) -> Seq<u8> {
    label.map_values(|x: u8| if x == 95 { 45u8 } else { ascii_lower(x) })
}

pub open spec fn is_utf8_label(n: Seq<u8>) -> bool {
    n == seq![117u8, 116, 102, 45, 56] || n == seq![117u8, 116, 102, 56] || n == seq![
        117u8,
        116,
        102,
        45,
        56,
        45,
        115,
        105,
        103,
    ]
}

pub open spec fn is_ascii_label(n: Seq<u8>) -> bool {
    n == seq![97u8, 115, 99, 105, 105] || n == seq![117u8, 115, 45, 97, 115, 99, 105, 105]
}

pub open spec fn is_latin1_label(n: Seq<u8>) -> bool {
    n == seq![108u8, 97, 116, 105, 110, 45, 49] || n == seq![108u8, 97, 116, 105, 110, 49]
        || n == seq![105u8, 115, 111, 45, 56, 56, 53, 57, 45, 49] || n == seq![
        105u8,
        115,
        111,
        56,
        56,
        53,
        57,
        45,
        49,
    ]
}

/// The label in effect: the declared one, else `utf-8`.
pub open spec fn effective_label(b: Seq<u8>) -> Seq<u8> {
    match declared_label(without_bom(b)) {
        Some(label) => label,
        None => seq![117u8, 116, 102, 45, 56],
    }
}

/// Characters of an ASCII byte string.
pub open spec fn bytes_as_chars(b: Seq<u8>) -> Seq<char> {
    b.map_values(|x: u8| x as char)
}

pub open spec fn all_ascii(b: Seq<u8>) -> bool {
    forall|i: int| 0 <= i < b.len() ==> b[i] < 128
}

/// The first non-ASCII byte position, if any.
pub open spec fn first_non_ascii(b: Seq<u8>) -> Option<int> {
    if exists|i: int| 0 <= i < b.len() && b[i] >= 128 && forall|j: int| 0 <= j < i ==> b[j] < 128 {
        Some(choose|i: int| 0 <= i < b.len() && b[i] >= 128 && forall|j: int| 0 <= j < i ==> b[j] < 128)
    } else {
        None
    }
}

pub open spec fn hex_digit(d: nat) -> char {
    if d < 10 {
        (d + 48) as char
    } else {
        (d + 87) as char
    }
}

/// `non-ASCII byte 0x<two hex digits> at offset <decimal>`.
pub open spec fn non_ascii_message(byte: u8, offset: nat) -> Seq<char> {
    seq!['n', 'o', 'n', '-', 'A', 'S', 'C', 'I', 'I', ' ', 'b', 'y', 't', 'e', ' ', '0', 'x']
        + seq![hex_digit((byte / 16) as nat), hex_digit((byte % 16) as nat)] + seq![' ', 'a', 't', ' ', 'o', 'f', 'f', 's', 'e', 't', ' ']
        + decimal_spec(offset)
}

/// Error text of the standard library's UTF-8 validation for invalid input.
pub uninterp spec fn utf8_error_text(bytes: Seq<u8>) -> Seq<char>;

/// Decodes UTF-8 with `std::str::from_utf8`. The standard library accepts exactly the
/// well-formed UTF-8 byte strings and yields their scalar values; its error text for invalid
/// input is a function of the bytes, named here, and not spelled out.
#[verifier::external_body]
fn utf8_to_string(bytes: &[u8]) -> (r: Result<String, String>)
    ensures
        match r {
            Ok(s) => valid_utf8(bytes@) && s@ == decode_utf8(bytes@),
            Err(m) => !valid_utf8(bytes@) && m@ == utf8_error_text(bytes@),
        },
{
    match std::str::from_utf8(bytes) {
        Ok(text) => Ok(text.to_owned()),
        Err(error) => Err(error.to_string()),
    }
}


/// What decoding a byte string yields, over mathematical text.
pub enum DecodeOutcome {
    Text(Seq<char>),
    UnsupportedEncoding,
    InvalidEncoding(Seq<char>),
    BomWithNonUtf8Encoding,
}

/// Python's source decoding: strip a UTF-8 BOM, honour a coding declaration in the first two
/// lines (default `utf-8`), and decode as UTF-8, ASCII or Latin-1.
pub open spec fn decode_outcome(b: Seq<u8>) -> DecodeOutcome {
    let body = without_bom(b);
    let n = normalize_label(effective_label(b));
    if has_utf8_bom(b) && !is_utf8_label(n) {
        DecodeOutcome::BomWithNonUtf8Encoding
    } else if is_utf8_label(n) {
        if valid_utf8(body) {
            DecodeOutcome::Text(decode_utf8(body))
        } else {
            DecodeOutcome::InvalidEncoding(utf8_error_text(body))
        }
    } else if is_ascii_label(n) {
        match first_non_ascii(body) {
            None => DecodeOutcome::Text(bytes_as_chars(body)),
            Some(i) => DecodeOutcome::InvalidEncoding(non_ascii_message(body[i], i as nat)),
        }
    } else if is_latin1_label(n) {
        DecodeOutcome::Text(bytes_as_chars(body))
    } else {
        DecodeOutcome::UnsupportedEncoding
    }
}

fn bytes_eq(a: &[u8], b: &[u8]) -> (same: bool)
    ensures
        same == (a@ == b@),
{
    if a.len() != b.len() {
        return false;
    }
    let mut i: usize = 0;
    while i < a.len()
        invariant
            a@.len() == b@.len(),
            0 <= i <= a@.len(),
            forall|j: int| 0 <= j < i ==> a@[j] == b@[j],
        decreases a@.len() - i,
    {
        if a[i] != b[i] {
            return false;
        }
        i = i + 1;
    }
    assert(a@ =~= b@);
    true
}

fn normalize(label: &[u8]) -> (n: Vec<u8>)
    ensures
        n@ == normalize_label(label@),
{
    let mut n: Vec<u8> = Vec::new();
    let mut i: usize = 0;
    while i < label.len()
        invariant
            0 <= i <= label@.len(),
            n@ == normalize_label(label@.take(i as int)),
        decreases label@.len() - i,
    {
        let x = label[i];
        let y = if x == 95 {
            45u8
        } else {
            lower(x)
        };
        n.push(y);
        assert(label@.take((i + 1) as int) == label@.take(i as int).push(x));
        assert(normalize_label(label@.take((i + 1) as int)) =~= normalize_label(label@.take(i as int)).push(y));
        i = i + 1;
    }
    assert(label@.take(label@.len() as int) == label@);
    n
}

fn chars_of_bytes(b: &[u8]) -> (s: String)
    ensures
        s@ == bytes_as_chars(b@),
{
    let mut s = String::new();
    let mut i: usize = 0;
    while i < b.len()
        invariant
            0 <= i <= b@.len(),
            s@ == bytes_as_chars(b@.take(i as int)),
        decreases b@.len() - i,
    {
        push_char(&mut s, b[i] as char);
        assert(b@.take((i + 1) as int) == b@.take(i as int).push(b@[i as int]));
        assert(bytes_as_chars(b@.take((i + 1) as int)) =~= bytes_as_chars(b@.take(i as int)).push(b@[i as int] as char));
        i = i + 1;
    }
    assert(b@.take(b@.len() as int) == b@);
    s
}

fn hex_char(d: u8) -> (c: char)
    requires
        d < 16,
    ensures
        c == hex_digit(d as nat),
{
    if d < 10 {
        (d + 48) as char
    } else {
        (d + 87) as char
    }
}

fn non_ascii_error_message(byte: u8, offset: usize) -> (m: String)
    ensures
        m@ == non_ascii_message(byte, offset as nat),
{
    let mut m = String::new();
    let prefix = ['n', 'o', 'n', '-', 'A', 'S', 'C', 'I', 'I', ' ', 'b', 'y', 't', 'e', ' ', '0', 'x'];
    let mut i: usize = 0;
    while i < 17
        invariant
            0 <= i <= 17,
            prefix@ == seq!['n', 'o', 'n', '-', 'A', 'S', 'C', 'I', 'I', ' ', 'b', 'y', 't', 'e', ' ', '0', 'x'],
            m@ == prefix@.take(i as int),
        decreases 17 - i,
    {
        push_char(&mut m, prefix[i]);
        assert(prefix@.take((i + 1) as int) == prefix@.take(i as int).push(prefix@[i as int]));
        i = i + 1;
    }
    push_char(&mut m, hex_char(byte / 16));
    push_char(&mut m, hex_char(byte % 16));
    let middle = [' ', 'a', 't', ' ', 'o', 'f', 'f', 's', 'e', 't', ' '];
    let ghost before = m@;
    let mut j: usize = 0;
    while j < 11
        invariant
            0 <= j <= 11,
            middle@ == seq![' ', 'a', 't', ' ', 'o', 'f', 'f', 's', 'e', 't', ' '],
            m@ == before + middle@.take(j as int),
        decreases 11 - j,
    {
        push_char(&mut m, middle[j]);
        assert(middle@.take((j + 1) as int) == middle@.take(j as int).push(middle@[j as int]));
        j = j + 1;
    }
    let digits = decimal_string(offset as u64);
    m.append(digits.as_str());
    assert(prefix@.take(17) == prefix@);
    assert(middle@.take(11) == middle@);
    assert(m@ =~= non_ascii_message(byte, offset as nat));
    m
}

fn find_non_ascii(body: &[u8]) -> (found: Option<usize>)
    ensures
        match found {
            Some(i) => i < body@.len() && first_non_ascii(body@) == Some(i as int),
            None => first_non_ascii(body@) is None,
        },
{
    let mut i: usize = 0;
    while i < body.len()
        invariant
            0 <= i <= body@.len(),
            forall|j: int| 0 <= j < i ==> body@[j] < 128,
        decreases body@.len() - i,
    {
        if body[i] >= 128 {
            proof {
                assert(0 <= i < body@.len() && body@[i as int] >= 128 && forall|j: int|
                    0 <= j < i ==> body@[j] < 128);
                let w = choose|w: int|
                    0 <= w < body@.len() && body@[w] >= 128 && forall|j: int|
                        0 <= j < w ==> body@[j] < 128;
                if w < i {
                    assert(body@[w] < 128);
                }
                if i < w {
                    assert(body@[i as int] < 128);
                }
            }
            return Some(i);
        }
        i = i + 1;
    }
    proof {
        assert(!exists|w: int|
            0 <= w < body@.len() && body@[w] >= 128 && forall|j: int| 0 <= j < w ==> body@[j] < 128);
    }
    None
}

/// Decodes Python source bytes into canonical UTF-8 text.
pub fn decode_python_source(bytes: &[u8]) -> (r: Result<DecodedSource, SourceDecodeError>)
    ensures
        match r {
            Ok(d) => {
                &&& decode_outcome(bytes@) == DecodeOutcome::Text(d.text@)
                &&& d.info.encoding@ == bytes_as_chars(effective_label(bytes@))
                &&& d.info.had_utf8_bom == has_utf8_bom(bytes@)
            },
            Err(SourceDecodeError::UnsupportedEncoding(e)) => {
                &&& decode_outcome(bytes@) == DecodeOutcome::UnsupportedEncoding
                &&& e@ == bytes_as_chars(effective_label(bytes@))
            },
            Err(SourceDecodeError::InvalidEncoding { encoding, message }) => {
                &&& decode_outcome(bytes@) == DecodeOutcome::InvalidEncoding(message@)
                &&& encoding@ == bytes_as_chars(effective_label(bytes@))
            },
            Err(SourceDecodeError::BomWithNonUtf8Encoding(e)) => {
                &&& decode_outcome(bytes@) == DecodeOutcome::BomWithNonUtf8Encoding
                &&& e@ == bytes_as_chars(effective_label(bytes@))
            },
        },
{
    let had_utf8_bom = bytes.len() >= 3 && bytes[0] == 0xEF && bytes[1] == 0xBB && bytes[2] == 0xBF;
    let body = if had_utf8_bom {
        copy_range(bytes, 3, bytes.len())
    } else {
        copy_range(bytes, 0, bytes.len())
    };
    assert(body@ == without_bom(bytes@));
    let label = match find_declared_encoding(&body) {
        Some(label) => label,
        None => vec![117u8, 116, 102, 45, 56],
    };
    assert(label@ == effective_label(bytes@));
    let encoding = chars_of_bytes(&label);
    let n = normalize(&label);
    let utf8 = bytes_eq(&n, &[117u8, 116, 102, 45, 56]) || bytes_eq(&n, &[117u8, 116, 102, 56])
        || bytes_eq(&n, &[117u8, 116, 102, 45, 56, 45, 115, 105, 103]);
    let ascii = bytes_eq(&n, &[97u8, 115, 99, 105, 105]) || bytes_eq(
        &n,
        &[117u8, 115, 45, 97, 115, 99, 105, 105],
    );
    let latin1 = bytes_eq(&n, &[108u8, 97, 116, 105, 110, 45, 49]) || bytes_eq(
        &n,
        &[108u8, 97, 116, 105, 110, 49],
    ) || bytes_eq(&n, &[105u8, 115, 111, 45, 56, 56, 53, 57, 45, 49]) || bytes_eq(
        &n,
        &[105u8, 115, 111, 56, 56, 53, 57, 45, 49],
    );
    assert(utf8 == is_utf8_label(n@));
    assert(ascii == is_ascii_label(n@));
    assert(latin1 == is_latin1_label(n@));
    if had_utf8_bom && !utf8 {
        return Err(SourceDecodeError::BomWithNonUtf8Encoding(encoding));
    }
    let info = DecodedSourceInfo { encoding: encoding, had_utf8_bom };
    if utf8 {
        match utf8_to_string(&body) {
            Ok(text) => Ok(DecodedSource { text, info }),
            Err(message) => Err(
                SourceDecodeError::InvalidEncoding { encoding: info.encoding, message },
            ),
        }
    } else if ascii {
        match find_non_ascii(&body) {
            Some(i) => {
                let message = non_ascii_error_message(body[i], i);
                return Err(SourceDecodeError::InvalidEncoding { encoding: info.encoding, message });
            },
            None => {},
        }
        Ok(DecodedSource { text: chars_of_bytes(&body), info })
    } else if latin1 {
        Ok(DecodedSource { text: chars_of_bytes(&body), info })
    } else {
        Err(SourceDecodeError::UnsupportedEncoding(info.encoding))
    }
}

/// The Latin-1 encoding names that a coding declaration may give, after normalization:
/// `latin-1`, `latin1`, `iso-8859-1` and `iso8859-1`.
pub open spec fn latin1_names() -> Seq<Seq<u8>> {
    seq![
        seq![108u8, 97, 116, 105, 110, 45, 49],
        seq![108u8, 97, 116, 105, 110, 49],
        seq![105u8, 115, 111, 45, 56, 56, 53, 57, 45, 49],
        seq![105u8, 115, 111, 56, 56, 53, 57, 45, 49],
    ]
}

/// Source without a byte-order mark that declares a Latin-1 encoding always decodes, and
/// each byte becomes the character with the same code: Latin-1 is the first 256 code points.
pub proof fn lemma_latin1_labels_decode_bytewise(b: Seq<u8>)
    requires
        !has_utf8_bom(b),
        latin1_names().contains(normalize_label(effective_label(b))),
    ensures
        match decode_outcome(b) {
            DecodeOutcome::Text(t) => {
                &&& t.len() == b.len()
                &&& forall|i: int| 0 <= i < b.len() ==> (t[i] as u32) == (b[i] as u32)
            },
            _ => false,
        },
{
    let n = normalize_label(effective_label(b));
    let k = choose|k: int| 0 <= k < latin1_names().len() && latin1_names()[k] == n;
    assert(0 <= k < 4);
    let u0 = seq![117u8, 116, 102, 45, 56];
    let u1 = seq![117u8, 116, 102, 56];
    let u2 = seq![117u8, 116, 102, 45, 56, 45, 115, 105, 103];
    let a0 = seq![97u8, 115, 99, 105, 105];
    let a1 = seq![117u8, 115, 45, 97, 115, 99, 105, 105];
    assert(n.len() == 6 || n.len() == 7 || n.len() == 9 || n.len() == 10);
    assert(n[0] == 108u8 || n[0] == 105u8);
    assert(u2[0] == 117u8);
    assert(n != u0 && n != u1 && n != a0 && n != a1);
    assert(n != u2) by {
        if n.len() == 9 {
            assert(n[0] != u2[0]);
        }
    }
    assert(!is_utf8_label(n));
    assert(!is_ascii_label(n));
    assert(is_latin1_label(n));
    assert(without_bom(b) == b);
}
} // verus!
