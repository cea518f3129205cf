//! Paths as the analyzer reports them: `/`-separated, relative to the project when possible.
use vstd::prelude::*;

use crate::text::{push_char, str_chars};

verus! {

/// The components `std::path::Path::components` yields for `path`, as strings.
pub uninterp spec fn path_component_strings(path: Seq<char>) -> Seq<Seq<char>>;

/// What `std::path::Path::strip_prefix` leaves of `path` after the components of `root`, or
/// `None` when `path` does not start with them.
pub uninterp spec fn stripped_path(path: Seq<char>, root: Seq<char>) -> Option<Seq<char>>;

/// The last component of `path`, as `std::path::Path::file_name` gives it.
pub uninterp spec fn path_file_name(path: Seq<char>) -> Option<Seq<char>>;

/// The platform's path separator, `std::path::MAIN_SEPARATOR`: `/` on Unix and `\\` on
/// Windows, as std documents it. Which of the two depends on the platform and is not stated.
#[verifier::external_body]
fn main_separator() -> (c: char)
    ensures
        c == '/' || c == '\\',
{
    std::path::MAIN_SEPARATOR
}

/// Calls `std::path::Path::strip_prefix`; the rest of the path, converted with
/// `to_string_lossy` (lossless for a path made from a `str`).
#[verifier::external_body]
pub(crate) fn strip_path_prefix(path: &str, root: &str) -> (rest: Option<String>)
    ensures
        match rest {
            Some(r) => stripped_path(path@, root@) == Some(r@),
            None => stripped_path(path@, root@) is None,
        },
{
    std::path::Path::new(path).strip_prefix(root).ok().map(|rest| rest.to_string_lossy().into_owned())
}

/// Calls `std::path::Path::components`, each component converted with `to_string_lossy`.
#[verifier::external_body]
pub(crate) fn path_components(path: &str) -> (parts: Vec<String>)
    ensures
        parts@.len() == path_component_strings(path@).len(),
        forall|k: int| 0 <= k < parts@.len() ==> (#[trigger] parts@[k])@ == path_component_strings(path@)[k],
{
    std::path::Path::new(path).components().map(|c| c.as_os_str().to_string_lossy().into_owned()).collect()
}

/// Calls `std::path::Path::file_name`, converted with `to_string_lossy`.
#[verifier::external_body]
pub(crate) fn file_name(path: &str) -> (name: Option<String>)
    ensures
        match name {
            Some(n) => path_file_name(path@) == Some(n@),
            None => path_file_name(path@) is None,
        },
{
    std::path::Path::new(path).file_name().map(|n| n.to_string_lossy().into_owned())
}

/// `k` is the position of the last `.` in `name`.
pub open spec fn is_last_dot(name: Seq<char>, k: int) -> bool {
    &&& 0 <= k < name.len()
    &&& name[k] == '.'
    &&& forall|j: int| k < j < name.len() ==> name[j] != '.'
}

/// The extension of `path`, as std documents `Path::extension`: none without a file name or
/// without a `.` in it, none when the only `.` starts the name, and otherwise what follows
/// the last `.`.
pub open spec fn path_extension(path: Seq<char>) -> Option<Seq<char>> {
    match path_file_name(path) {
        None => None,
        Some(name) => if exists|k: int| is_last_dot(name, k) {
            let k = choose|k: int| is_last_dot(name, k);
            if k == 0 {
                None
            } else {
                Some(name.skip(k + 1))
            }
        } else {
            None
        },
    }
}

/// Calls `std::path::Path::extension`, converted with `to_string_lossy`; std documents the
/// extension as stated by `path_extension`.
#[verifier::external_body]
pub(crate) fn extension(path: &str) -> (ext: Option<String>)
    ensures
        match ext {
            Some(e) => path_extension(path@) == Some(e@),
            None => path_extension(path@) is None,
        },
{
    std::path::Path::new(path).extension().map(|e| e.to_string_lossy().into_owned())
}

/// `s` with every `sep` replaced by `/`.
pub open spec fn with_slashes(s: Seq<char>, sep: char) -> Seq<char> {
    s.map_values(|c: char| if c == sep { '/' } else { c })
}

/// `path` with every `separator` replaced by `/`.
pub fn replace_separator(path: &str, separator: char) -> (s: String)
    ensures
        s@ == with_slashes(path@, separator),
{
    let chars = str_chars(path);
    let mut s = String::new();
    let mut i: usize = 0;
    while i < chars.len()
        invariant
            0 <= i <= chars@.len(),
            chars@ == path@,
            s@ == with_slashes(chars@.take(i as int), separator),
        decreases chars@.len() - i,
    {
        let c = chars[i];
        push_char(&mut s, if c == separator { '/' } else { c });
        assert(with_slashes(chars@.take(i + 1), separator) =~= with_slashes(chars@.take(i as int), separator).push(
            if c == separator { '/' } else { c }));
        i = i + 1;
    }
    assert(chars@.take(chars@.len() as int) =~= chars@);
    s
}

/// `s` is `path` with the platform's separator, `/` or `\\`, replaced by `/`.
pub open spec fn slashed(s: Seq<char>, path: Seq<char>) -> bool {
    s == with_slashes(path, '/') || s == with_slashes(path, '\\')
}

/// `path` with the platform's separators replaced by `/`.
pub fn slash_path(path: &str) -> (s: String)
    ensures
        slashed(s@, path@),
{
    replace_separator(path, main_separator())
}

/// `path` relative to `root` with `/` separators: `.` for `root` itself, and `path` itself
/// when it is not under `root`.
pub fn relative_slash_path(root: &str, path: &str) -> (s: String)
    ensures
        match stripped_path(path@, root@) {
            Some(rest) => if rest.len() == 0 {
                s@ == "."@
            } else {
                slashed(s@, rest)
            },
            None => slashed(s@, path@),
        },
{
    match strip_path_prefix(path, root) {
        Some(rest) => if rest.as_str().is_empty() {
            ".".to_owned()
        } else {
            slash_path(rest.as_str())
        },
        None => slash_path(path),
    }
}

} // verus!
