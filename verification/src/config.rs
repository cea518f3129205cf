//! Project configuration: the `[tool.cull]`, `[project]` and `[tool.pytest.ini_options]`
//! tables of `pyproject.toml`, validated into a [`ProjectConfig`].
use vstd::prelude::*;

use crate::output::ProjectMode;
use crate::semantic::OriginEvidence;
use crate::source::{spec_parse_version, PythonVersion};
use crate::text::{push_char, str_chars, str_eq, string_from_chars};
use vstd::string::StringExecFns;

verus! {

/// The validated configuration of a project.
#[derive(Clone, Debug, PartialEq, Eq)]
pub struct ProjectConfig {
    pub source_roots: Vec<String>,
    pub excludes: Vec<String>,
    pub target_python: Option<PythonVersion>,
    pub mode: ProjectMode,
    pub test_paths: Vec<String>,
    pub test_path_origin_evidence: Option<OriginEvidence>,
    pub roots: Vec<RootSelector>,
    pub root_coverage: Option<RootCoverageAssertion>,
    pub scripts: Vec<ProjectScript>,
    pub gui_scripts: Vec<ProjectScript>,
    pub dynamic_scripts: bool,
    pub dynamic_gui_scripts: bool,
    pub allow_partial: bool,
}

/// `c` is the configuration of a project without `pyproject.toml` settings.
pub open spec fn is_empty_config(c: ProjectConfig) -> bool {
    &&& c.source_roots@.len() == 0
    &&& c.excludes@.len() == 0
    &&& c.target_python is None
    &&& c.mode == ProjectMode::Auto
    &&& c.test_paths@.len() == 0
    &&& c.test_path_origin_evidence is None
    &&& c.roots@.len() == 0
    &&& c.root_coverage is None
    &&& c.scripts@.len() == 0
    &&& c.gui_scripts@.len() == 0
    &&& !c.dynamic_scripts
    &&& !c.dynamic_gui_scripts
    &&& !c.allow_partial
}

impl ProjectConfig {
    /// The configuration of a project without settings.
    pub fn empty() -> (c: Self)
        ensures
            is_empty_config(c),
    {
        ProjectConfig {
            source_roots: Vec::new(),
            excludes: Vec::new(),
            target_python: None,
            mode: ProjectMode::Auto,
            test_paths: Vec::new(),
            test_path_origin_evidence: None,
            roots: Vec::new(),
            root_coverage: None,
            scripts: Vec::new(),
            gui_scripts: Vec::new(),
            dynamic_scripts: false,
            dynamic_gui_scripts: false,
            allow_partial: false,
        }
    }
}

/// What the project asserts about the completeness of its configured roots.
#[derive(Clone, Copy, Debug, PartialEq, Eq, Structural)]
pub enum RootCoverageAssertion {
    Complete,
    Partial,
}

/// A root reference: a module, optionally with an object path inside it (`pkg.mod:obj.attr`).
#[derive(Clone, Debug, PartialEq, Eq)]
pub struct RootSelector {
    pub raw: String,
    pub module: String,
    pub attributes: Vec<String>,
}

impl RootSelector {
    /// Whether the selector names a whole module.
    pub fn is_module_root(&self) -> (yes: bool)
        ensures
            yes == (self.attributes@.len() == 0),
    {
        self.attributes.len() == 0
    }
}

/// A console or GUI script entry point of `[project]`.
#[derive(Clone, Debug, PartialEq, Eq)]
pub struct ProjectScript {
    pub name: String,
    pub target: RootSelector,
}

/// Where a source root came from.
#[derive(Clone, Copy, Debug, PartialEq, Eq, Structural)]
pub enum SourceRootKind {
    Explicit,
    ToolCull,
    ConventionalSrc,
    FlatProject,
}

pub open spec fn source_root_kind_name(kind: SourceRootKind) -> Seq<char> {
    match kind {
        SourceRootKind::Explicit => "explicit"@,
        SourceRootKind::ToolCull => "tool-cull"@,
        SourceRootKind::ConventionalSrc => "conventional-src"@,
        SourceRootKind::FlatProject => "flat-project"@,
    }
}

impl SourceRootKind {
    /// The kind's name in reports.
    pub fn as_str(self) -> (name: &'static str)
        ensures
            name@ == source_root_kind_name(self),
    {
        match self {
            SourceRootKind::Explicit => "explicit",
            SourceRootKind::ToolCull => "tool-cull",
            SourceRootKind::ConventionalSrc => "conventional-src",
            SourceRootKind::FlatProject => "flat-project",
        }
    }
}

/// Why a project's configuration could not be used.
#[derive(Clone, Debug, PartialEq, Eq)]
pub enum ConfigError {
    Read(String),
    Parse(String),
    InvalidMode(String),
    InvalidRootCoverage(String),
    InvalidRootReference(String),
    InvalidScriptReference { name: String, target: String },
}

pub open spec fn config_error_message(e: ConfigError) -> Seq<char> {
    match e {
        ConfigError::Read(m) => "failed to read pyproject.toml: "@ + m@,
        ConfigError::Parse(m) => "failed to parse pyproject.toml: "@ + m@,
        ConfigError::InvalidMode(v) => "invalid [tool.cull].mode `"@ + v@
            + "`; expected auto, application, or library"@,
        ConfigError::InvalidRootCoverage(v) => "invalid [tool.cull].root_coverage `"@ + v@
            + "`; expected complete or partial"@,
        ConfigError::InvalidRootReference(v) => "invalid root object reference `"@ + v@
            + "`; expected module or module:object.attr"@,
        ConfigError::InvalidScriptReference { name, target } => "invalid project script object reference for `"@
            + name@ + "`: `"@ + target@ + "`; expected module:object.attr"@,
    }
}

impl ConfigError {
    /// The error's description.
    pub fn message(&self) -> (m: String)
        ensures
            m@ == config_error_message(*self),
    {
        let mut m;
        match self {
            ConfigError::Read(detail) => {
                m = <String as StringExecFns>::from_str("failed to read pyproject.toml: ");
                m.append(detail.as_str());
            },
            ConfigError::Parse(detail) => {
                m = <String as StringExecFns>::from_str("failed to parse pyproject.toml: ");
                m.append(detail.as_str());
            },
            ConfigError::InvalidMode(value) => {
                m = <String as StringExecFns>::from_str("invalid [tool.cull].mode `");
                m.append(value.as_str());
                m.append("`; expected auto, application, or library");
            },
            ConfigError::InvalidRootCoverage(value) => {
                m = <String as StringExecFns>::from_str("invalid [tool.cull].root_coverage `");
                m.append(value.as_str());
                m.append("`; expected complete or partial");
            },
            ConfigError::InvalidRootReference(value) => {
                m = <String as StringExecFns>::from_str("invalid root object reference `");
                m.append(value.as_str());
                m.append("`; expected module or module:object.attr");
            },
            ConfigError::InvalidScriptReference { name, target } => {
                m = <String as StringExecFns>::from_str("invalid project script object reference for `");
                m.append(name.as_str());
                m.append("`: `");
                m.append(target.as_str());
                m.append("`; expected module:object.attr");
            },
        }
        m
    }
}

// ----- names -----

pub open spec fn is_ascii_alpha(c: char) -> bool {
    ('a' <= c <= 'z') || ('A' <= c <= 'Z')
}

pub open spec fn is_ascii_digit(c: char) -> bool {
    '0' <= c <= '9'
}

/// An ASCII identifier: a letter or `_`, then letters, digits and `_`.
pub open spec fn is_identifier_spec(s: Seq<char>) -> bool {
    &&& s.len() > 0
    &&& (s[0] == '_' || is_ascii_alpha(s[0]))
    &&& forall|i: int| 1 <= i < s.len() ==> (#[trigger] s[i] == '_' || is_ascii_alpha(s[i]) || is_ascii_digit(s[i]))
}

/// Whether `value` is an ASCII identifier.
pub fn is_identifier(value: &[char]) -> (yes: bool)
    ensures
        yes == is_identifier_spec(value@),
{
    if value.len() == 0 {
        return false;
    }
    let first = value[0];
    if !(first == '_' || ('a' <= first && first <= 'z') || ('A' <= first && first <= 'Z')) {
        return false;
    }
    let mut i: usize = 1;
    while i < value.len()
        invariant
            1 <= i <= value@.len(),
            forall|j: int| 1 <= j < i ==> (#[trigger] value@[j] == '_' || is_ascii_alpha(value@[j]) || is_ascii_digit(value@[j])),
        decreases value@.len() - i,
    {
        let c = value[i];
        if !(c == '_' || ('a' <= c && c <= 'z') || ('A' <= c && c <= 'Z') || ('0' <= c && c <= '9')) {
            return false;
        }
        i = i + 1;
    }
    true
}

/// The pieces of `s` between the occurrences of `sep` (one piece more than occurrences).
pub open spec fn split_spec(s: Seq<char>, sep: char) -> Seq<Seq<char>>
    decreases s.len(),
{
    if s.len() == 0 {
        seq![Seq::empty()]
    } else {
        let prev = split_spec(s.drop_last(), sep);
        if s.last() == sep {
            prev.push(Seq::empty())
        } else {
            prev.update(prev.len() - 1, prev.last().push(s.last()))
        }
    }
}

proof fn lemma_split_nonempty(s: Seq<char>, sep: char)
    ensures
        split_spec(s, sep).len() >= 1,
    decreases s.len(),
{
    if s.len() > 0 {
        lemma_split_nonempty(s.drop_last(), sep);
    }
}

/// The pieces of `s` between the occurrences of `sep`.
pub fn split_chars(s: &[char], sep: char) -> (parts: Vec<Vec<char>>)
    ensures
        parts@.len() == split_spec(s@, sep).len(),
        forall|k: int| 0 <= k < parts@.len() ==> (#[trigger] parts@[k])@ == split_spec(s@, sep)[k],
{
    let mut parts: Vec<Vec<char>> = Vec::new();
    let mut current: Vec<char> = Vec::new();
    let mut i: usize = 0;
    while i < s.len()
        invariant
            0 <= i <= s@.len(),
            parts@.len() + 1 == split_spec(s@.take(i as int), sep).len(),
            forall|k: int| 0 <= k < parts@.len() ==> (#[trigger] parts@[k])@ == split_spec(s@.take(i as int), sep)[k],
            current@ == split_spec(s@.take(i as int), sep).last(),
        decreases s@.len() - i,
    {
        proof {
            assert(s@.take(i + 1).drop_last() =~= s@.take(i as int));
            assert(s@.take(i + 1).last() == s@[i as int]);
            lemma_split_nonempty(s@.take(i as int), sep);
        }
        if s[i] == sep {
            let mut done: Vec<char> = Vec::new();
            std::mem::swap(&mut done, &mut current);
            parts.push(done);
        } else {
            current.push(s[i]);
        }
        i = i + 1;
    }
    parts.push(current);
    proof {
        assert(s@.take(s@.len() as int) =~= s@);
    }
    parts
}

/// Every piece of `s` between dots is an identifier.
pub open spec fn is_dotted_identifier_spec(s: Seq<char>) -> bool {
    &&& s.len() > 0
    &&& forall|k: int| 0 <= k < split_spec(s, '.').len() ==> is_identifier_spec(#[trigger] split_spec(s, '.')[k])
}

/// Whether `value` is a dotted sequence of identifiers, such as `pkg.mod`.
pub fn is_dotted_identifier(value: &[char]) -> (yes: bool)
    ensures
        yes == is_dotted_identifier_spec(value@),
{
    if value.len() == 0 {
        return false;
    }
    let parts = split_chars(value, '.');
    let mut k: usize = 0;
    while k < parts.len()
        invariant
            0 <= k <= parts@.len(),
            parts@.len() == split_spec(value@, '.').len(),
            forall|j: int| 0 <= j < parts@.len() ==> (#[trigger] parts@[j])@ == split_spec(value@, '.')[j],
            forall|j: int| 0 <= j < k ==> is_identifier_spec(#[trigger] split_spec(value@, '.')[j]),
        decreases parts@.len() - k,
    {
        if !is_identifier(parts[k].as_slice()) {
            return false;
        }
        k = k + 1;
    }
    true
}

// ----- whitespace -----

/// The characters with the Unicode `White_Space` property, which `char::is_whitespace`
/// recognizes and `str::trim` removes.
pub open spec fn is_unicode_whitespace(c: char) -> bool {
    ||| ('\u{9}' <= c <= '\u{d}')
    ||| c == ' '
    ||| c == '\u{85}'
    ||| c == '\u{a0}'
    ||| c == '\u{1680}'
    ||| ('\u{2000}' <= c <= '\u{200a}')
    ||| c == '\u{2028}'
    ||| c == '\u{2029}'
    ||| c == '\u{202f}'
    ||| c == '\u{205f}'
    ||| c == '\u{3000}'
}

/// Whether `c` has the Unicode `White_Space` property.
pub fn is_whitespace(c: char) -> (yes: bool)
    ensures
        yes == is_unicode_whitespace(c),
{
    ('\u{9}' <= c && c <= '\u{d}') || c == ' ' || c == '\u{85}' || c == '\u{a0}' || c == '\u{1680}'
        || ('\u{2000}' <= c && c <= '\u{200a}') || c == '\u{2028}' || c == '\u{2029}' || c == '\u{202f}'
        || c == '\u{205f}' || c == '\u{3000}'
}

/// Trimming changes `s`: it starts or ends with whitespace.
pub open spec fn trim_changes(s: Seq<char>) -> bool {
    s.len() > 0 && (is_unicode_whitespace(s[0]) || is_unicode_whitespace(s.last()))
}

// ----- selectors -----

pub open spec fn count_char(s: Seq<char>, c: char) -> nat
    decreases s.len(),
{
    if s.len() == 0 {
        0
    } else {
        count_char(s.drop_last(), c) + if s.last() == c { 1nat } else { 0nat }
    }
}

/// The module and the attribute path a root reference names, if it is well formed: no
/// surrounding whitespace, at most one `:`, a dotted module name, and after a `:` a non-empty
/// dotted path of identifiers.
pub open spec fn selector_parts(value: Seq<char>) -> Option<(Seq<char>, Seq<Seq<char>>)> {
    if value.len() == 0 || trim_changes(value) || count_char(value, ':') > 1 {
        None
    } else {
        let pieces = split_spec(value, ':');
        if pieces.len() > 1 && pieces[1].len() == 0 {
            None
        } else if !is_dotted_identifier_spec(pieces[0]) || !all_identifiers(selector_attributes(value)) {
            None
        } else {
            Some((pieces[0], selector_attributes(value)))
        }
    }
}

/// The attribute path after the `:` of a selector, split at dots.
pub open spec fn selector_attributes(value: Seq<char>) -> Seq<Seq<char>> {
    let pieces = split_spec(value, ':');
    if pieces.len() > 1 {
        split_spec(pieces[1], '.')
    } else {
        Seq::empty()
    }
}

pub open spec fn all_identifiers(s: Seq<Seq<char>>) -> bool {
    forall|k: int| 0 <= k < s.len() ==> is_identifier_spec(#[trigger] s[k])
}

/// `r` is the selector `value` denotes, with `parts` its module and attributes.
pub open spec fn selector_matches(r: RootSelector, value: Seq<char>, parts: (Seq<char>, Seq<Seq<char>>)) -> bool {
    &&& r.raw@ == value
    &&& r.module@ == parts.0
    &&& r.attributes@.len() == parts.1.len()
    &&& forall|k: int| 0 <= k < parts.1.len() ==> (#[trigger] r.attributes@[k])@ == parts.1[k]
}

proof fn lemma_split_count(s: Seq<char>, c: char)
    ensures
        split_spec(s, c).len() == count_char(s, c) + 1,
    decreases s.len(),
{
    if s.len() > 0 {
        lemma_split_count(s.drop_last(), c);
    }
}

fn count_colons(s: &[char]) -> (n: usize)
    ensures
        n == count_char(s@, ':'),
{
    let mut n: usize = 0;
    let mut i: usize = 0;
    while i < s.len()
        invariant
            0 <= i <= s@.len(),
            n == count_char(s@.take(i as int), ':'),
            n <= i,
        decreases s@.len() - i,
    {
        assert(s@.take(i + 1).drop_last() =~= s@.take(i as int));
        if s[i] == ':' {
            n = n + 1;
        }
        i = i + 1;
    }
    assert(s@.take(s@.len() as int) =~= s@);
    n
}

fn strings_from_pieces(pieces: &Vec<Vec<char>>) -> (out: Vec<String>)
    ensures
        out@.len() == pieces@.len(),
        forall|k: int| 0 <= k < out@.len() ==> (#[trigger] out@[k])@ == pieces@[k]@,
{
    let mut out: Vec<String> = Vec::new();
    let mut k: usize = 0;
    while k < pieces.len()
        invariant
            0 <= k <= pieces@.len(),
            out@.len() == k,
            forall|j: int| 0 <= j < k ==> (#[trigger] out@[j])@ == pieces@[j]@,
        decreases pieces@.len() - k,
    {
        out.push(string_from_chars(pieces[k].as_slice()));
        k = k + 1;
    }
    out
}

/// The root selector `value` denotes, if it is well formed.
pub fn parse_root_selector(value: &str) -> (r: Option<RootSelector>)
    ensures
        r is Some <==> selector_parts(value@) is Some,
        r matches Some(sel) ==> selector_matches(sel, value@, selector_parts(value@)->0),
{
    let chars = str_chars(value);
    if chars.len() == 0 || is_whitespace(chars[0]) || is_whitespace(chars[chars.len() - 1]) {
        return None;
    }
    if count_colons(&chars) > 1 {
        return None;
    }
    let pieces = split_chars(&chars, ':');
    proof {
        lemma_split_count(value@, ':');
    }
    let attributes: Vec<Vec<char>> = if pieces.len() > 1 {
        if pieces[1].len() == 0 {
            return None;
        }
        split_chars(pieces[1].as_slice(), '.')
    } else {
        Vec::new()
    };
    let ghost spec_attrs = if pieces@.len() > 1 { split_spec(pieces@[1]@, '.') } else { Seq::<Seq<char>>::empty() };
    assert(attributes@.len() == spec_attrs.len());
    if !is_dotted_identifier(pieces[0].as_slice()) {
        return None;
    }
    proof {
        let pieces_s = split_spec(value@, ':');
        assert(pieces@[0]@ == pieces_s[0]);
        assert(chars@ == value@);
        assert(value@.len() > 0);
        assert(value@[0] == chars@[0]);
        assert(value@.last() == chars@[chars@.len() - 1]);
        assert(!trim_changes(value@));
        assert(count_char(value@, ':') <= 1);
        assert(pieces_s.len() > 1 ==> pieces_s[1].len() > 0);
        assert(is_dotted_identifier_spec(pieces_s[0]));
        assert(spec_attrs == (if pieces_s.len() > 1 { split_spec(pieces_s[1], '.') } else { Seq::<Seq<char>>::empty() }));
        assert(spec_attrs == selector_attributes(value@));
        assert(selector_parts(value@) is Some <==> all_identifiers(spec_attrs));
    }
    let mut k: usize = 0;
    while k < attributes.len()
        invariant
            0 <= k <= attributes@.len(),
            attributes@.len() == spec_attrs.len(),
            selector_parts(value@) is Some <==> all_identifiers(spec_attrs),
            forall|j: int| 0 <= j < attributes@.len() ==> (#[trigger] attributes@[j])@ == spec_attrs[j],
            forall|j: int| 0 <= j < k ==> is_identifier_spec(#[trigger] spec_attrs[j]),
        decreases attributes@.len() - k,
    {
        if !is_identifier(attributes[k].as_slice()) {
            return None;
        }
        k = k + 1;
    }
    Some(RootSelector {
        raw: value.to_owned(),
        module: string_from_chars(pieces[0].as_slice()),
        attributes: strings_from_pieces(&attributes),
    })
}

/// A script target must name an object inside a module.
pub fn parse_script_selector(value: &str) -> (r: Option<RootSelector>)
    ensures
        r is Some <==> (selector_parts(value@) matches Some(p) && p.1.len() > 0),
        r matches Some(sel) ==> selector_matches(sel, value@, selector_parts(value@)->0),
{
    match parse_root_selector(value) {
        Some(selector) => if selector.attributes.len() > 0 {
            Some(selector)
        } else {
            None
        },
        None => None,
    }
}

// ----- modes -----

pub open spec fn mode_named(value: Seq<char>) -> Option<ProjectMode> {
    if value == "auto"@ {
        Some(ProjectMode::Auto)
    } else if value == "application"@ {
        Some(ProjectMode::Application)
    } else if value == "library"@ {
        Some(ProjectMode::Library)
    } else {
        None
    }
}

/// The project mode named `value`.
pub fn parse_mode(value: &str) -> (mode: Option<ProjectMode>)
    ensures
        mode == mode_named(value@),
{
    if str_eq(value, "auto") {
        Some(ProjectMode::Auto)
    } else if str_eq(value, "application") {
        Some(ProjectMode::Application)
    } else if str_eq(value, "library") {
        Some(ProjectMode::Library)
    } else {
        None
    }
}

/// How a mode is written in `[tool.cull]`: `auto`, `application` or `library`.
pub open spec fn mode_spelling(m: ProjectMode) -> Seq<char> {
    match m {
        ProjectMode::Auto => "auto"@,
        ProjectMode::Application => "application"@,
        ProjectMode::Library => "library"@,
    }
}

/// Each mode is read back from its own spelling, and a value names a mode only when it is
/// that mode's spelling; so distinct values never name the same mode.
pub proof fn lemma_mode_names_round_trip(m: ProjectMode, value: Seq<char>, other: Seq<char>)
    ensures
        mode_named(mode_spelling(m)) == Some(m),
        mode_named(value) matches Some(n) ==> value == mode_spelling(n),
        (mode_named(value) is Some && mode_named(value) == mode_named(other)) ==> value == other,
{
    reveal_strlit("auto");
    reveal_strlit("application");
    reveal_strlit("library");
    assert("auto"@.len() == 4 && "application"@.len() == 11 && "library"@.len() == 7);
}

pub open spec fn root_coverage_named(value: Seq<char>) -> Option<RootCoverageAssertion> {
    if value == "complete"@ {
        Some(RootCoverageAssertion::Complete)
    } else if value == "partial"@ {
        Some(RootCoverageAssertion::Partial)
    } else {
        None
    }
}

/// The root coverage assertion named `value`.
pub fn parse_root_coverage(value: &str) -> (coverage: Option<RootCoverageAssertion>)
    ensures
        coverage == root_coverage_named(value@),
{
    if str_eq(value, "complete") {
        Some(RootCoverageAssertion::Complete)
    } else if str_eq(value, "partial") {
        Some(RootCoverageAssertion::Partial)
    } else {
        None
    }
}

// ----- pyproject.toml -----

/// The `[project]` table: its script tables, in key order, and its `dynamic` list.
#[derive(Clone, Debug, PartialEq, Eq)]
pub struct RawProjectMetadata {
    pub scripts: Option<Vec<(String, String)>>,
    pub gui_scripts: Option<Vec<(String, String)>>,
    pub dynamic: Option<Vec<String>>,
}

/// The `[tool.cull]` table, each list already given as a list.
#[derive(Clone, Debug, PartialEq, Eq)]
pub struct RawToolCull {
    pub src: Option<Vec<String>>,
    pub exclude: Option<Vec<String>>,
    pub target_python: Option<String>,
    pub target_version: Option<String>,
    pub tests: Option<Vec<String>>,
    pub mode: Option<String>,
    pub roots: Option<Vec<String>>,
    pub root_coverage: Option<String>,
    pub allow_partial: Option<bool>,
}

/// The `[tool.pytest.ini_options]` table.
#[derive(Clone, Debug, PartialEq, Eq)]
pub struct RawPytestIniOptions {
    pub testpaths: Option<Vec<String>>,
}

/// The `[tool.pytest]` table.
#[derive(Clone, Debug, PartialEq, Eq)]
pub struct RawToolPytest {
    pub ini_options: Option<RawPytestIniOptions>,
}

/// The `[tool]` table.
#[derive(Clone, Debug, PartialEq, Eq)]
pub struct RawTool {
    pub cull: Option<RawToolCull>,
    pub pytest: Option<RawToolPytest>,
}

/// The parts of `pyproject.toml` the analyzer reads.
#[derive(Clone, Debug, PartialEq, Eq)]
pub struct RawPyProject {
    pub project: Option<RawProjectMetadata>,
    pub tool: Option<RawTool>,
}

/// A script target must name an object inside a module.
pub open spec fn script_target_valid(target: Seq<char>) -> bool {
    selector_parts(target) matches Some(p) && p.1.len() > 0
}

/// `out` holds the scripts of `pairs`, in order.
pub open spec fn scripts_match(out: Seq<ProjectScript>, pairs: Seq<(String, String)>) -> bool {
    &&& out.len() == pairs.len()
    &&& forall|k: int| 0 <= k < pairs.len() ==> {
        &&& (#[trigger] out[k]).name@ == pairs[k].0@
        &&& selector_matches(out[k].target, pairs[k].1@, selector_parts(pairs[k].1@)->0)
    }
}

/// `e` reports the first script of `pairs` whose target is not valid.
pub open spec fn first_invalid_script(pairs: Seq<(String, String)>, e: ConfigError) -> bool {
    exists|k: int| 0 <= k < pairs.len() && !script_target_valid(#[trigger] pairs[k].1@)
        && (forall|j: int| 0 <= j < k ==> script_target_valid(#[trigger] pairs[j].1@))
        && (e matches ConfigError::InvalidScriptReference { name, target } && name@ == pairs[k].0@ && target@ == pairs[k].1@)
}

pub open spec fn all_scripts_valid(pairs: Seq<(String, String)>) -> bool {
    forall|k: int| 0 <= k < pairs.len() ==> script_target_valid(#[trigger] pairs[k].1@)
}

pub open spec fn script_pairs(scripts: Option<Vec<(String, String)>>) -> Seq<(String, String)> {
    match scripts {
        Some(v) => v@,
        None => Seq::empty(),
    }
}

/// `r` is the outcome of reading the scripts `pairs`: all of them, or the first invalid one.
pub open spec fn scripts_outcome(pairs: Seq<(String, String)>, r: Result<Vec<ProjectScript>, ConfigError>) -> bool {
    if all_scripts_valid(pairs) {
        r matches Ok(v) && scripts_match(v@, pairs)
    } else {
        r matches Err(e) && first_invalid_script(pairs, e)
    }
}

/// The scripts of a script table, in order; the first target that is not `module:object`
/// is an error.
pub fn parse_scripts(scripts: Option<&Vec<(String, String)>>) -> (r: Result<Vec<ProjectScript>, ConfigError>)
    ensures
        scripts_outcome(match scripts { Some(v) => v@, None => Seq::empty() }, r),
{
    let mut parsed: Vec<ProjectScript> = Vec::new();
    let pairs = match scripts {
        Some(v) => v,
        None => {
            return Ok(parsed);
        },
    };
    let mut k: usize = 0;
    while k < pairs.len()
        invariant
            0 <= k <= pairs@.len(),
            scripts == Some(pairs),
            parsed@.len() == k,
            forall|j: int| 0 <= j < k ==> script_target_valid(#[trigger] pairs@[j].1@),
            forall|j: int| 0 <= j < k ==> {
                &&& (#[trigger] parsed@[j]).name@ == pairs@[j].0@
                &&& selector_matches(parsed@[j].target, pairs@[j].1@, selector_parts(pairs@[j].1@)->0)
            },
        decreases pairs@.len() - k,
    {
        let name = &pairs[k].0;
        let target = &pairs[k].1;
        match parse_script_selector(target.as_str()) {
            Some(selector) => {
                parsed.push(ProjectScript { name: name.clone(), target: selector });
            },
            None => {
                let e = ConfigError::InvalidScriptReference { name: name.clone(), target: target.clone() };
                assert(first_invalid_script(pairs@, e));
                assert(!all_scripts_valid(pairs@));
                return Err(e);
            },
        }
        k = k + 1;
    }
    Ok(parsed)
}

/// Whether `value` is among `values`.
fn contains_str(values: &Vec<String>, value: &str) -> (yes: bool)
    ensures
        yes == exists|k: int| 0 <= k < values@.len() && (#[trigger] values@[k])@ == value@,
{
    let mut k: usize = 0;
    while k < values.len()
        invariant
            0 <= k <= values@.len(),
            forall|j: int| 0 <= j < k ==> (#[trigger] values@[j])@ != value@,
        decreases values@.len() - k,
    {
        if str_eq(values[k].as_str(), value) {
            return true;
        }
        k = k + 1;
    }
    false
}

pub open spec fn lists(values: Option<Vec<String>>) -> Seq<String> {
    match values {
        Some(v) => v@,
        None => Seq::empty(),
    }
}

pub open spec fn mentions(values: Seq<String>, value: Seq<char>) -> bool {
    exists|k: int| 0 <= k < values.len() && (#[trigger] values[k])@ == value
}

/// What `[project]` contributes: its console and GUI scripts, and whether scripts are
/// declared dynamic while none are listed.
pub open spec fn metadata_outcome(
    project: Option<RawProjectMetadata>,
    r: Result<(Vec<ProjectScript>, Vec<ProjectScript>, bool, bool), ConfigError>,
) -> bool {
    match project {
        None => r matches Ok(t) && t.0@.len() == 0 && t.1@.len() == 0 && !t.2 && !t.3,
        Some(p) => {
            let scripts = script_pairs(p.scripts);
            let gui = script_pairs(p.gui_scripts);
            let dynamic = lists(p.dynamic);
            if !all_scripts_valid(scripts) {
                r matches Err(e) && first_invalid_script(scripts, e)
            } else if !all_scripts_valid(gui) {
                r matches Err(e) && first_invalid_script(gui, e)
            } else {
                r matches Ok(t) && scripts_match(t.0@, scripts) && scripts_match(t.1@, gui)
                    && t.2 == (mentions(dynamic, "scripts"@) && scripts.len() == 0)
                    && t.3 == (mentions(dynamic, "gui-scripts"@) && gui.len() == 0)
            }
        },
    }
}

/// The scripts of `[project]` and whether they are dynamic.
pub fn parse_project_metadata(project: Option<&RawProjectMetadata>) -> (r: Result<(Vec<ProjectScript>, Vec<ProjectScript>, bool, bool), ConfigError>)
    ensures
        metadata_outcome(match project { Some(p) => Some(*p), None => None }, r),
{
    let project = match project {
        Some(p) => p,
        None => {
            return Ok((Vec::new(), Vec::new(), false, false));
        },
    };
    let scripts = match parse_scripts(project.scripts.as_ref()) {
        Ok(s) => s,
        Err(e) => {
            return Err(e);
        },
    };
    let gui_scripts = match parse_scripts(project.gui_scripts.as_ref()) {
        Ok(s) => s,
        Err(e) => {
            return Err(e);
        },
    };
    let (declares_scripts, declares_gui) = match &project.dynamic {
        Some(values) => (contains_str(values, "scripts"), contains_str(values, "gui-scripts")),
        None => (false, false),
    };
    let dynamic_scripts = declares_scripts && scripts.len() == 0;
    let dynamic_gui_scripts = declares_gui && gui_scripts.len() == 0;
    Ok((scripts, gui_scripts, dynamic_scripts, dynamic_gui_scripts))
}

/// The test paths `[tool.pytest.ini_options].testpaths` lists.
pub open spec fn pytest_test_paths(tool: Option<RawTool>) -> Seq<String> {
    match tool {
        Some(t) => match t.pytest {
            Some(p) => match p.ini_options {
                Some(o) => lists(o.testpaths),
                None => Seq::empty(),
            },
            None => Seq::empty(),
        },
        None => Seq::empty(),
    }
}

/// The roots listed by `[tool.cull].roots` are all valid selectors.
pub open spec fn all_roots_valid(roots: Seq<String>) -> bool {
    forall|k: int| 0 <= k < roots.len() ==> selector_parts(#[trigger] roots[k]@) is Some
}

/// `c` carries the scripts of `[project]`.
pub open spec fn carries_metadata(c: ProjectConfig, project: Option<RawProjectMetadata>) -> bool {
    match project {
        None => c.scripts@.len() == 0 && c.gui_scripts@.len() == 0 && !c.dynamic_scripts && !c.dynamic_gui_scripts,
        Some(p) => {
            &&& scripts_match(c.scripts@, script_pairs(p.scripts))
            &&& scripts_match(c.gui_scripts@, script_pairs(p.gui_scripts))
            &&& c.dynamic_scripts == (mentions(lists(p.dynamic), "scripts"@) && script_pairs(p.scripts).len() == 0)
            &&& c.dynamic_gui_scripts == (mentions(lists(p.dynamic), "gui-scripts"@) && script_pairs(p.gui_scripts).len() == 0)
        },
    }
}

/// The metadata of `[project]` is valid.
pub open spec fn metadata_valid(project: Option<RawProjectMetadata>) -> bool {
    match project {
        None => true,
        Some(p) => all_scripts_valid(script_pairs(p.scripts)) && all_scripts_valid(script_pairs(p.gui_scripts)),
    }
}

/// `c` is the configuration `[tool.cull]` gives, with pytest's test paths as `pytest`.
pub open spec fn cull_config(c: ProjectConfig, cull: RawToolCull, pytest: Seq<String>) -> bool {
    &&& c.source_roots@ == lists(cull.src)
    &&& c.excludes@ == lists(cull.exclude)
    &&& c.target_python == match (match cull.target_python { Some(t) => Some(t), None => cull.target_version }) {
        Some(t) => spec_parse_version(t@),
        None => None,
    }
    &&& c.mode == match cull.mode { Some(m) => mode_named(m@)->0, None => ProjectMode::Auto }
    &&& match cull.tests {
        Some(t) => c.test_paths@ == t@ && c.test_path_origin_evidence == Some(OriginEvidence::CullConfiguration),
        None => c.test_paths@ == pytest && c.test_path_origin_evidence == (if pytest.len() > 0 {
            Some(OriginEvidence::PytestTestPath)
        } else {
            None
        }),
    }
    &&& c.roots@.len() == lists(cull.roots).len()
    &&& forall|k: int| 0 <= k < c.roots@.len() ==> selector_matches(#[trigger] c.roots@[k], lists(cull.roots)[k]@,
        selector_parts(lists(cull.roots)[k]@)->0)
    &&& c.root_coverage == match cull.root_coverage { Some(v) => root_coverage_named(v@), None => None }
    &&& c.allow_partial == match cull.allow_partial { Some(b) => b, None => false }
}

/// `r` is the configuration `pyproject.toml` gives: errors in the scripts first, then in
/// `[tool.cull]` (its mode, its root coverage, its first invalid root); without `[tool]` or
/// `[tool.cull]` the defaults hold, with pytest's test paths when there is `[tool]`.
pub open spec fn config_outcome(raw: RawPyProject, r: Result<ProjectConfig, ConfigError>) -> bool {
    let pytest = pytest_test_paths(raw.tool);
    if !metadata_valid(raw.project) {
        match raw.project {
            Some(p) => if !all_scripts_valid(script_pairs(p.scripts)) {
                r matches Err(e) && first_invalid_script(script_pairs(p.scripts), e)
            } else {
                r matches Err(e) && first_invalid_script(script_pairs(p.gui_scripts), e)
            },
            None => false,
        }
    } else {
        match raw.tool {
            None => r matches Ok(c) && carries_metadata(c, raw.project) && c.source_roots@.len() == 0
                && c.excludes@.len() == 0 && c.target_python is None && c.mode == ProjectMode::Auto
                && c.test_paths@.len() == 0 && c.test_path_origin_evidence is None && c.roots@.len() == 0
                && c.root_coverage is None && !c.allow_partial,
            Some(tool) => match tool.cull {
                None => r matches Ok(c) && carries_metadata(c, raw.project) && c.source_roots@.len() == 0
                    && c.excludes@.len() == 0 && c.target_python is None && c.mode == ProjectMode::Auto
                    && c.test_paths@ == pytest && c.test_path_origin_evidence == (if pytest.len() > 0 {
                        Some(OriginEvidence::PytestTestPath)
                    } else {
                        None
                    }) && c.roots@.len() == 0 && c.root_coverage is None && !c.allow_partial,
                Some(cull) => if cull.mode matches Some(m) && mode_named(m@) is None {
                    r matches Err(e) && (e matches ConfigError::InvalidMode(v) && v@ == cull.mode->0@)
                } else if cull.root_coverage matches Some(v) && root_coverage_named(v@) is None {
                    r matches Err(e) && (e matches ConfigError::InvalidRootCoverage(v) && v@ == cull.root_coverage->0@)
                } else if !all_roots_valid(lists(cull.roots)) {
                    r matches Err(e) && exists|k: int| 0 <= k < lists(cull.roots).len()
                        && selector_parts(#[trigger] lists(cull.roots)[k]@) is None
                        && (forall|j: int| 0 <= j < k ==> selector_parts(#[trigger] lists(cull.roots)[j]@) is Some)
                        && (e matches ConfigError::InvalidRootReference(v) && v@ == lists(cull.roots)[k]@)
                } else {
                    r matches Ok(c) && carries_metadata(c, raw.project) && cull_config(c, cull, pytest)
                },
            },
        }
    }
}

/// The roots `[tool.cull].roots` lists, or the first invalid one.
fn parse_roots(roots: Option<Vec<String>>) -> (r: Result<Vec<RootSelector>, ConfigError>)
    ensures
        all_roots_valid(lists(roots)) ==> (r matches Ok(v) && v@.len() == lists(roots).len()
            && forall|k: int| 0 <= k < v@.len() ==> selector_matches(#[trigger] v@[k], lists(roots)[k]@,
                selector_parts(lists(roots)[k]@)->0)),
        !all_roots_valid(lists(roots)) ==> (r matches Err(e) && exists|k: int| 0 <= k < lists(roots).len()
            && selector_parts(#[trigger] lists(roots)[k]@) is None
            && (forall|j: int| 0 <= j < k ==> selector_parts(#[trigger] lists(roots)[j]@) is Some)
            && (e matches ConfigError::InvalidRootReference(v) && v@ == lists(roots)[k]@)),
{
    let mut parsed: Vec<RootSelector> = Vec::new();
    let values = match roots {
        Some(v) => v,
        None => Vec::new(),
    };
    assert(values@ == lists(roots));
    let mut k: usize = 0;
    while k < values.len()
        invariant
            0 <= k <= values@.len(),
            values@ == lists(roots),
            parsed@.len() == k,
            forall|j: int| 0 <= j < k ==> selector_parts(#[trigger] values@[j]@) is Some,
            forall|j: int| 0 <= j < k ==> selector_matches(#[trigger] parsed@[j], values@[j]@, selector_parts(values@[j]@)->0),
        decreases values@.len() - k,
    {
        match parse_root_selector(values[k].as_str()) {
            Some(selector) => {
                parsed.push(selector);
            },
            None => {
                let e = ConfigError::InvalidRootReference(values[k].clone());
                assert(!all_roots_valid(lists(roots)));
                return Err(e);
            },
        }
        k = k + 1;
    }
    Ok(parsed)
}

/// The configuration `pyproject.toml` gives.
pub fn project_config_from(pyproject: RawPyProject) -> (r: Result<ProjectConfig, ConfigError>)
    ensures
        config_outcome(pyproject, r),
{
    let RawPyProject { project, tool } = pyproject;
    let (scripts, gui_scripts, dynamic_scripts, dynamic_gui_scripts) = match parse_project_metadata(project.as_ref()) {
        Ok(t) => t,
        Err(e) => {
            return Err(e);
        },
    };
    let (has_tool, cull, pytest_test_paths) = match tool {
        Some(RawTool { cull, pytest }) => {
            let paths = match pytest {
                Some(RawToolPytest { ini_options }) => match ini_options {
                    Some(RawPytestIniOptions { testpaths }) => match testpaths {
                        Some(paths) => paths,
                        None => Vec::new(),
                    },
                    None => Vec::new(),
                },
                None => Vec::new(),
            };
            (true, cull, paths)
        },
        None => (false, None, Vec::new()),
    };
    let pytest_evidence = if pytest_test_paths.len() > 0 {
        Some(OriginEvidence::PytestTestPath)
    } else {
        None
    };
    if !has_tool {
        let mut config = ProjectConfig::empty();
        config.scripts = scripts;
        config.gui_scripts = gui_scripts;
        config.dynamic_scripts = dynamic_scripts;
        config.dynamic_gui_scripts = dynamic_gui_scripts;
        return Ok(config);
    }
    let cull = match cull {
        Some(cull) => cull,
        None => {
            let mut config = ProjectConfig::empty();
            config.test_paths = pytest_test_paths;
            config.test_path_origin_evidence = pytest_evidence;
            config.scripts = scripts;
            config.gui_scripts = gui_scripts;
            config.dynamic_scripts = dynamic_scripts;
            config.dynamic_gui_scripts = dynamic_gui_scripts;
            return Ok(config);
        },
    };
    let (test_paths, test_path_origin_evidence) = match cull.tests {
        Some(paths) => (paths, Some(OriginEvidence::CullConfiguration)),
        None => (pytest_test_paths, pytest_evidence),
    };
    let mode = match &cull.mode {
        Some(value) => match parse_mode(value.as_str()) {
            Some(mode) => mode,
            None => {
                return Err(ConfigError::InvalidMode(value.clone()));
            },
        },
        None => ProjectMode::Auto,
    };
    let root_coverage = match &cull.root_coverage {
        Some(value) => match parse_root_coverage(value.as_str()) {
            Some(coverage) => Some(coverage),
            None => {
                return Err(ConfigError::InvalidRootCoverage(value.clone()));
            },
        },
        None => None,
    };
    let roots = match parse_roots(cull.roots) {
        Ok(roots) => roots,
        Err(e) => {
            return Err(e);
        },
    };
    let version_text = match cull.target_python {
        Some(text) => Some(text),
        None => cull.target_version,
    };
    let target_python = match version_text {
        Some(text) => match PythonVersion::parse(text.as_str()) {
            Ok(version) => Some(version),
            Err(_) => None,
        },
        None => None,
    };
    Ok(ProjectConfig {
        source_roots: match cull.src {
            Some(v) => v,
            None => Vec::new(),
        },
        excludes: match cull.exclude {
            Some(v) => v,
            None => Vec::new(),
        },
        target_python,
        mode,
        test_paths,
        test_path_origin_evidence,
        roots,
        root_coverage,
        scripts,
        gui_scripts,
        dynamic_scripts,
        dynamic_gui_scripts,
        allow_partial: match cull.allow_partial {
            Some(b) => b,
            None => false,
        },
    })
}

} // verus!
