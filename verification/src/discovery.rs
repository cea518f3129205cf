//! Project discovery: source roots, module names of Python files, and the origin (production
//! or test) of each module.
use vstd::prelude::*;

use crate::config::{
    config_error_message, ConfigError, ProjectConfig, ProjectScript, RootCoverageAssertion,
    RootSelector, SourceRootKind, source_root_kind_name,
};
use crate::diagnostic::{Diagnostic, DiagnosticSeverity};
use crate::output::{insert_sorted_unique, string_views, strictly_sorted_strings};
use crate::ids::{FileId, ModuleId};
use crate::output::{ProjectMode, SourceRootOutput};
use crate::order::{compare_strs, lemma_lex_concat, lemma_str_key_separated, sort_by_key, sorted_by_key, str_key, SortKey};
use crate::paths::{
    path_component_strings, path_extension, path_file_name, relative_slash_path, slash_path,
    slashed, stripped_path,
};
use crate::semantic::{OriginDomain, OriginEvidence};
use crate::source::PythonVersion;
use crate::text::{
    contains_seq, push_char, slice_chars, str_chars, str_contains, str_ends_with, str_eq,
    str_starts_with, string_from_chars,
};
use vstd::string::StringExecFns;

verus! {

/// Where to look for a project.
#[derive(Clone, Debug)]
pub struct DiscoveryOptions {
    pub project_root: String,
    pub explicit_source_roots: Vec<String>,
    pub target_python: Option<PythonVersion>,
}

/// A discovered project: its configuration and its modules.
#[derive(Clone, Debug)]
pub struct DiscoveredProject {
    pub project_root: String,
    pub target_python: PythonVersion,
    pub mode: ProjectMode,
    pub source_roots: Vec<SourceRoot>,
    pub modules: Vec<DiscoveredModule>,
    pub configured_roots: Vec<RootSelector>,
    pub root_coverage: Option<RootCoverageAssertion>,
    pub scripts: Vec<ProjectScript>,
    pub gui_scripts: Vec<ProjectScript>,
    pub dynamic_scripts: bool,
    pub dynamic_gui_scripts: bool,
    pub allow_partial: bool,
    pub diagnostics: Vec<Diagnostic>,
}

/// A directory modules are named relative to.
#[derive(Clone, Debug)]
pub struct SourceRoot {
    pub path: String,
    pub kind: SourceRootKind,
}

/// A Python file and the module it defines.
#[derive(Clone, Debug)]
pub struct DiscoveredModule {
    pub id: ModuleId,
    pub file: FileId,
    pub name: String,
    pub path: String,
    pub display_path: String,
    pub origin_domain: OriginDomain,
    pub origin_evidence: OriginEvidence,
}

/// Why a project could not be discovered.
#[derive(Clone, Debug)]
pub enum DiscoveryError {
    MissingRoot(String),
    RootNotDirectory(String),
    Config(ConfigError),
}

pub open spec fn discovery_error_message(e: DiscoveryError) -> Seq<char> {
    match e {
        DiscoveryError::MissingRoot(p) => "project root does not exist: "@ + p@,
        DiscoveryError::RootNotDirectory(p) => "project path is not a directory: "@ + p@,
        DiscoveryError::Config(c) => config_error_message(c),
    }
}

impl DiscoveryError {
    /// The error's description.
    pub fn message(&self) -> (m: String)
        ensures
            m@ == discovery_error_message(*self),
    {
        match self {
            DiscoveryError::MissingRoot(path) => {
                let mut m = <String as StringExecFns>::from_str("project root does not exist: ");
                m.append(path.as_str());
                m
            },
            DiscoveryError::RootNotDirectory(path) => {
                let mut m = <String as StringExecFns>::from_str("project path is not a directory: ");
                m.append(path.as_str());
                m
            },
            DiscoveryError::Config(error) => error.message(),
        }
    }
}

/// `out` is the source root `root` as reported for the project at `project_root`.
pub open spec fn source_root_reported(out: SourceRootOutput, project_root: Seq<char>, root: SourceRoot) -> bool {
    &&& match stripped_path(root.path@, project_root) {
        Some(rest) => if rest.len() == 0 {
            out.path@ == "."@
        } else {
            slashed(out.path@, rest)
        },
        None => slashed(out.path@, root.path@),
    }
    &&& out.kind@ == source_root_kind_name(root.kind)
}

impl DiscoveredProject {
    /// The source roots as reported: relative to the project, with their kinds.
    pub fn source_root_output(&self) -> (out: Vec<SourceRootOutput>)
        ensures
            out@.len() == self.source_roots@.len(),
            forall|k: int| 0 <= k < out@.len() ==> source_root_reported(#[trigger] out@[k], self.project_root@,
                self.source_roots@[k]),
    {
        let mut out: Vec<SourceRootOutput> = Vec::new();
        let mut k: usize = 0;
        while k < self.source_roots.len()
            invariant
                0 <= k <= self.source_roots@.len(),
                out@.len() == k,
                forall|j: int| 0 <= j < k ==> source_root_reported(#[trigger] out@[j], self.project_root@,
                    self.source_roots@[j]),
            decreases self.source_roots@.len() - k,
        {
            let root = &self.source_roots[k];
            let path = relative_slash_path(self.project_root.as_str(), root.path.as_str());
            out.push(SourceRootOutput { path, kind: root.kind.as_str().to_owned() });
            k = k + 1;
        }
        out
    }
}

/// `roots` are the source roots chosen: the explicit ones, else those of the configuration,
/// else `src` when it is a directory, else the project itself.
pub open spec fn roots_chosen(
    roots: Seq<SourceRoot>,
    project_root: Seq<char>,
    explicit: Seq<String>,
    configured: Seq<String>,
    src: Seq<char>,
    src_is_dir: bool,
) -> bool {
    if explicit.len() > 0 {
        roots.len() == explicit.len() && forall|k: int| 0 <= k < roots.len() ==> (#[trigger] roots[k]).path@ == explicit[k]@
            && roots[k].kind == SourceRootKind::Explicit
    } else if configured.len() > 0 {
        roots.len() == configured.len() && forall|k: int| 0 <= k < roots.len() ==> (#[trigger] roots[k]).path@ == configured[k]@
            && roots[k].kind == SourceRootKind::ToolCull
    } else if src_is_dir {
        roots.len() == 1 && roots[0].path@ == src && roots[0].kind == SourceRootKind::ConventionalSrc
    } else {
        roots.len() == 1 && roots[0].path@ == project_root && roots[0].kind == SourceRootKind::FlatProject
    }
}

fn roots_of_kind(paths: &Vec<String>, kind: SourceRootKind) -> (roots: Vec<SourceRoot>)
    ensures
        roots@.len() == paths@.len(),
        forall|k: int| 0 <= k < roots@.len() ==> (#[trigger] roots@[k]).path@ == paths@[k]@ && roots@[k].kind == kind,
{
    let mut roots: Vec<SourceRoot> = Vec::new();
    let mut k: usize = 0;
    while k < paths.len()
        invariant
            0 <= k <= paths@.len(),
            roots@.len() == k,
            forall|j: int| 0 <= j < k ==> (#[trigger] roots@[j]).path@ == paths@[j]@ && roots@[j].kind == kind,
        decreases paths@.len() - k,
    {
        roots.push(SourceRoot { path: paths[k].clone(), kind });
        k = k + 1;
    }
    roots
}

/// The source roots of a project. The explicit and configured roots are given already made
/// absolute; `src` is the project's `src` directory and `src_is_dir` whether it is one.
pub fn choose_source_roots(
    project_root: &str,
    explicit: &Vec<String>,
    configured: &Vec<String>,
    src: &str,
    src_is_dir: bool,
) -> (roots: Vec<SourceRoot>)
    ensures
        roots_chosen(roots@, project_root@, explicit@, configured@, src@, src_is_dir),
{
    if explicit.len() > 0 {
        return roots_of_kind(explicit, SourceRootKind::Explicit);
    }
    if configured.len() > 0 {
        return roots_of_kind(configured, SourceRootKind::ToolCull);
    }
    if src_is_dir {
        return vec![SourceRoot { path: src.to_owned(), kind: SourceRootKind::ConventionalSrc }];
    }
    vec![SourceRoot { path: project_root.to_owned(), kind: SourceRootKind::FlatProject }]
}

// ----- module names -----

pub open spec fn ends_with_spec(s: Seq<char>, suffix: Seq<char>) -> bool {
    s.len() >= suffix.len() && s.subrange(s.len() - suffix.len(), s.len() as int) == suffix
}

/// The pieces joined with `sep` between them.
pub open spec fn join_spec(parts: Seq<Seq<char>>, sep: char) -> Seq<char>
    decreases parts.len(),
{
    if parts.len() == 0 {
        Seq::empty()
    } else if parts.len() == 1 {
        parts[0]
    } else {
        join_spec(parts.drop_last(), sep).push(sep) + parts.last()
    }
}

/// The dotted module name of a file with the given path components relative to its source
/// root: a `.py` file names a module, and `__init__.py` names its package.
pub open spec fn module_name_from_parts_spec(parts: Seq<Seq<char>>) -> Option<Seq<char>> {
    if parts.len() == 0 || !ends_with_spec(parts.last(), ".py"@) {
        None
    } else {
        let stem = parts.last().subrange(0, parts.last().len() - 3);
        let named = if stem == "__init__"@ { parts.drop_last() } else { parts.update(parts.len() - 1, stem) };
        if named.len() == 0 {
            None
        } else {
            Some(join_spec(named, '.'))
        }
    }
}

fn ends_with_py(s: &[char]) -> (yes: bool)
    ensures
        yes == ends_with_spec(s@, ".py"@),
{
    proof {
        reveal_strlit(".py");
    }
    let n = s.len();
    if n < 3 {
        return false;
    }
    let yes = s[n - 3] == '.' && s[n - 2] == 'p' && s[n - 1] == 'y';
    proof {
        if yes {
            assert(s@.subrange(n - 3, n as int) =~= ".py"@);
        } else {
            if s@.subrange(n - 3, n as int) == ".py"@ {
                assert(s@.subrange(n - 3, n as int)[0] == '.');
                assert(s@.subrange(n - 3, n as int)[1] == 'p');
                assert(s@.subrange(n - 3, n as int)[2] == 'y');
            }
        }
    }
    yes
}

/// The pieces joined with `sep` between them.
pub fn join_chars(parts: &Vec<Vec<char>>, sep: char) -> (s: String)
    ensures
        s@ == join_spec(parts@.map_values(|p: Vec<char>| p@), sep),
{
    let ghost views = parts@.map_values(|p: Vec<char>| p@);
    let mut s = String::new();
    let mut k: usize = 0;
    while k < parts.len()
        invariant
            0 <= k <= parts@.len(),
            views == parts@.map_values(|p: Vec<char>| p@),
            s@ == join_spec(views.take(k as int), sep),
        decreases parts@.len() - k,
    {
        proof {
            assert(views.take(k + 1).drop_last() =~= views.take(k as int));
            assert(views.take(k + 1).last() == parts@[k as int]@);
        }
        if k > 0 {
            push_char(&mut s, sep);
        }
        let piece = string_from_chars(parts[k].as_slice());
        s.append(piece.as_str());
        proof {
            if k == 0 {
                assert(views.take(1) =~= seq![views[0]]);
                assert(s@ =~= views[0]);
            }
        }
        k = k + 1;
    }
    assert(views.take(parts@.len() as int) =~= views);
    s
}

/// The dotted module name of a file from its path components under its source root.
pub fn module_name_from_parts(parts: &Vec<String>) -> (name: Option<String>)
    ensures
        match name {
            Some(n) => module_name_from_parts_spec(parts@.map_values(|p: String| p@)) == Some(n@),
            None => module_name_from_parts_spec(parts@.map_values(|p: String| p@)) is None,
        },
{
    let ghost views = parts@.map_values(|p: String| p@);
    if parts.len() == 0 {
        return None;
    }
    let mut pieces: Vec<Vec<char>> = Vec::new();
    let mut k: usize = 0;
    while k < parts.len()
        invariant
            0 <= k <= parts@.len(),
            views == parts@.map_values(|p: String| p@),
            pieces@.len() == k,
            forall|j: int| 0 <= j < k ==> (#[trigger] pieces@[j])@ == views[j],
        decreases parts@.len() - k,
    {
        pieces.push(str_chars(parts[k].as_str()));
        k = k + 1;
    }
    let last = pieces.pop().unwrap();
    assert(last@ == views.last());
    proof {
        reveal_strlit(".py");
    }
    if !ends_with_py(last.as_slice()) {
        return None;
    }
    let mut stem: Vec<char> = Vec::new();
    let mut i: usize = 0;
    while i < last.len() - 3
        invariant
            last@.len() >= 3,
            0 <= i <= last@.len() - 3,
            stem@ == last@.subrange(0, i as int),
        decreases last@.len() - 3 - i,
    {
        stem.push(last[i]);
        assert(last@.subrange(0, i + 1) =~= last@.subrange(0, i as int).push(last@[i as int]));
        i = i + 1;
    }
    let init: Vec<char> = vec!['_', '_', 'i', 'n', 'i', 't', '_', '_'];
    proof {
        reveal_strlit("__init__");
        assert(init@ =~= "__init__"@);
    }
    let is_package = crate::text::chars_eq(stem.as_slice(), init.as_slice());
    let ghost named = if stem@ == "__init__"@ { views.drop_last() } else { views.update(views.len() - 1, stem@) };
    if !is_package {
        pieces.push(stem);
    }
    proof {
        assert(pieces@.map_values(|p: Vec<char>| p@) =~= named);
    }
    if pieces.len() == 0 {
        return None;
    }
    Some(join_chars(&pieces, '.'))
}

/// The dotted module name of the file `path` under the source root `source_root`.
pub open spec fn module_name_for_path_spec(source_root: Seq<char>, path: Seq<char>) -> Option<Seq<char>> {
    match stripped_path(path, source_root) {
        Some(relative) => module_name_from_parts_spec(path_component_strings(relative)),
        None => None,
    }
}

/// The dotted module name of the file `path` under the source root `source_root`, such as
/// `acme.cache` for `src/acme/cache.py` under `src`.
pub fn module_name_for_path(source_root: &str, path: &str) -> (name: Option<String>)
    ensures
        match name {
            Some(n) => module_name_for_path_spec(source_root@, path@) == Some(n@),
            None => module_name_for_path_spec(source_root@, path@) is None,
        },
{
    let relative = match crate::paths::strip_path_prefix(path, source_root) {
        Some(relative) => relative,
        None => {
            return None;
        },
    };
    let parts = crate::paths::path_components(relative.as_str());
    proof {
        assert(parts@.map_values(|p: String| p@) =~= path_component_strings(relative@));
    }
    module_name_from_parts(&parts)
}

// ----- origin of a module -----

/// `s` without its leading `/` characters.
pub open spec fn trim_start_slashes(s: Seq<char>) -> Seq<char>
    decreases s.len(),
{
    if s.len() > 0 && s[0] == '/' {
        trim_start_slashes(s.drop_first())
    } else {
        s
    }
}

/// `s` without its trailing `/` characters.
pub open spec fn trim_end_slashes(s: Seq<char>) -> Seq<char>
    decreases s.len(),
{
    if s.len() > 0 && s.last() == '/' {
        trim_end_slashes(s.drop_last())
    } else {
        s
    }
}

/// `s` without leading and trailing `/` characters.
pub open spec fn trim_slashes(s: Seq<char>) -> Seq<char> {
    trim_end_slashes(trim_start_slashes(s))
}

/// `s` without leading and trailing `/` characters.
pub fn trim_slashes_exec(s: &str) -> (t: Vec<char>)
    ensures
        t@ == trim_slashes(s@),
{
    let c = str_chars(s);
    let n = c.len();
    let mut a: usize = 0;
    proof {
        assert(c@.subrange(0, n as int) =~= c@);
    }
    while a < n && c[a] == '/'
        invariant
            n == c@.len(),
            0 <= a <= n,
            trim_start_slashes(c@) == trim_start_slashes(c@.subrange(a as int, n as int)),
        decreases n - a,
    {
        proof {
            let sub = c@.subrange(a as int, n as int);
            assert(sub[0] == '/');
            assert(sub.drop_first() =~= c@.subrange(a + 1, n as int));
        }
        a = a + 1;
    }
    let ghost u = c@.subrange(a as int, n as int);
    proof {
        assert(trim_start_slashes(u) == u);
        assert(u.subrange(0, u.len() as int) =~= u);
    }
    let mut b: usize = n;
    while b > a && c[b - 1] == '/'
        invariant
            n == c@.len(),
            0 <= a <= b <= n,
            u == c@.subrange(a as int, n as int),
            trim_end_slashes(u) == trim_end_slashes(c@.subrange(a as int, b as int)),
        decreases b - a,
    {
        proof {
            let sub = c@.subrange(a as int, b as int);
            assert(sub.last() == '/');
            assert(sub.drop_last() =~= c@.subrange(a as int, b - 1));
        }
        b = b - 1;
    }
    slice_chars(c.as_slice(), a, b)
}

/// The configured test path `path` covers the file `display` (a `/`-separated project path):
/// the path, trimmed of slashes, is not empty and is the file or one of its directories.
pub open spec fn test_path_covers(display: Seq<char>, path: Seq<char>) -> bool {
    let normalized = trim_slashes(path);
    normalized.len() > 0 && (display == normalized || (normalized + seq!['/']).is_prefix_of(display))
}

/// The origin of a module from its display path: a configured test path, a `tests`
/// directory, a pytest file name (`test_*`, `*_test.py`), or production by default.
pub open spec fn origin_of(display: Seq<char>, config: ProjectConfig) -> (OriginDomain, OriginEvidence) {
    let file = match path_file_name(display) {
        Some(name) => name,
        None => display,
    };
    if exists|k: int| 0 <= k < config.test_paths@.len() && test_path_covers(display, #[trigger] config.test_paths@[k]@) {
        (OriginDomain::Test, match config.test_path_origin_evidence {
            Some(e) => e,
            None => OriginEvidence::CullConfiguration,
        })
    } else if contains_seq(display, "/tests/"@) || "tests/"@.is_prefix_of(display) {
        (OriginDomain::Test, OriginEvidence::TestsDirectory)
    } else if "test_"@.is_prefix_of(file) || ("_test.py"@.len() <= file.len() && file.subrange(
        file.len() - "_test.py"@.len(),
        file.len() as int,
    ) == "_test.py"@) {
        (OriginDomain::Test, OriginEvidence::PytestFilenamePattern)
    } else {
        (OriginDomain::Production, OriginEvidence::DefaultProduction)
    }
}

/// Whether `display` lies under the configured test path `path`.
fn covered_by_test_path(display: &str, path: &str) -> (yes: bool)
    ensures
        yes == test_path_covers(display@, path@),
{
    let normalized = trim_slashes_exec(path);
    if normalized.len() == 0 {
        return false;
    }
    let d = str_chars(display);
    if crate::text::chars_eq(d.as_slice(), normalized.as_slice()) {
        return true;
    }
    let mut with_slash = normalized.clone();
    with_slash.push('/');
    proof {
        assert(with_slash@ =~= normalized@ + seq!['/']);
    }
    crate::text::starts_with_chars(d.as_slice(), with_slash.as_slice())
}

/// The origin domain of a module and the evidence for it.
pub fn classify_origin(display_path: &str, config: &ProjectConfig) -> (out: (OriginDomain, OriginEvidence))
    ensures
        out == origin_of(display_path@, *config),
{
    let mut k: usize = 0;
    while k < config.test_paths.len()
        invariant
            0 <= k <= config.test_paths@.len(),
            forall|j: int| 0 <= j < k ==> !test_path_covers(display_path@, #[trigger] config.test_paths@[j]@),
        decreases config.test_paths@.len() - k,
    {
        if covered_by_test_path(display_path, config.test_paths[k].as_str()) {
            let evidence = match config.test_path_origin_evidence {
                Some(e) => e,
                None => OriginEvidence::CullConfiguration,
            };
            return (OriginDomain::Test, evidence);
        }
        k = k + 1;
    }
    if str_contains(display_path, "/tests/") || str_starts_with(display_path, "tests/") {
        return (OriginDomain::Test, OriginEvidence::TestsDirectory);
    }
    let name = match crate::paths::file_name(display_path) {
        Some(name) => name,
        None => <String as StringExecFns>::from_str(display_path),
    };
    if str_starts_with(name.as_str(), "test_") || str_ends_with(name.as_str(), "_test.py") {
        return (OriginDomain::Test, OriginEvidence::PytestFilenamePattern);
    }
    (OriginDomain::Production, OriginEvidence::DefaultProduction)
}

// ----- module name collisions -----

/// The display paths of the modules named `name`, in list order.
pub open spec fn paths_named(ms: Seq<DiscoveredModule>, name: Seq<char>) -> Seq<Seq<char>>
    decreases ms.len(),
{
    if ms.len() == 0 {
        Seq::empty()
    } else {
        let p = paths_named(ms.drop_last(), name);
        if ms.last().name@ == name {
            p.push(ms.last().display_path@)
        } else {
            p
        }
    }
}

/// The pieces with `sep` between them.
pub open spec fn join_with(parts: Seq<Seq<char>>, sep: Seq<char>) -> Seq<char>
    decreases parts.len(),
{
    if parts.len() == 0 {
        Seq::empty()
    } else if parts.len() == 1 {
        parts[0]
    } else {
        join_with(parts.drop_last(), sep) + sep + parts.last()
    }
}

/// Several files map to the module `name`.
pub open spec fn collides(ms: Seq<DiscoveredModule>, name: Seq<char>) -> bool {
    paths_named(ms, name).len() > 1
}

/// The message of a module-name collision.
pub open spec fn collision_message(name: Seq<char>, paths: Seq<Seq<char>>) -> Seq<char> {
    "multiple source files map to module `"@ + name + "`: "@ + join_with(paths, ", "@)
}

/// `d` is the warning that the files `paths` all map to module `name`.
pub open spec fn collision_warning(d: Diagnostic, name: Seq<char>, paths: Seq<Seq<char>>) -> bool {
    &&& d.code@ == "CULL_P0005"@
    &&& d.severity == DiagnosticSeverity::Warning
    &&& d.message@ == collision_message(name, paths)
    &&& d.path is None
    &&& d.range is None
}

proof fn lemma_paths_named_witness(ms: Seq<DiscoveredModule>, name: Seq<char>)
    requires
        paths_named(ms, name).len() > 0,
    ensures
        exists|j: int| 0 <= j < ms.len() && (#[trigger] ms[j]).name@ == name,
    decreases ms.len(),
{
    if ms.last().name@ == name {
        assert(ms[ms.len() - 1].name@ == name);
    } else {
        lemma_paths_named_witness(ms.drop_last(), name);
        let j = choose|j: int| 0 <= j < ms.drop_last().len() && (#[trigger] ms.drop_last()[j]).name@ == name;
        assert(ms[j].name@ == name);
    }
}

/// The display paths of the modules named `name`.
fn paths_of_module(modules: &Vec<DiscoveredModule>, name: &str) -> (paths: Vec<String>)
    ensures
        string_views(paths@) == paths_named(modules@, name@),
{
    let mut paths: Vec<String> = Vec::new();
    let mut i: usize = 0;
    while i < modules.len()
        invariant
            0 <= i <= modules@.len(),
            string_views(paths@) == paths_named(modules@.take(i as int), name@),
        decreases modules@.len() - i,
    {
        proof {
            assert(modules@.take(i + 1).drop_last() =~= modules@.take(i as int));
            assert(modules@.take(i + 1).last() == modules@[i as int]);
        }
        if str_eq(modules[i].name.as_str(), name) {
            let ghost before = paths@;
            paths.push(modules[i].display_path.clone());
            proof {
                assert(string_views(paths@) =~= string_views(before).push(modules@[i as int].display_path@));
            }
        }
        i = i + 1;
    }
    proof {
        assert(modules@.take(modules@.len() as int) =~= modules@);
    }
    paths
}

/// The pieces joined with `sep` between them.
fn join_strings(parts: &Vec<String>, sep: &str) -> (s: String)
    ensures
        s@ == join_with(string_views(parts@), sep@),
{
    let ghost views = string_views(parts@);
    let mut s = String::new();
    let mut k: usize = 0;
    while k < parts.len()
        invariant
            0 <= k <= parts@.len(),
            views == string_views(parts@),
            s@ == join_with(views.take(k as int), sep@),
        decreases parts@.len() - k,
    {
        proof {
            assert(views.take(k + 1).drop_last() =~= views.take(k as int));
            assert(views.take(k + 1).last() == views[k as int]);
        }
        if k > 0 {
            s.append(sep);
        }
        s.append(parts[k].as_str());
        proof {
            if k == 0 {
                assert(views.take(1).len() == 1);
                assert(s@ =~= views.take(1)[0]);
            }
        }
        k = k + 1;
    }
    proof {
        assert(views.take(views.len() as int) =~= views);
    }
    s
}

/// Warns, in module-name order, about each module name that several files map to.
pub fn detect_module_collisions(modules: &Vec<DiscoveredModule>, diagnostics: &mut Vec<Diagnostic>)
    ensures
        final(diagnostics)@.len() >= old(diagnostics)@.len(),
        final(diagnostics)@.take(old(diagnostics)@.len() as int) == old(diagnostics)@,
        exists|names: Seq<Seq<char>>|
            {
                &&& strictly_sorted_strings(names)
                &&& forall|x: Seq<char>| #[trigger] names.contains(x) <==> collides(modules@, x)
                &&& final(diagnostics)@.len() == old(diagnostics)@.len() + names.len()
                &&& forall|k: int|
                    0 <= k < names.len() ==> collision_warning(
                        #[trigger] final(diagnostics)@[old(diagnostics)@.len() + k],
                        names[k],
                        paths_named(modules@, names[k]),
                    )
            },
{
    let ghost ms = modules@;
    let mut names: Vec<String> = Vec::new();
    let mut i: usize = 0;
    while i < modules.len()
        invariant
            ms == modules@,
            0 <= i <= ms.len(),
            strictly_sorted_strings(string_views(names@)),
            forall|x: Seq<char>|
                #[trigger] string_views(names@).contains(x) <==> (collides(ms, x) && exists|j: int|
                    0 <= j < i && (#[trigger] ms[j]).name@ == x),
        decreases ms.len() - i,
    {
        let paths = paths_of_module(modules, modules[i].name.as_str());
        if paths.len() > 1 {
            let ghost before = string_views(names@);
            insert_sorted_unique(&mut names, modules[i].name.clone());
            proof {
                assert forall|x: Seq<char>|
                    #[trigger] string_views(names@).contains(x) <==> (collides(ms, x) && exists|j: int|
                        0 <= j < i + 1 && (#[trigger] ms[j]).name@ == x) by {
                    if x == ms[i as int].name@ {
                        assert(ms[i as int].name@ == x);
                    }
                    if collides(ms, x) && exists|j: int| 0 <= j < i + 1 && (#[trigger] ms[j]).name@ == x {
                        let j = choose|j: int| 0 <= j < i + 1 && (#[trigger] ms[j]).name@ == x;
                        if j < i {
                            assert(before.contains(x));
                        }
                    }
                }
            }
        } else {
            proof {
                assert forall|x: Seq<char>|
                    #[trigger] string_views(names@).contains(x) <==> (collides(ms, x) && exists|j: int|
                        0 <= j < i + 1 && (#[trigger] ms[j]).name@ == x) by {
                    if collides(ms, x) && exists|j: int| 0 <= j < i + 1 && (#[trigger] ms[j]).name@ == x {
                        let j = choose|j: int| 0 <= j < i + 1 && (#[trigger] ms[j]).name@ == x;
                        if j == i {
                            assert(x == ms[i as int].name@);
                        }
                    }
                }
            }
        }
        i = i + 1;
    }
    proof {
        assert forall|x: Seq<char>| #[trigger] string_views(names@).contains(x) <==> collides(ms, x) by {
            if collides(ms, x) {
                lemma_paths_named_witness(ms, x);
            }
        }
    }
    let ghost start = diagnostics@.len();
    let ghost old_diagnostics = diagnostics@;
    let ghost nv = string_views(names@);
    let mut k: usize = 0;
    while k < names.len()
        invariant
            ms == modules@,
            nv == string_views(names@),
            0 <= k <= names@.len(),
            diagnostics@.len() == start + k,
            diagnostics@.take(start as int) == old_diagnostics,
            forall|t: int|
                0 <= t < k ==> collision_warning(#[trigger] diagnostics@[start + t], nv[t], paths_named(ms, nv[t])),
        decreases names@.len() - k,
    {
        let paths = paths_of_module(modules, names[k].as_str());
        let mut message = <String as StringExecFns>::from_str("multiple source files map to module `");
        message.append(names[k].as_str());
        message.append("`: ");
        let joined = join_strings(&paths, ", ");
        message.append(joined.as_str());
        let d = Diagnostic::warning("CULL_P0005", message.as_str());
        let ghost before = diagnostics@;
        diagnostics.push(d);
        proof {
            assert(message@ =~= collision_message(nv[k as int], paths_named(ms, nv[k as int])));
            assert(diagnostics@.take(start as int) =~= before.take(start as int));
            assert forall|t: int|
                0 <= t < k + 1 implies collision_warning(#[trigger] diagnostics@[start + t], nv[t], paths_named(ms, nv[t])) by {
                if t < k {
                    assert(diagnostics@[start + t] == before[start + t]);
                }
            }
        }
        k = k + 1;
    }
    proof {
        assert(forall|x: Seq<char>| #[trigger] nv.contains(x) <==> collides(ms, x));
    }
}

// ----- which directory entries are walked -----

/// Directories that are never walked.
pub open spec fn default_excluded_dir(name: Seq<char>) -> bool {
    name == ".git"@ || name == ".hg"@ || name == ".mypy_cache"@ || name == ".pytest_cache"@
        || name == ".ruff_cache"@ || name == ".svn"@ || name == ".tox"@ || name == ".venv"@
        || name == "__pycache__"@ || name == "build"@ || name == "dist"@ || name == "env"@
        || name == "site-packages"@ || name == "venv"@
}

/// Whether `name` is one of the directories that are never walked.
pub fn is_default_excluded_dir(name: &str) -> (yes: bool)
    ensures
        yes == default_excluded_dir(name@),
{
    str_eq(name, ".git") || str_eq(name, ".hg") || str_eq(name, ".mypy_cache") || str_eq(
        name,
        ".pytest_cache",
    ) || str_eq(name, ".ruff_cache") || str_eq(name, ".svn") || str_eq(name, ".tox") || str_eq(
        name,
        ".venv",
    ) || str_eq(name, "__pycache__") || str_eq(name, "build") || str_eq(name, "dist") || str_eq(
        name,
        "env",
    ) || str_eq(name, "site-packages") || str_eq(name, "venv")
}

/// The directory names that discovery never walks: version-control and tool caches,
/// build outputs and virtual environments.
pub open spec fn default_excluded_names() -> Seq<Seq<char>> {
    seq![
        ".git"@, ".hg"@, ".mypy_cache"@, ".pytest_cache"@, ".ruff_cache"@, ".svn"@, ".tox"@,
        ".venv"@, "__pycache__"@, "build"@, "dist"@, "env"@, "site-packages"@, "venv"@,
    ]
}

/// A name is a default-excluded directory exactly when it is one of the listed names, and
/// a directory with such a name is never walked, whatever the exclude patterns say.
pub proof fn lemma_default_excluded_names(
    name: Seq<char>,
    project_root: Seq<char>,
    path: Seq<char>,
    excludes: Seq<String>,
)
    ensures
        default_excluded_dir(name) <==> default_excluded_names().contains(name),
        default_excluded_names().contains(name) ==> !visits_entry(project_root, path, name, true, excludes),
{
    let names = default_excluded_names();
    if default_excluded_dir(name) {
        if name == ".git"@ { assert(names[0] == name); }
        else if name == ".hg"@ { assert(names[1] == name); }
        else if name == ".mypy_cache"@ { assert(names[2] == name); }
        else if name == ".pytest_cache"@ { assert(names[3] == name); }
        else if name == ".ruff_cache"@ { assert(names[4] == name); }
        else if name == ".svn"@ { assert(names[5] == name); }
        else if name == ".tox"@ { assert(names[6] == name); }
        else if name == ".venv"@ { assert(names[7] == name); }
        else if name == "__pycache__"@ { assert(names[8] == name); }
        else if name == "build"@ { assert(names[9] == name); }
        else if name == "dist"@ { assert(names[10] == name); }
        else if name == "env"@ { assert(names[11] == name); }
        else if name == "site-packages"@ { assert(names[12] == name); }
        else { assert(names[13] == name); }
    }
    if names.contains(name) {
        let k = choose|k: int| 0 <= k < names.len() && names[k] == name;
        assert(0 <= k < 14);
        assert(default_excluded_dir(names[k]));
    }
}

/// Whether `globset::Glob::new` accepts the pattern.
pub uninterp spec fn glob_accepts(pattern: Seq<char>) -> bool;

/// Whether the compiled glob `pattern` matches `path`.
pub uninterp spec fn glob_matches(pattern: Seq<char>, path: Seq<char>) -> bool;

/// The patterns added to a `globset::GlobSetBuilder`, in the order they were added.
pub uninterp spec fn builder_patterns(builder: globset::GlobSetBuilder) -> Seq<Seq<char>>;

/// The patterns a `globset::GlobSet` was built from.
pub uninterp spec fn set_patterns(set: globset::GlobSet) -> Seq<Seq<char>>;

/// Whether `globset::GlobSetBuilder::build` succeeds on builders holding these patterns.
pub uninterp spec fn glob_set_builds(patterns: Seq<Seq<char>>) -> bool;

#[verifier::external_type_specification]
#[verifier::external_body]
pub struct ExGlobSetBuilder(globset::GlobSetBuilder);

#[verifier::external_type_specification]
#[verifier::external_body]
pub struct ExGlobSet(globset::GlobSet);

/// `globset::GlobSetBuilder::new`: a builder that holds no pattern.
#[verifier::external_body]
fn glob_set_builder() -> (builder: globset::GlobSetBuilder)
    ensures
        builder_patterns(builder) == Seq::<Seq<char>>::empty(),
{
    globset::GlobSetBuilder::new()
}

/// Parses `pattern` with `globset::Glob::new` and, when it parses, adds the glob to the builder
/// with `GlobSetBuilder::add`, which appends it to the builder's patterns. A pattern that does
/// not parse leaves the builder as it was.
#[verifier::external_body]
fn add_glob(builder: &mut globset::GlobSetBuilder, pattern: &str) -> (added: bool)
    ensures
        added == glob_accepts(pattern@),
        builder_patterns(*final(builder)) == (if added {
            builder_patterns(*old(builder)).push(pattern@)
        } else {
            builder_patterns(*old(builder))
        }),
{
    match globset::Glob::new(pattern) {
        Ok(glob) => {
            builder.add(glob);
            true
        },
        Err(_) => false,
    }
}

/// Total length, in characters, of a list of patterns.
pub open spec fn total_len(patterns: Seq<Seq<char>>) -> nat
    decreases patterns.len(),
{
    if patterns.len() == 0 {
        0
    } else {
        total_len(patterns.drop_last()) + patterns.last().len()
    }
}

/// `globset::GlobSetBuilder::build`. Whether the build succeeds (its regexes stay within the
/// crate's size limits) is named, not stated; a built set holds the builder's patterns. The
/// build unwraps the construction of its literal matchers, which fails only past about two
/// billion automaton states, so the patterns are bounded here well below that.
#[verifier::external_body]
fn build_glob_set(builder: &globset::GlobSetBuilder) -> (set: Option<globset::GlobSet>)
    requires
        total_len(builder_patterns(*builder)) <= 0x1000_0000,
    ensures
        set is Some <==> glob_set_builds(builder_patterns(*builder)),
        set matches Some(s) ==> set_patterns(s) == builder_patterns(*builder),
{
    builder.build().ok()
}

/// Some pattern of the list matches `path`.
pub open spec fn any_glob_matches(patterns: Seq<Seq<char>>, path: Seq<char>) -> bool {
    exists|k: int| 0 <= k < patterns.len() && glob_matches(#[trigger] patterns[k], path)
}

/// `globset::GlobSet::is_match`: true if any glob in the set matches the path.
#[verifier::external_body]
fn glob_set_is_match(set: &globset::GlobSet, path: &str) -> (m: bool)
    ensures
        m == (exists|k: int|
            0 <= k < set_patterns(*set).len() && glob_matches(#[trigger] set_patterns(*set)[k], path@)),
{
    set.is_match(path)
}

/// The exclude patterns that `Glob::new` accepts, in order.
pub open spec fn accepted_patterns(excludes: Seq<String>) -> Seq<Seq<char>>
    decreases excludes.len(),
{
    if excludes.len() == 0 {
        Seq::empty()
    } else {
        let rest = accepted_patterns(excludes.drop_last());
        if glob_accepts(excludes.last()@) {
            rest.push(excludes.last()@)
        } else {
            rest
        }
    }
}

/// Total length, in characters, of the exclude patterns.
pub open spec fn excludes_size(excludes: Seq<String>) -> nat
    decreases excludes.len(),
{
    if excludes.len() == 0 {
        0
    } else {
        excludes_size(excludes.drop_last()) + excludes.last()@.len()
    }
}

/// The accepted exclude patterns build into one glob set, and one of them matches `path`.
/// When the set does not build, nothing is excluded.
pub open spec fn excluded_by(excludes: Seq<String>, path: Seq<char>) -> bool {
    glob_set_builds(accepted_patterns(excludes)) && any_glob_matches(accepted_patterns(excludes), path)
}

/// Whether the glob set built from the exclude patterns matches `path`; patterns that do not
/// parse are left out of the set, and a set that does not build excludes nothing.
pub fn is_excluded(excludes: &Vec<String>, path: &str) -> (yes: bool)
    requires
        excludes_size(excludes@) <= 0x1000_0000,
    ensures
        yes == excluded_by(excludes@, path@),
{
    let mut builder = glob_set_builder();
    let mut k: usize = 0;
    while k < excludes.len()
        invariant
            0 <= k <= excludes@.len(),
            builder_patterns(builder) == accepted_patterns(excludes@.take(k as int)),
            total_len(builder_patterns(builder)) <= excludes_size(excludes@.take(k as int)),
        decreases excludes@.len() - k,
    {
        let ghost before = builder_patterns(builder);
        proof {
            assert(excludes@.take(k + 1).drop_last() =~= excludes@.take(k as int));
        }
        let added = add_glob(&mut builder, excludes[k].as_str());
        proof {
            if added {
                assert(builder_patterns(builder).drop_last() =~= before);
            }
        }
        k = k + 1;
    }
    proof {
        assert(excludes@.take(k as int) =~= excludes@);
    }
    match build_glob_set(&builder) {
        Some(set) => glob_set_is_match(&set, path),
        None => false,
    }
}

/// An entry is walked unless it is a default-excluded directory or its path relative to the
/// project root matches an exclude pattern.
pub open spec fn visits_entry(
    project_root: Seq<char>,
    path: Seq<char>,
    file_name: Seq<char>,
    is_dir: bool,
    excludes: Seq<String>,
) -> bool {
    !(is_dir && default_excluded_dir(file_name)) && !(match stripped_path(path, project_root) {
        Some(relative) => excluded_by(excludes, relative),
        None => false,
    })
}

/// Whether the walk enters the entry at `path`, named `file_name`.
pub fn should_visit_entry(
    project_root: &str,
    path: &str,
    file_name: &str,
    is_dir: bool,
    excludes: &Vec<String>,
) -> (yes: bool)
    requires
        excludes_size(excludes@) <= 0x1000_0000,
    ensures
        yes == visits_entry(project_root@, path@, file_name@, is_dir, excludes@),
{
    if is_dir && is_default_excluded_dir(file_name) {
        return false;
    }
    match crate::paths::strip_path_prefix(path, project_root) {
        Some(relative) => !is_excluded(excludes, relative.as_str()),
        None => true,
    }
}

// ----- walked files -----

/// What one walked entry contributes to discovery.
pub enum WalkedEntry {
    /// Not a regular Python file.
    Skipped,
    /// A module named after its path under the source root.
    Module(DiscoveredModule),
    /// A Python file whose module name could not be derived.
    Unnamed(Diagnostic),
}

/// The walked entry at `path` under `source_root`: regular files (not symbolic links) with
/// the extension `py` become modules, reported relative to `project_root`, or, when no module
/// name can be derived, a `CULL_P0004` error.
pub fn module_for_entry(
    project_root: &str,
    source_root: &str,
    path: &str,
    is_file: bool,
    is_symlink: bool,
) -> (out: WalkedEntry)
    ensures
        (!is_file || is_symlink || path_extension(path@) != Some("py"@)) <==> out is Skipped,
        out matches WalkedEntry::Module(m) ==> {
            &&& module_name_for_path_spec(source_root@, path@) == Some(m.name@)
            &&& m.id == ModuleId(0)
            &&& m.file == FileId(0)
            &&& m.path@ == path@
            &&& reported_relative(project_root@, path@, m.display_path@)
            &&& m.origin_domain == OriginDomain::Production
            &&& m.origin_evidence == OriginEvidence::DefaultProduction
        },
        out matches WalkedEntry::Unnamed(d) ==> {
            &&& module_name_for_path_spec(source_root@, path@) is None
            &&& d.code@ == "CULL_P0004"@
            &&& d.severity == DiagnosticSeverity::Error
            &&& d.message@ == "could not derive module name from Python file path"@
            &&& d.path matches Some(p) && reported_relative(project_root@, path@, p@)
            &&& d.range is None
        },
        out !is Skipped ==> (module_name_for_path_spec(source_root@, path@) is Some <==> out is Module),
{
    if !is_file || is_symlink {
        return WalkedEntry::Skipped;
    }
    let is_py = match crate::paths::extension(path) {
        Some(ext) => str_eq(ext.as_str(), "py"),
        None => false,
    };
    if !is_py {
        return WalkedEntry::Skipped;
    }
    match module_name_for_path(source_root, path) {
        Some(name) => WalkedEntry::Module(
            DiscoveredModule {
                id: ModuleId::new(0),
                file: FileId::new(0),
                name,
                path: <String as StringExecFns>::from_str(path),
                display_path: relative_slash_path(project_root, path),
                origin_domain: OriginDomain::Production,
                origin_evidence: OriginEvidence::DefaultProduction,
            },
        ),
        None => {
            let d = Diagnostic::error("CULL_P0004", "could not derive module name from Python file path");
            WalkedEntry::Unnamed(d.with_path(relative_slash_path(project_root, path)))
        },
    }
}

/// `shown` is how `path` is reported relative to `root`: `.` for the root itself, the rest
/// with `/` separators, or the whole path with `/` separators when it is not under `root`.
pub open spec fn reported_relative(root: Seq<char>, path: Seq<char>, shown: Seq<char>) -> bool {
    match stripped_path(path, root) {
        Some(rest) => if rest.len() == 0 {
            shown == "."@
        } else {
            slashed(shown, rest)
        },
        None => slashed(shown, path),
    }
}

/// The error reported for a source root that does not exist or is not a directory, if any.
pub fn source_root_problem(project_root: &str, root_path: &str, exists: bool, is_dir: bool) -> (out: Option<Diagnostic>)
    ensures
        out is None <==> (exists && is_dir),
        out matches Some(d) ==> {
            &&& d.code@ == (if !exists { "CULL_P0001"@ } else { "CULL_P0002"@ })
            &&& d.severity == DiagnosticSeverity::Error
            &&& exists|shown: Seq<char>| slashed(shown, root_path@) && d.message@ == (if !exists {
                "source root does not exist: "@
            } else {
                "source root is not a directory: "@
            }) + shown
            &&& d.path matches Some(p) && reported_relative(project_root@, root_path@, p@)
            &&& d.range is None
        },
{
    if exists && is_dir {
        return None;
    }
    let shown = slash_path(root_path);
    let (code, mut message) = if !exists {
        ("CULL_P0001", <String as StringExecFns>::from_str("source root does not exist: "))
    } else {
        ("CULL_P0002", <String as StringExecFns>::from_str("source root is not a directory: "))
    };
    let ghost prefix = message@;
    message.append(shown.as_str());
    let d = Diagnostic::error(code, message.as_str());
    Some(d.with_path(relative_slash_path(project_root, root_path)))
}

// ----- module order and identifiers -----

impl SortKey for DiscoveredModule {
    open spec fn sort_key(&self) -> Seq<int> {
        str_key(self.name@) + str_key(self.display_path@)
    }

    fn key_less(&self, other: &Self) -> (less: bool) {
        proof {
            lemma_str_key_separated(self.name@, other.name@);
            lemma_lex_concat(str_key(self.name@), str_key(self.display_path@), str_key(other.name@), str_key(other.display_path@));
        }
        let by_name = compare_strs(self.name.as_str(), other.name.as_str());
        if by_name != 0 {
            by_name == -1
        } else {
            compare_strs(self.display_path.as_str(), other.display_path.as_str()) == -1
        }
    }
}

/// `m` is module `sorted` at position `i`, numbered `i` and classified by its display path.
pub open spec fn module_placed(m: DiscoveredModule, sorted: DiscoveredModule, i: int, config: ProjectConfig) -> bool {
    let origin = origin_of(sorted.display_path@, config);
    &&& m.id == ModuleId(i as u32)
    &&& m.file == FileId(i as u32)
    &&& m.name == sorted.name
    &&& m.path == sorted.path
    &&& m.display_path == sorted.display_path
    &&& m.origin_domain == origin.0
    &&& m.origin_evidence == origin.1
}

/// Orders the discovered modules by name and display path, warns about module names that
/// several files map to, and numbers and classifies the modules in that order.
pub fn order_modules(
    discovered: Vec<DiscoveredModule>,
    config: &ProjectConfig,
    diagnostics: &mut Vec<Diagnostic>,
) -> (modules: Vec<DiscoveredModule>)
    requires
        discovered@.len() <= u32::MAX + 1,
    ensures
        exists|sorted: Seq<DiscoveredModule>|
            #![trigger sorted_by_key(sorted)]
            {
                &&& sorted.to_multiset() == discovered@.to_multiset()
                &&& sorted_by_key(sorted)
                &&& modules@.len() == sorted.len()
                &&& forall|i: int| 0 <= i < sorted.len() ==> module_placed(#[trigger] modules@[i], sorted[i], i, *config)
                &&& final(diagnostics)@.take(old(diagnostics)@.len() as int) == old(diagnostics)@
                &&& exists|names: Seq<Seq<char>>|
                    {
                        &&& strictly_sorted_strings(names)
                        &&& forall|x: Seq<char>| #[trigger] names.contains(x) <==> collides(sorted, x)
                        &&& final(diagnostics)@.len() == old(diagnostics)@.len() + names.len()
                        &&& forall|k: int|
                            0 <= k < names.len() ==> collision_warning(
                                #[trigger] final(diagnostics)@[old(diagnostics)@.len() + k],
                                names[k],
                                paths_named(sorted, names[k]),
                            )
                    }
            },
{
    let sorted = sort_by_key(discovered);
    detect_module_collisions(&sorted, diagnostics);
    let ghost sorted_view = sorted@;
    let n = sorted.len();
    let mut rest = sorted;
    let mut modules: Vec<DiscoveredModule> = Vec::new();
    let mut i: usize = 0;
    while rest.len() > 0
        invariant
            sorted_view.len() <= u32::MAX + 1,
            n == sorted_view.len(),
            0 <= i <= sorted_view.len(),
            rest@ == sorted_view.skip(i as int),
            modules@.len() == i,
            forall|t: int| 0 <= t < i ==> module_placed(#[trigger] modules@[t], sorted_view[t], t, *config),
        decreases rest@.len(),
    {
        let mut m = rest.remove(0);
        proof {
            assert(m == sorted_view[i as int]);
            assert(rest@ =~= sorted_view.skip(i as int + 1));
        }
        let (origin_domain, origin_evidence) = classify_origin(m.display_path.as_str(), config);
        m.id = ModuleId::new(i as u32);
        m.file = FileId::new(i as u32);
        m.origin_domain = origin_domain;
        m.origin_evidence = origin_evidence;
        modules.push(m);
        i = i + 1;
    }
    modules
}

} // verus!
