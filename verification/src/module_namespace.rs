//! How module names map to files: package and module providers, namespace-package portions,
//! relative imports, and one step of resolving a dotted name through the source roots.
use vstd::prelude::*;

use vstd::string::StringExecFns;

use crate::config::{split_chars, split_spec};
use crate::discovery::{join_chars, join_spec, DiscoveredModule};
use crate::ids::ModuleId;
use crate::ir::DefinitionKind;
use crate::ruff_frontend::TopStatement;
use crate::order::{compare_strs, lemma_lex_concat, lemma_str_key_separated, lex_lt, num_key, str_key, SortKey};
use crate::paths::{path_file_name, slash_path, slashed};
use crate::text::{str_chars, str_eq};

verus! {

/// A source root in path-search order.
#[derive(Clone, Debug, PartialEq, Eq)]
pub struct PathEntryFact {
    pub order: usize,
    pub path: String,
}

/// A file or directory that provides a module name.
#[derive(Clone, Debug, PartialEq, Eq)]
pub struct ModuleProviderFact {
    pub module_name: String,
    pub path: String,
    pub kind: ModuleProviderKind,
    pub status: ModuleProviderStatus,
    pub module: Option<ModuleId>,
}

#[derive(Clone, Copy, Debug, PartialEq, Eq, Structural)]
pub enum ModuleProviderKind {
    ModuleFile,
    RegularPackage,
    NamespacePackagePortion,
}

#[derive(Clone, Copy, Debug, PartialEq, Eq, Structural)]
pub enum ModuleProviderStatus {
    Selected,
    NamespaceContributor,
    Shadowed,
    Excluded,
    DuplicatePhysicalFile,
    Unsupported,
}

/// A namespace package and the directories that contribute to it.
#[derive(Clone, Debug, PartialEq, Eq)]
pub struct NamespacePackageFact {
    pub name: String,
    pub portions: Vec<String>,
}

/// What a dotted name resolves to among the project's modules.
#[derive(Clone, Debug, PartialEq, Eq)]
pub enum LocalModuleResolution {
    Module(ModuleId),
    Namespace(String),
    External,
    Unsupported(String),
}

// ----- packages -----

/// The module's file is a package's `__init__.py`.
pub open spec fn is_package_spec(m: DiscoveredModule) -> bool {
    path_file_name(m.path@) == Some("__init__.py"@)
}

/// Whether the module is a package (its file is `__init__.py`).
pub fn is_package_module(module: &DiscoveredModule) -> (yes: bool)
    ensures
        yes == is_package_spec(*module),
{
    match crate::paths::file_name(module.path.as_str()) {
        Some(name) => str_eq(name.as_str(), "__init__.py"),
        None => false,
    }
}

/// Packages provide their name as regular packages, other files as module files.
pub fn provider_kind(module: &DiscoveredModule) -> (kind: ModuleProviderKind)
    ensures
        kind == (if is_package_spec(*module) {
            ModuleProviderKind::RegularPackage
        } else {
            ModuleProviderKind::ModuleFile
        }),
{
    if is_package_module(module) {
        ModuleProviderKind::RegularPackage
    } else {
        ModuleProviderKind::ModuleFile
    }
}

/// The dotted parts of the package a module's relative imports start from: the module's own
/// name for a package, its parent's otherwise.
pub open spec fn package_context_spec(m: DiscoveredModule) -> Seq<Seq<char>> {
    let parts = split_spec(m.name@, '.');
    if is_package_spec(m) {
        parts
    } else {
        parts.drop_last()
    }
}

fn chars_to_strings(parts: &Vec<Vec<char>>) -> (out: Vec<String>)
    ensures
        out@.len() == parts@.len(),
        forall|k: int| 0 <= k < out@.len() ==> (#[trigger] out@[k])@ == parts@[k]@,
{
    let mut out: Vec<String> = Vec::new();
    let mut k: usize = 0;
    while k < parts.len()
        invariant
            0 <= k <= parts@.len(),
            out@.len() == k,
            forall|j: int| 0 <= j < k ==> (#[trigger] out@[j])@ == parts@[j]@,
        decreases parts@.len() - k,
    {
        out.push(crate::text::string_from_chars(parts[k].as_slice()));
        k = k + 1;
    }
    out
}

proof fn lemma_split_nonempty(s: Seq<char>, sep: char)
    ensures
        split_spec(s, sep).len() >= 1,
    decreases s.len(),
{
    if s.len() > 0 {
        lemma_split_nonempty(s.drop_last(), sep);
    }
}

/// The parts of the package a module's relative imports start from.
pub fn package_context_name(module: &DiscoveredModule) -> (parts: Vec<String>)
    ensures
        parts@.map_values(|p: String| p@) == package_context_spec(*module),
{
    let chars = str_chars(module.name.as_str());
    let split = split_chars(chars.as_slice(), '.');
    let mut parts = chars_to_strings(&split);
    let ghost all = split_spec(module.name@, '.');
    proof {
        assert(parts@.map_values(|p: String| p@) =~= all);
        lemma_split_nonempty(module.name@, '.');
    }
    if !is_package_module(module) {
        if parts.len() > 0 {
            parts.pop();
        }
        proof {
            assert(parts@.map_values(|p: String| p@) =~= all.drop_last());
        }
    }
    parts
}

/// The absolute name of an import of `module` at `level` leading dots from module `current`:
/// `module` itself at level 0; otherwise the package context climbed `level - 1` times, then
/// the dotted parts of `module`; none when the climb leaves the top or nothing is named.
pub open spec fn relative_name_spec(current: DiscoveredModule, level: u32, module: Option<Seq<char>>) -> Option<Seq<char>> {
    if level == 0 {
        module
    } else {
        let parts = package_context_spec(current);
        let climbs = level - 1;
        if climbs > parts.len() {
            None
        } else {
            let kept = parts.take(parts.len() - climbs);
            let all = match module {
                Some(m) => kept + split_spec(m, '.'),
                None => kept,
            };
            if all.len() == 0 {
                None
            } else {
                Some(join_spec(all, '.'))
            }
        }
    }
}

/// The absolute module name of a relative import.
pub fn relative_module_name(current: &DiscoveredModule, level: u32, module: Option<&str>) -> (name: Option<String>)
    ensures
        match name {
            Some(n) => relative_name_spec(*current, level, match module {
                Some(m) => Some(m@),
                None => None,
            }) == Some(n@),
            None => relative_name_spec(*current, level, match module {
                Some(m) => Some(m@),
                None => None,
            }) is None,
        },
{
    if level == 0 {
        return match module {
            Some(m) => Some(<String as StringExecFns>::from_str(m)),
            None => None,
        };
    }
    let context = package_context_name(current);
    let ghost parts = package_context_spec(*current);
    let climbs = level - 1;
    if climbs as usize > context.len() {
        return None;
    }
    let keep = context.len() - climbs as usize;
    let mut pieces: Vec<Vec<char>> = Vec::new();
    let mut k: usize = 0;
    while k < keep
        invariant
            0 <= k <= keep,
            keep <= context@.len(),
            context@.map_values(|p: String| p@) == parts,
            pieces@.len() == k,
            forall|j: int| 0 <= j < k ==> (#[trigger] pieces@[j])@ == parts[j],
        decreases keep - k,
    {
        pieces.push(str_chars(context[k].as_str()));
        k = k + 1;
    }
    let ghost kept = parts.take(keep as int);
    proof {
        assert(pieces@.map_values(|p: Vec<char>| p@) =~= kept);
    }
    match module {
        Some(m) => {
            let chars = str_chars(m);
            let split = split_chars(chars.as_slice(), '.');
            let ghost before = pieces@.map_values(|p: Vec<char>| p@);
            let mut j: usize = 0;
            while j < split.len()
                invariant
                    0 <= j <= split@.len(),
                    split@.len() == split_spec(m@, '.').len(),
                    forall|t: int| 0 <= t < split@.len() ==> (#[trigger] split@[t])@ == split_spec(m@, '.')[t],
                    pieces@.map_values(|p: Vec<char>| p@) == before + split_spec(m@, '.').take(j as int),
                decreases split@.len() - j,
            {
                let ghost p0 = pieces@;
                pieces.push(split[j].clone());
                proof {
                    assert(pieces@.map_values(|p: Vec<char>| p@) =~= p0.map_values(|p: Vec<char>| p@).push(split@[j as int]@));
                    assert(split_spec(m@, '.').take(j + 1) =~= split_spec(m@, '.').take(j as int).push(split_spec(m@, '.')[j as int]));
                }
                j = j + 1;
            }
            proof {
                assert(split_spec(m@, '.').take(split@.len() as int) =~= split_spec(m@, '.'));
            }
        },
        None => {},
    }
    if pieces.len() == 0 {
        return None;
    }
    Some(join_chars(&pieces, '.'))
}

// ----- providers -----

/// The status of a module's provider: a second provider of the same physical file is a
/// duplicate; the provider the name resolves to is selected; any other is shadowed.
pub fn provider_status(seen_path_before: bool, selected: Option<ModuleId>, module: ModuleId) -> (status: ModuleProviderStatus)
    ensures
        status == (if seen_path_before {
            ModuleProviderStatus::DuplicatePhysicalFile
        } else if selected == Some(module) {
            ModuleProviderStatus::Selected
        } else {
            ModuleProviderStatus::Shadowed
        }),
{
    if seen_path_before {
        ModuleProviderStatus::DuplicatePhysicalFile
    } else {
        match selected {
            Some(id) => if id.0 == module.0 {
                ModuleProviderStatus::Selected
            } else {
                ModuleProviderStatus::Shadowed
            },
            None => ModuleProviderStatus::Shadowed,
        }
    }
}

/// Provider kinds in the order of their names.
pub open spec fn kind_rank(kind: ModuleProviderKind) -> int {
    match kind {
        ModuleProviderKind::ModuleFile => 0,
        ModuleProviderKind::NamespacePackagePortion => 1,
        ModuleProviderKind::RegularPackage => 2,
    }
}

fn kind_rank_exec(kind: ModuleProviderKind) -> (r: u8)
    ensures
        r == kind_rank(kind),
{
    match kind {
        ModuleProviderKind::ModuleFile => 0,
        ModuleProviderKind::NamespacePackagePortion => 1,
        ModuleProviderKind::RegularPackage => 2,
    }
}

impl SortKey for ModuleProviderFact {
    /// Providers are listed by module name, then path, then kind name.
    open spec fn sort_key(&self) -> Seq<int> {
        str_key(self.module_name@) + (str_key(self.path@) + num_key(kind_rank(self.kind)))
    }

    fn key_less(&self, other: &Self) -> (less: bool) {
        let ghost tail1 = str_key(self.path@) + num_key(kind_rank(self.kind));
        let ghost tail2 = str_key(other.path@) + num_key(kind_rank(other.kind));
        proof {
            lemma_str_key_separated(self.module_name@, other.module_name@);
            lemma_lex_concat(str_key(self.module_name@), tail1, str_key(other.module_name@), tail2);
            lemma_str_key_separated(self.path@, other.path@);
            lemma_lex_concat(str_key(self.path@), num_key(kind_rank(self.kind)), str_key(other.path@), num_key(kind_rank(other.kind)));
        }
        let by_name = compare_strs(self.module_name.as_str(), other.module_name.as_str());
        if by_name != 0 {
            return by_name == -1;
        }
        let by_path = compare_strs(self.path.as_str(), other.path.as_str());
        if by_path != 0 {
            return by_path == -1;
        }
        let a = kind_rank_exec(self.kind);
        let b = kind_rank_exec(other.kind);
        proof {
            assert(num_key(kind_rank(self.kind)) =~= seq![a as int]);
            assert(num_key(kind_rank(other.kind)) =~= seq![b as int]);
            if a < b {
                assert(lex_lt(seq![a as int], seq![b as int]));
            } else {
                assert(seq![a as int].drop_first() =~= Seq::<int>::empty());
                assert(seq![b as int].drop_first() =~= Seq::<int>::empty());
                assert(!lex_lt(Seq::<int>::empty(), Seq::<int>::empty()));
                assert(!lex_lt(seq![a as int], seq![b as int]));
            }
        }
        a < b
    }
}

// ----- resolving one segment -----

/// What the file system shows for one search entry and the next name segment.
pub struct EntryProbe {
    /// The entry joined with the segment.
    pub package_dir: String,
    /// `package_dir/__init__.py`.
    pub package_init: String,
    pub init_exists: bool,
    /// The included module whose file is `package_init`, if any.
    pub init_module: Option<ModuleId>,
    /// The entry joined with `segment.py`.
    pub module_file: String,
    pub file_exists: bool,
    /// The included module whose file is `module_file`, if any.
    pub file_module: Option<ModuleId>,
    /// `package_dir` is a directory.
    pub dir_exists: bool,
}

/// What one segment of a dotted name resolves to.
#[derive(Clone, Debug, PartialEq, Eq)]
pub enum SegmentResolution {
    Module(ModuleId),
    Package(ModuleId, String),
    Namespace(String, Vec<String>),
    External,
    Unsupported(String),
}

/// The directories among the entries that make a namespace portion.
pub open spec fn portion_dirs(probes: Seq<EntryProbe>) -> Seq<Seq<char>>
    decreases probes.len(),
{
    if probes.len() == 0 {
        Seq::empty()
    } else {
        let prev = portion_dirs(probes.drop_last());
        if probes.last().dir_exists {
            prev.push(probes.last().package_dir@)
        } else {
            prev
        }
    }
}

/// `out` is the resolution of a segment from the probes of the search entries, in order: the
/// first entry with `__init__.py` gives the package (or, outside the included modules, an
/// unsupported provider), the first with the module file gives the module; without either,
/// the directories form a namespace package named `qualified_name`, or the name is external.
pub open spec fn segment_resolved(probes: Seq<EntryProbe>, qualified_name: Seq<char>, out: SegmentResolution) -> bool {
    if exists|k: int| 0 <= k < probes.len() && (probes[k].init_exists || probes[k].file_exists) {
        exists|k: int|
            #![trigger probes[k]]
            0 <= k < probes.len() && (probes[k].init_exists || probes[k].file_exists) && (forall|j: int|
                0 <= j < k ==> !(#[trigger] probes[j]).init_exists && !probes[j].file_exists) && if probes[k].init_exists {
                match probes[k].init_module {
                    Some(id) => out matches SegmentResolution::Package(m, dir) && m == id && dir@ == probes[k].package_dir@,
                    None => out matches SegmentResolution::Unsupported(reason) && exists|shown: Seq<char>|
                        slashed(shown, probes[k].package_init@)
                            && reason@ == "regular package provider is outside included modules: "@ + shown,
                }
            } else {
                match probes[k].file_module {
                    Some(id) => out == SegmentResolution::Module(id),
                    None => out matches SegmentResolution::Unsupported(reason) && exists|shown: Seq<char>|
                        slashed(shown, probes[k].module_file@)
                            && reason@ == "module provider is outside included modules: "@ + shown,
                }
            }
    } else if portion_dirs(probes).len() == 0 {
        out == SegmentResolution::External
    } else {
        out matches SegmentResolution::Namespace(name, dirs) && name@ == qualified_name && dirs@.map_values(
            |d: String| d@,
        ) == portion_dirs(probes)
    }
}

/// Resolves one segment of a dotted name from what the file system shows for each search
/// entry.
pub fn resolve_segment(probes: &Vec<EntryProbe>, qualified_name: &str) -> (out: SegmentResolution)
    ensures
        segment_resolved(probes@, qualified_name@, out),
{
    let mut portions: Vec<String> = Vec::new();
    let mut k: usize = 0;
    while k < probes.len()
        invariant
            0 <= k <= probes@.len(),
            forall|j: int| 0 <= j < k ==> !(#[trigger] probes@[j]).init_exists && !probes@[j].file_exists,
            portions@.map_values(|d: String| d@) == portion_dirs(probes@.take(k as int)),
        decreases probes@.len() - k,
    {
        let probe = &probes[k];
        if probe.init_exists {
            let out = match probe.init_module {
                Some(id) => SegmentResolution::Package(id, probe.package_dir.clone()),
                None => {
                    let mut reason = <String as StringExecFns>::from_str(
                        "regular package provider is outside included modules: ",
                    );
                    let shown = slash_path(probe.package_init.as_str());
                    reason.append(shown.as_str());
                    SegmentResolution::Unsupported(reason)
                },
            };
            proof {
                assert(probes@[k as int] == *probe);
            }
            return out;
        }
        if probe.file_exists {
            let out = match probe.file_module {
                Some(id) => SegmentResolution::Module(id),
                None => {
                    let mut reason = <String as StringExecFns>::from_str(
                        "module provider is outside included modules: ",
                    );
                    let shown = slash_path(probe.module_file.as_str());
                    reason.append(shown.as_str());
                    SegmentResolution::Unsupported(reason)
                },
            };
            proof {
                assert(probes@[k as int] == *probe);
            }
            return out;
        }
        let ghost before = portions@;
        if probe.dir_exists {
            portions.push(probe.package_dir.clone());
        }
        proof {
            assert(probes@.take(k + 1).drop_last() =~= probes@.take(k as int));
            assert(probes@.take(k + 1).last() == probes@[k as int]);
            if probe.dir_exists {
                assert(portions@.map_values(|d: String| d@) =~= before.map_values(|d: String| d@).push(probe.package_dir@));
            }
        }
        k = k + 1;
    }
    proof {
        assert(probes@.take(probes@.len() as int) =~= probes@);
    }
    if portions.len() == 0 {
        return SegmentResolution::External;
    }
    SegmentResolution::Namespace(<String as StringExecFns>::from_str(qualified_name), portions)
}

// ----- resolving a dotted name -----

/// The state of resolving a dotted name one segment at a time: the name resolved so far,
/// the directories the next segment is searched in, and what the name so far resolves to.
pub struct ResolveState {
    pub prefix: String,
    pub entries: Vec<String>,
    pub last: Option<LocalModuleResolution>,
}

/// After a segment: go on with the next one, or stop with the answer.
pub enum ResolveStep {
    Continue(ResolveState),
    Done(LocalModuleResolution),
}

/// The qualified name of the next segment.
pub open spec fn next_prefix_spec(prefix: Seq<char>, segment: Seq<char>) -> Seq<char> {
    if prefix.len() == 0 {
        segment
    } else {
        prefix + seq!['.'] + segment
    }
}

/// The qualified name of the next segment: `segment` after `prefix` and a dot.
pub fn next_prefix(prefix: &str, segment: &str) -> (name: String)
    ensures
        name@ == next_prefix_spec(prefix@, segment@),
{
    if prefix.is_empty() {
        return <String as StringExecFns>::from_str(segment);
    }
    let mut name = <String as StringExecFns>::from_str(prefix);
    crate::text::push_char(&mut name, '.');
    name.append(segment);
    name
}

/// The search starts in the source roots, with nothing resolved.
pub fn start_resolution(source_roots: &Vec<String>) -> (state: ResolveState)
    ensures
        state.prefix@.len() == 0,
        state.entries@ == source_roots@,
        state.last is None,
{
    let mut entries: Vec<String> = Vec::new();
    let mut k: usize = 0;
    while k < source_roots.len()
        invariant
            0 <= k <= source_roots@.len(),
            entries@ == source_roots@.take(k as int),
        decreases source_roots@.len() - k,
    {
        entries.push(source_roots[k].clone());
        k = k + 1;
        proof {
            assert(entries@ =~= source_roots@.take(k as int));
        }
    }
    proof {
        assert(source_roots@.take(source_roots@.len() as int) =~= source_roots@);
    }
    ResolveState { prefix: String::new(), entries, last: None }
}

/// Moves past one segment, named `qualified_name` in full, that resolved to `outcome`: a
/// package is searched next and a namespace's portions are; a module ends the search path;
/// an external or unsupported segment ends the resolution.
pub fn advance(qualified_name: String, outcome: SegmentResolution) -> (step: ResolveStep)
    ensures
        match outcome {
            SegmentResolution::Package(m, dir) => step matches ResolveStep::Continue(st) && st.prefix == qualified_name
                && st.entries@ == seq![dir] && st.last == Some(LocalModuleResolution::Module(m)),
            SegmentResolution::Module(m) => step matches ResolveStep::Continue(st) && st.prefix == qualified_name
                && st.entries@.len() == 0 && st.last == Some(LocalModuleResolution::Module(m)),
            SegmentResolution::Namespace(ns, dirs) => step matches ResolveStep::Continue(st) && st.prefix
                == qualified_name && st.entries@ == dirs@ && st.last == Some(LocalModuleResolution::Namespace(ns)),
            SegmentResolution::External => step matches ResolveStep::Done(r) && r == LocalModuleResolution::External,
            SegmentResolution::Unsupported(reason) => step matches ResolveStep::Done(r) && r
                == LocalModuleResolution::Unsupported(reason),
        },
{
    match outcome {
        SegmentResolution::Package(module, dir) => {
            let mut entries: Vec<String> = Vec::new();
            entries.push(dir);
            ResolveStep::Continue(
                ResolveState { prefix: qualified_name, entries, last: Some(LocalModuleResolution::Module(module)) },
            )
        },
        SegmentResolution::Module(module) => ResolveStep::Continue(
            ResolveState {
                prefix: qualified_name,
                entries: Vec::new(),
                last: Some(LocalModuleResolution::Module(module)),
            },
        ),
        SegmentResolution::Namespace(namespace, portions) => ResolveStep::Continue(
            ResolveState {
                prefix: qualified_name,
                entries: portions,
                last: Some(LocalModuleResolution::Namespace(namespace)),
            },
        ),
        SegmentResolution::External => ResolveStep::Done(LocalModuleResolution::External),
        SegmentResolution::Unsupported(reason) => ResolveStep::Done(LocalModuleResolution::Unsupported(reason)),
    }
}

/// What the whole name resolves to once every segment resolved: the last segment's answer.
pub fn finish_resolution(state: ResolveState) -> (r: LocalModuleResolution)
    ensures
        r == match state.last {
            Some(last) => last,
            None => LocalModuleResolution::External,
        },
{
    match state.last {
        Some(last) => last,
        None => LocalModuleResolution::External,
    }
}

/// The record of a namespace package found at the directories `dirs`, reported relative to
/// the project root.
pub fn namespace_fact(project_root: &str, name: &str, dirs: &Vec<String>) -> (fact: NamespacePackageFact)
    ensures
        fact.name@ == name@,
        fact.portions@.len() == dirs@.len(),
        forall|k: int|
            0 <= k < dirs@.len() ==> crate::discovery::reported_relative(
                project_root@,
                dirs@[k]@,
                (#[trigger] fact.portions@[k])@,
            ),
{
    let mut portions: Vec<String> = Vec::new();
    let mut k: usize = 0;
    while k < dirs.len()
        invariant
            0 <= k <= dirs@.len(),
            portions@.len() == k,
            forall|j: int|
                0 <= j < k ==> crate::discovery::reported_relative(
                    project_root@,
                    dirs@[j]@,
                    (#[trigger] portions@[j])@,
                ),
        decreases dirs@.len() - k,
    {
        portions.push(crate::paths::relative_slash_path(project_root, dirs[k].as_str()));
        k = k + 1;
    }
    NamespacePackageFact { name: <String as StringExecFns>::from_str(name), portions }
}

/// Some top-level statement defines a function `__getattr__`.
pub open spec fn defines_module_getattr(statements: Seq<TopStatement>) -> bool {
    exists|k: int|
        0 <= k < statements.len() && (#[trigger] statements[k] matches TopStatement::Definition(d) && d.kind
            == DefinitionKind::Function && d.name@ == "__getattr__"@)
}

/// Whether a module defines a module-level `__getattr__`, which may synthesize attributes.
pub fn has_module_getattr(statements: &Vec<TopStatement>) -> (yes: bool)
    ensures
        yes == defines_module_getattr(statements@),
{
    let mut k: usize = 0;
    while k < statements.len()
        invariant
            0 <= k <= statements@.len(),
            forall|j: int|
                0 <= j < k ==> !(#[trigger] statements@[j] matches TopStatement::Definition(d) && d.kind
                    == DefinitionKind::Function && d.name@ == "__getattr__"@),
        decreases statements@.len() - k,
    {
        match &statements[k] {
            TopStatement::Definition(d) => {
                if d.kind == DefinitionKind::Function && str_eq(d.name.as_str(), "__getattr__") {
                    return true;
                }
            },
            _ => {},
        }
        k = k + 1;
    }
    false
}

// ----- the index -----

/// The module name space of a project: its search path, the providers of each module name,
/// the module each name resolves to, and the namespace packages found while resolving.
pub struct ModuleNamespaceIndex {
    pub source_roots: Vec<PathEntryFact>,
    pub providers: Vec<ModuleProviderFact>,
    /// Module names and the module each resolves to, one entry per name.
    pub selected_modules: Vec<(String, ModuleId)>,
    /// Namespace packages, one entry per name.
    pub namespace_packages: Vec<NamespacePackageFact>,
    /// The discovered modules.
    pub modules: Vec<DiscoveredModule>,
    /// The source-root directories, searched in order.
    pub source_root_paths: Vec<String>,
    pub project_root: String,
}

/// What `name` is selected as, if anything.
pub open spec fn selected_for(selected: Seq<(String, ModuleId)>, name: Seq<char>) -> Option<ModuleId>
    decreases selected.len(),
{
    if selected.len() == 0 {
        None
    } else if selected.last().0@ == name {
        Some(selected.last().1)
    } else {
        selected_for(selected.drop_last(), name)
    }
}

/// Some namespace package is named `name`.
pub open spec fn namespace_named(namespaces: Seq<NamespacePackageFact>, name: Seq<char>) -> bool {
    exists|k: int| 0 <= k < namespaces.len() && (#[trigger] namespaces[k]).name@ == name
}

/// The last module whose file is `path`.
pub open spec fn module_at_path(ms: Seq<DiscoveredModule>, path: Seq<char>) -> Option<ModuleId>
    decreases ms.len(),
{
    if ms.len() == 0 {
        None
    } else if ms.last().path@ == path {
        Some(ms.last().id)
    } else {
        module_at_path(ms.drop_last(), path)
    }
}

/// Some earlier module has the same file as module `i`.
pub open spec fn seen_before(ms: Seq<DiscoveredModule>, i: int) -> bool {
    exists|j: int| 0 <= j < i && (#[trigger] ms[j]).path@ == ms[i].path@
}

/// `p` is the provider record of module `m`.
pub open spec fn module_provider(p: ModuleProviderFact, m: DiscoveredModule, duplicate: bool, selected: Option<ModuleId>) -> bool {
    &&& p.module_name == m.name
    &&& p.path == m.display_path
    &&& p.kind == (if is_package_spec(m) {
        ModuleProviderKind::RegularPackage
    } else {
        ModuleProviderKind::ModuleFile
    })
    &&& p.status == (if duplicate {
        ModuleProviderStatus::DuplicatePhysicalFile
    } else if selected == Some(m.id) {
        ModuleProviderStatus::Selected
    } else {
        ModuleProviderStatus::Shadowed
    })
    &&& p.module == Some(m.id)
}

/// `p` is the provider record of a portion of namespace package `ns`.
pub open spec fn portion_provider(p: ModuleProviderFact, ns: NamespacePackageFact, portion: String) -> bool {
    &&& p.module_name == ns.name
    &&& p.path == portion
    &&& p.kind == ModuleProviderKind::NamespacePackagePortion
    &&& p.status == ModuleProviderStatus::NamespaceContributor
    &&& p.module is None
}

/// `ps` lists, module by module, the provider records of the modules.
pub open spec fn module_providers(ps: Seq<ModuleProviderFact>, ms: Seq<DiscoveredModule>, selected: Seq<(String, ModuleId)>) -> bool {
    &&& ps.len() == ms.len()
    &&& forall|i: int|
        0 <= i < ms.len() ==> module_provider(#[trigger] ps[i], ms[i], seen_before(ms, i), selected_for(selected, ms[i].name@))
}

/// `ps` lists the provider records of the namespace portions, package by package.
pub open spec fn portion_providers(ps: Seq<ModuleProviderFact>, nss: Seq<NamespacePackageFact>) -> bool
    decreases nss.len(),
{
    if nss.len() == 0 {
        ps.len() == 0
    } else {
        let ns = nss.last();
        let m = ns.portions@.len();
        &&& ps.len() >= m
        &&& portion_providers(ps.take(ps.len() - m), nss.drop_last())
        &&& forall|k: int| 0 <= k < m ==> portion_provider(#[trigger] ps[ps.len() - m + k], ns, ns.portions@[k])
    }
}

impl ModuleNamespaceIndex {
    /// The index's modules.
    pub open spec fn modules_view(&self) -> Seq<DiscoveredModule> {
        self.modules@
    }

    /// The directories searched first.
    pub open spec fn search_path(&self) -> Seq<String> {
        self.source_root_paths@
    }

    /// An index of the modules, searched through the source roots in order, with nothing
    /// resolved yet.
    pub fn new(project_root: &str, source_roots: &Vec<String>, modules: Vec<DiscoveredModule>) -> (index: Self)
        ensures
            index.modules_view() == modules@,
            index.search_path() == source_roots@,
            index.source_roots@.len() == source_roots@.len(),
            forall|k: int|
                0 <= k < source_roots@.len() ==> (#[trigger] index.source_roots@[k]).order == k
                    && crate::discovery::reported_relative(project_root@, source_roots@[k]@, index.source_roots@[k].path@),
            index.providers@.len() == 0,
            index.selected_modules@.len() == 0,
            index.namespace_packages@.len() == 0,
    {
        let mut facts: Vec<PathEntryFact> = Vec::new();
        let mut paths: Vec<String> = Vec::new();
        let mut k: usize = 0;
        while k < source_roots.len()
            invariant
                0 <= k <= source_roots@.len(),
                facts@.len() == k,
                paths@ == source_roots@.take(k as int),
                forall|j: int|
                    0 <= j < k ==> (#[trigger] facts@[j]).order == j && crate::discovery::reported_relative(
                        project_root@,
                        source_roots@[j]@,
                        facts@[j].path@,
                    ),
            decreases source_roots@.len() - k,
        {
            facts.push(
                PathEntryFact {
                    order: k,
                    path: crate::paths::relative_slash_path(project_root, source_roots[k].as_str()),
                },
            );
            paths.push(source_roots[k].clone());
            k = k + 1;
            proof {
                assert(paths@ =~= source_roots@.take(k as int));
            }
        }
        proof {
            assert(source_roots@.take(source_roots@.len() as int) =~= source_roots@);
        }
        ModuleNamespaceIndex {
            source_roots: facts,
            providers: Vec::new(),
            selected_modules: Vec::new(),
            namespace_packages: Vec::new(),
            modules,
            source_root_paths: paths,
            project_root: <String as StringExecFns>::from_str(project_root),
        }
    }

    /// The module a name resolves to, if it was selected.
    pub fn module_for_name(&self, name: &str) -> (m: Option<ModuleId>)
        ensures
            m == selected_for(self.selected_modules@, name@),
    {
        let mut k = self.selected_modules.len();
        proof {
            assert(self.selected_modules@.take(k as int) =~= self.selected_modules@);
        }
        while k > 0
            invariant
                0 <= k <= self.selected_modules@.len(),
                selected_for(self.selected_modules@, name@) == selected_for(self.selected_modules@.take(k as int), name@),
            decreases k,
        {
            let ghost prefix = self.selected_modules@.take(k as int);
            proof {
                assert(prefix.drop_last() =~= self.selected_modules@.take(k - 1));
                assert(prefix.last() == self.selected_modules@[k - 1]);
            }
            if str_eq(self.selected_modules[k - 1].0.as_str(), name) {
                return Some(self.selected_modules[k - 1].1);
            }
            k = k - 1;
        }
        None
    }

    /// The module with identifier `id`, if any.
    pub fn module(&self, id: ModuleId) -> (m: Option<&DiscoveredModule>)
        ensures
            match m {
                Some(m) => exists|k: int| 0 <= k < self.modules_view().len() && self.modules_view()[k] == *m && m.id == id,
                None => forall|k: int| 0 <= k < self.modules_view().len() ==> (#[trigger] self.modules_view()[k]).id != id,
            },
    {
        let mut k: usize = 0;
        while k < self.modules.len()
            invariant
                0 <= k <= self.modules@.len(),
                forall|j: int| 0 <= j < k ==> (#[trigger] self.modules@[j]).id != id,
            decreases self.modules@.len() - k,
        {
            if self.modules[k].id.0 == id.0 {
                return Some(&self.modules[k]);
            }
            k = k + 1;
        }
        None
    }

    /// The absolute module name of a relative import written in module `current_module`;
    /// `None` when the index does not hold that module.
    pub fn relative_module_name(&self, current_module: ModuleId, level: u32, module: Option<&str>) -> (name: Option<String>)
        ensures
            (forall|k: int| 0 <= k < self.modules_view().len() ==> (#[trigger] self.modules_view()[k]).id != current_module)
                ==> name is None,
            (exists|k: int| 0 <= k < self.modules_view().len() && (#[trigger] self.modules_view()[k]).id == current_module)
                ==> exists|k: int|
                0 <= k < self.modules_view().len() && (#[trigger] self.modules_view()[k]).id == current_module
                    && relative_name_spec(self.modules_view()[k], level, match module {
                    Some(m) => Some(m@),
                    None => None,
                }) == match name {
                    Some(n) => Some(n@),
                    None => None,
                },
    {
        match self.module(current_module) {
            Some(current) => relative_module_name(current, level, module),
            None => None,
        }
    }

    /// The module whose file is `path` (the last one when several are).
    pub fn module_for_path(&self, path: &str) -> (m: Option<ModuleId>)
        ensures
            m == module_at_path(self.modules_view(), path@),
    {
        let mut k = self.modules.len();
        proof {
            assert(self.modules@.take(k as int) =~= self.modules@);
        }
        while k > 0
            invariant
                0 <= k <= self.modules@.len(),
                module_at_path(self.modules@, path@) == module_at_path(self.modules@.take(k as int), path@),
            decreases k,
        {
            let ghost prefix = self.modules@.take(k as int);
            proof {
                assert(prefix.drop_last() =~= self.modules@.take(k - 1));
                assert(prefix.last() == self.modules@[k - 1]);
            }
            if str_eq(self.modules[k - 1].path.as_str(), path) {
                return Some(self.modules[k - 1].id);
            }
            k = k - 1;
        }
        proof {
            assert(self.modules@.take(0) =~= Seq::<DiscoveredModule>::empty());
        }
        None
    }

    /// Whether a namespace package named `name` was found.
    pub fn has_namespace(&self, name: &str) -> (yes: bool)
        ensures
            yes == namespace_named(self.namespace_packages@, name@),
    {
        let mut k: usize = 0;
        while k < self.namespace_packages.len()
            invariant
                0 <= k <= self.namespace_packages@.len(),
                forall|j: int| 0 <= j < k ==> (#[trigger] self.namespace_packages@[j]).name@ != name@,
            decreases self.namespace_packages@.len() - k,
        {
            if str_eq(self.namespace_packages[k].name.as_str(), name) {
                return true;
            }
            k = k + 1;
        }
        false
    }

    /// How resolving `name` starts: an empty name is external; a selected name or a known
    /// namespace package answers at once; otherwise the search starts in the source roots.
    pub fn begin_resolution(&self, name: &str) -> (step: ResolveStep)
        ensures
            name@.len() == 0 ==> (step matches ResolveStep::Done(r) && r == LocalModuleResolution::External),
            name@.len() > 0 && selected_for(self.selected_modules@, name@) is Some ==> (step matches ResolveStep::Done(
                r,
            ) && r == LocalModuleResolution::Module(selected_for(self.selected_modules@, name@)->0)),
            name@.len() > 0 && selected_for(self.selected_modules@, name@) is None && namespace_named(
                self.namespace_packages@,
                name@,
            ) ==> (step matches ResolveStep::Done(r) && r matches LocalModuleResolution::Namespace(n) && n@ == name@),
            name@.len() > 0 && selected_for(self.selected_modules@, name@) is None && !namespace_named(
                self.namespace_packages@,
                name@,
            ) ==> (step matches ResolveStep::Continue(st) && st.prefix@.len() == 0 && st.entries@ == self.search_path()
                && st.last is None),
    {
        if name.is_empty() {
            return ResolveStep::Done(LocalModuleResolution::External);
        }
        if let Some(module) = self.module_for_name(name) {
            return ResolveStep::Done(LocalModuleResolution::Module(module));
        }
        if self.has_namespace(name) {
            return ResolveStep::Done(LocalModuleResolution::Namespace(<String as StringExecFns>::from_str(name)));
        }
        ResolveStep::Continue(start_resolution(&self.source_root_paths))
    }

    /// Records a namespace package, unless one of that name is known.
    pub fn record_namespace(&mut self, fact: NamespacePackageFact)
        ensures
            namespace_named(old(self).namespace_packages@, fact.name@) ==> final(self).namespace_packages@
                == old(self).namespace_packages@,
            !namespace_named(old(self).namespace_packages@, fact.name@) ==> final(self).namespace_packages@
                == old(self).namespace_packages@.push(fact),
            final(self).selected_modules@ == old(self).selected_modules@,
            final(self).providers@ == old(self).providers@,
            final(self).modules_view() == old(self).modules_view(),
            final(self).search_path() == old(self).search_path(),
    {
        if !self.has_namespace(fact.name.as_str()) {
            self.namespace_packages.push(fact);
        }
    }

    /// Records that `name` resolves to `module`.
    pub fn select_module(&mut self, name: String, module: ModuleId)
        ensures
            final(self).selected_modules@ == old(self).selected_modules@.push((name, module)),
            selected_for(final(self).selected_modules@, name@) == Some(module),
            final(self).namespace_packages@ == old(self).namespace_packages@,
            final(self).providers@ == old(self).providers@,
            final(self).modules_view() == old(self).modules_view(),
            final(self).search_path() == old(self).search_path(),
    {
        let ghost n = name@;
        self.selected_modules.push((name, module));
        proof {
            assert(self.selected_modules@.last().0@ == n);
        }
    }

    /// Lists the providers: one per module, a second provider of the same file as a
    /// duplicate, the selected one as selected and the others as shadowed; then one per
    /// namespace-package portion; all in order of module name, path and kind name.
    pub fn finish_providers(&mut self)
        requires
            old(self).modules_view().len() + namespace_portion_count(old(self).namespace_packages@) <= usize::MAX,
        ensures
            exists|pre: Seq<ModuleProviderFact>|
                {
                    &&& module_providers(
                        pre.take(old(self).modules_view().len() as int),
                        old(self).modules_view(),
                        old(self).selected_modules@,
                    )
                    &&& portion_providers(
                        pre.skip(old(self).modules_view().len() as int),
                        old(self).namespace_packages@,
                    )
                    &&& pre.len() >= old(self).modules_view().len()
                    &&& final(self).providers@.to_multiset() == pre.to_multiset()
                },
            crate::order::sorted_by_key(final(self).providers@),
            final(self).selected_modules@ == old(self).selected_modules@,
            final(self).namespace_packages@ == old(self).namespace_packages@,
            final(self).modules_view() == old(self).modules_view(),
            final(self).search_path() == old(self).search_path(),
    {
        let ghost ms = self.modules@;
        let mut providers: Vec<ModuleProviderFact> = Vec::new();
        let mut i: usize = 0;
        while i < self.modules.len()
            invariant
                ms == self.modules@,
                0 <= i <= ms.len(),
                module_providers(providers@, ms.take(i as int), self.selected_modules@),
            decreases ms.len() - i,
        {
            let m = &self.modules[i];
            let mut seen = false;
            let mut j: usize = 0;
            while j < i
                invariant
                    ms == self.modules@,
                    0 <= j <= i < ms.len(),
                    *m == ms[i as int],
                    seen == exists|t: int| 0 <= t < j && (#[trigger] ms[t]).path@ == ms[i as int].path@,
                decreases i - j,
            {
                let same = str_eq(self.modules[j].path.as_str(), m.path.as_str());
                proof {
                    assert(ms[j as int] == self.modules@[j as int]);
                    if exists|t: int| 0 <= t < j + 1 && (#[trigger] ms[t]).path@ == ms[i as int].path@ {
                        let t = choose|t: int| 0 <= t < j + 1 && (#[trigger] ms[t]).path@ == ms[i as int].path@;
                        if t < j {
                            assert(exists|t2: int| 0 <= t2 < j && (#[trigger] ms[t2]).path@ == ms[i as int].path@);
                        }
                    }
                }
                if same {
                    seen = true;
                }
                j = j + 1;
            }
            let selected = self.module_for_name(m.name.as_str());
            let status = provider_status(seen, selected, m.id);
            let ghost p0 = providers@;
            providers.push(
                ModuleProviderFact {
                    module_name: m.name.clone(),
                    path: m.display_path.clone(),
                    kind: provider_kind(m),
                    status,
                    module: Some(m.id),
                },
            );
            proof {
                let t = ms.take(i + 1);
                assert forall|x: int| 0 <= x < t.len() implies module_provider(
                    #[trigger] providers@[x],
                    t[x],
                    seen_before(t, x),
                    selected_for(self.selected_modules@, t[x].name@),
                ) by {
                    assert(t[x] == ms[x]);
                    if x < i {
                        assert(providers@[x] == p0[x]);
                        assert(ms.take(i as int)[x] == ms[x]);
                        assert(seen_before(t, x) == seen_before(ms.take(i as int), x)) by {
                            if seen_before(t, x) {
                                let y = choose|y: int| 0 <= y < x && (#[trigger] t[y]).path@ == t[x].path@;
                                assert(ms.take(i as int)[y] == t[y]);
                            }
                            if seen_before(ms.take(i as int), x) {
                                let y = choose|y: int| 0 <= y < x && (#[trigger] ms.take(i as int)[y]).path@ == ms.take(i as int)[x].path@;
                                assert(t[y] == ms[y]);
                            }
                        }
                    } else {
                        assert(seen_before(t, x) == seen) by {
                            if seen_before(t, x) {
                                let y = choose|y: int| 0 <= y < x && (#[trigger] t[y]).path@ == t[x].path@;
                                assert(ms[y].path@ == ms[i as int].path@);
                            }
                            if seen {
                                let y = choose|y: int| 0 <= y < i && (#[trigger] ms[y]).path@ == ms[i as int].path@;
                                assert(t[y] == ms[y]);
                            }
                        }
                    }
                }
            }
            i = i + 1;
        }
        proof {
            assert(ms.take(ms.len() as int) =~= ms);
        }
        let ghost module_part = providers@;
        let ghost nss = self.namespace_packages@;
        let mut n: usize = 0;
        proof {
            assert(providers@.skip(ms.len() as int) =~= Seq::<ModuleProviderFact>::empty());
            assert(nss.take(0) =~= Seq::<NamespacePackageFact>::empty());
            assert(providers@.take(ms.len() as int) =~= module_part);
        }
        while n < self.namespace_packages.len()
            invariant
                nss == self.namespace_packages@,
                ms == self.modules@,
                module_part.len() == ms.len(),
                0 <= n <= nss.len(),
                providers@.len() >= ms.len(),
                providers@.take(ms.len() as int) == module_part,
                portion_providers(providers@.skip(ms.len() as int), nss.take(n as int)),
                providers@.len() == ms.len() + namespace_portion_count(nss.take(n as int)),
                ms.len() + namespace_portion_count(nss) <= usize::MAX,
            decreases nss.len() - n,
        {
            let ns = &self.namespace_packages[n];
            let ghost before = providers@;
            proof {
                lemma_portion_count_prefix(nss, n as int + 1);
                assert(nss.take(n + 1).drop_last() =~= nss.take(n as int));
                assert(nss.take(n + 1).last() == nss[n as int]);
            }
            let mut k: usize = 0;
            while k < ns.portions.len()
                invariant
                    0 <= k <= ns.portions@.len(),
                    providers@.len() == before.len() + k,
                    providers@.take(before.len() as int) == before,
                    before.len() + ns.portions@.len() <= usize::MAX,
                    forall|t: int|
                        0 <= t < k ==> portion_provider(#[trigger] providers@[before.len() + t], *ns, ns.portions@[t]),
                decreases ns.portions@.len() - k,
            {
                let ghost p0 = providers@;
                providers.push(
                    ModuleProviderFact {
                        module_name: ns.name.clone(),
                        path: ns.portions[k].clone(),
                        kind: ModuleProviderKind::NamespacePackagePortion,
                        status: ModuleProviderStatus::NamespaceContributor,
                        module: None,
                    },
                );
                proof {
                    assert(providers@.take(before.len() as int) =~= p0.take(before.len() as int));
                    assert forall|t: int| 0 <= t < k + 1 implies portion_provider(
                        #[trigger] providers@[before.len() + t],
                        *ns,
                        ns.portions@[t],
                    ) by {
                        if t < k {
                            assert(providers@[before.len() + t] == p0[before.len() + t]);
                        }
                    }
                }
                k = k + 1;
            }
            proof {
                let tail = providers@.skip(ms.len() as int);
                let m = ns.portions@.len();
                assert(tail.take(tail.len() - m) =~= before.skip(ms.len() as int));
                assert forall|t: int| 0 <= t < m implies portion_provider(#[trigger] tail[tail.len() - m + t], *ns, ns.portions@[t]) by {
                    assert(tail[tail.len() - m + t] == providers@[before.len() + t]);
                }
                assert(providers@.take(ms.len() as int) =~= before.take(ms.len() as int));
            }
            n = n + 1;
        }
        proof {
            assert(nss.take(nss.len() as int) =~= nss);
        }
        let ghost pre = providers@;
        let sorted = crate::order::sort_by_key(providers);
        self.providers = sorted;
        proof {
            assert(pre.take(ms.len() as int) == module_part);
        }
    }
}

/// How many portions the namespace packages have in all.
pub open spec fn namespace_portion_count(nss: Seq<NamespacePackageFact>) -> nat
    decreases nss.len(),
{
    if nss.len() == 0 {
        0
    } else {
        namespace_portion_count(nss.drop_last()) + nss.last().portions@.len()
    }
}

proof fn lemma_portion_count_prefix(nss: Seq<NamespacePackageFact>, k: int)
    requires
        0 <= k <= nss.len(),
    ensures
        namespace_portion_count(nss.take(k)) <= namespace_portion_count(nss),
    decreases nss.len() - k,
{
    if k < nss.len() {
        lemma_portion_count_prefix(nss, k + 1);
        assert(nss.take(k + 1).drop_last() =~= nss.take(k));
    } else {
        assert(nss.take(k) =~= nss);
    }
}

} // verus!
