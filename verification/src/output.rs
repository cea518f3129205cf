//! The documents the analyzer reports: check results, candidates, debug dumps.
use vstd::prelude::*;

use crate::diagnostic::Diagnostic;
use crate::ids::RootId;
use crate::ir::DefinitionKind;
use crate::order::{compare_strs, lex_lt, str_key, lemma_str_key_separated, lemma_lex_total,
    lemma_lex_transitive, lemma_lex_asymmetric};
use crate::semantic::{
    BindingFact, BindingSetFact, ContextFact, ContextFlowStatusFact, DefinitionEffectKind,
    DefinitionEffectSetFact, FlowUncertaintySetFact, InternalCandidateFact, OriginDomain,
    OriginEvidence, OverloadGroupFact, ReferenceFact, ReferencePhase, RemovalRisk, ScopeFact,
    SemanticDefinition, SymbolFact,
};
use crate::source::{PythonVersion, TextRange};
use crate::ids::{ContextId, FileId, ModuleId, ScopeId};

verus! {

#[derive(Clone, Debug, PartialEq, Eq)]
pub struct DebugDefinitionsOutput {
    pub schema_version: u32,
    pub target_python: PythonVersion,
    pub project_root: String,
    pub source_roots: Vec<SourceRootOutput>,
    pub modules: Vec<DebugModule>,
    pub diagnostics: Vec<Diagnostic>,
}

#[derive(Clone, Debug, PartialEq, Eq)]
pub struct SourceRootOutput {
    pub path: String,
    pub kind: String,
}

/// How the project is meant to be used, which decides how public names are treated.
#[derive(Clone, Copy, Debug, PartialEq, Eq, Structural, Hash, PartialOrd, Ord)]
pub enum ProjectMode {
    Auto,
    Application,
    Library,
}

impl Default for ProjectMode {
    fn default() -> (mode: Self)
        ensures
            mode == ProjectMode::Auto,
    {
        ProjectMode::Auto
    }
}

#[derive(Clone, Debug, PartialEq, Eq)]
pub struct CheckOutput {
    pub schema_version: u32,
    pub analysis: CheckAnalysis,
    pub project_completeness: ProjectCompleteness,
    pub target_python: PythonVersion,
    pub project_root: String,
    pub source_roots: Vec<SourceRootOutput>,
    pub mode: ProjectMode,
    pub root_coverage: RootCoverage,
    pub roots: Vec<RootOutput>,
    pub findings: Vec<Finding>,
    pub summary: CheckSummary,
    pub diagnostics: Vec<Diagnostic>,
}

#[derive(Clone, Copy, Debug, PartialEq, Eq, Structural)]
pub struct CheckAnalysis {
    pub mode: ProjectMode,
    pub target_python: PythonVersion,
    pub root_coverage: RootCoverage,
}

/// Whether every discovered file took part in the analysis.
#[derive(Clone, Debug, PartialEq, Eq)]
pub struct ProjectCompleteness {
    pub status: ProjectCompletenessStatus,
    pub skipped_files: Vec<SkippedFile>,
    pub skipped_reasons: Vec<String>,
    pub confidence_ceiling: Option<FindingConfidence>,
}

/// `s` is strictly increasing in bytewise string order.
pub open spec fn strictly_sorted_strings(s: Seq<Seq<char>>) -> bool {
    forall|i: int, j: int| 0 <= i < j < s.len() ==> lex_lt(str_key(s[i]), str_key(s[j]))
}

/// The character sequences of a list of strings.
pub open spec fn string_views(s: Seq<String>) -> Seq<Seq<char>> {
    s.map_values(|x: String| x@)
}

/// The reasons of the skipped files, as strings.
pub open spec fn skipped_reason_views(files: Seq<SkippedFile>) -> Seq<Seq<char>> {
    files.map_values(|f: SkippedFile| f.reason@)
}

impl ProjectCompleteness {
    /// Every file was analyzed: no ceiling on confidence.
    pub fn complete() -> (c: Self)
        ensures
            c.status == ProjectCompletenessStatus::Complete,
            c.skipped_files@.len() == 0,
            c.skipped_reasons@.len() == 0,
            c.confidence_ceiling is None,
    {
        ProjectCompleteness {
            status: ProjectCompletenessStatus::Complete,
            skipped_files: Vec::new(),
            skipped_reasons: Vec::new(),
            confidence_ceiling: None,
        }
    }

    /// Some files were skipped: the distinct reasons are listed in order, and no finding can
    /// be more than `Review`.
    pub fn partial(skipped_files: Vec<SkippedFile>) -> (c: Self)
        ensures
            c.status == ProjectCompletenessStatus::Partial,
            c.skipped_files@ == skipped_files@,
            strictly_sorted_strings(string_views(c.skipped_reasons@)),
            forall|r: Seq<char>|
                #[trigger] string_views(c.skipped_reasons@).contains(r) <==> skipped_reason_views(
                    skipped_files@,
                ).contains(r),
            c.confidence_ceiling == Some(FindingConfidence::Review),
    {
        let mut reasons: Vec<String> = Vec::new();
        let mut i: usize = 0;
        while i < skipped_files.len()
            invariant
                0 <= i <= skipped_files@.len(),
                strictly_sorted_strings(string_views(reasons@)),
                forall|r: Seq<char>|
                    #[trigger] string_views(reasons@).contains(r) <==> skipped_reason_views(
                        skipped_files@.take(i as int),
                    ).contains(r),
            decreases skipped_files@.len() - i,
        {
            let ghost before = string_views(reasons@);
            insert_sorted_unique(&mut reasons, skipped_files[i].reason.clone());
            proof {
                let t0 = skipped_reason_views(skipped_files@.take(i as int));
                let t1 = skipped_reason_views(skipped_files@.take(i + 1));
                let x = skipped_files@[i as int].reason@;
                assert(t1 =~= t0.push(x));
                assert forall|r: Seq<char>| #[trigger] t1.contains(r) <==> (t0.contains(r) || r == x) by {
                    if t1.contains(r) {
                        let k = choose|k: int| 0 <= k < t1.len() && t1[k] == r;
                        if k < t0.len() {
                            assert(t0[k] == r);
                        }
                    }
                    if t0.contains(r) {
                        let k = choose|k: int| 0 <= k < t0.len() && t0[k] == r;
                        assert(t1[k] == r);
                    }
                    if r == x {
                        assert(t1[t0.len() as int] == r);
                    }
                }
            }
            i = i + 1;
        }
        proof {
            assert(skipped_files@.take(skipped_files@.len() as int) =~= skipped_files@);
        }
        ProjectCompleteness {
            status: ProjectCompletenessStatus::Partial,
            skipped_files,
            skipped_reasons: reasons,
            confidence_ceiling: Some(FindingConfidence::Review),
        }
    }
}

/// Adds `value` to a strictly sorted list of strings, unless it is there already.
pub fn insert_sorted_unique(list: &mut Vec<String>, value: String)
    requires
        strictly_sorted_strings(string_views(old(list)@)),
    ensures
        strictly_sorted_strings(string_views(final(list)@)),
        forall|r: Seq<char>|
            #[trigger] string_views(final(list)@).contains(r) <==> (string_views(old(list)@).contains(r) || r == value@),
{
    let ghost before = string_views(list@);
    let mut p: usize = 0;
    let mut stop = false;
    while !stop && p < list.len()
        invariant
            0 <= p <= list@.len(),
            string_views(list@) == before,
            strictly_sorted_strings(before),
            forall|t: int| 0 <= t < p ==> lex_lt(str_key(#[trigger] before[t]), str_key(value@)),
            stop ==> p < before.len() && !lex_lt(str_key(before[p as int]), str_key(value@)),
        decreases list@.len() - p + (if stop { 0int } else { 1int }),
    {
        let c = compare_strs(list[p].as_str(), value.as_str());
        if c == -1 {
            p = p + 1;
        } else {
            stop = true;
        }
    }
    if p < list.len() && crate::text::str_eq(list[p].as_str(), value.as_str()) {
        proof {
            assert(before[p as int] == value@);
            assert forall|r: Seq<char>| #[trigger] string_views(list@).contains(r) <==> (
            before.contains(r) || r == value@) by {
                if r == value@ {
                    assert(before[p as int] == r);
                }
            }
        }
        return;
    }
    proof {
        if p < before.len() {
            lemma_str_key_separated(before[p as int], value@);
            lemma_lex_total(str_key(before[p as int]), str_key(value@));
            assert(lex_lt(str_key(value@), str_key(before[p as int])));
        }
    }
    list.insert(p, value);
    proof {
        let after = string_views(list@);
        assert(after =~= before.insert(p as int, value@));
        assert forall|a: int, b: int| 0 <= a < b < after.len() implies lex_lt(
            str_key(after[a]),
            str_key(after[b]),
        ) by {
            if b < p {
            } else if b == p {
            } else if a < p {
                assert(after[b] == before[b - 1]);
                assert(lex_lt(str_key(before[a]), str_key(value@)));
                assert(lex_lt(str_key(value@), str_key(before[p as int])));
                lemma_lex_transitive(str_key(before[a]), str_key(value@), str_key(before[p as int]));
                if b - 1 > p {
                    lemma_lex_transitive(str_key(before[a]), str_key(before[p as int]), str_key(before[b - 1]));
                }
            } else if a == p {
                assert(after[b] == before[b - 1]);
                if b - 1 > p {
                    lemma_lex_transitive(str_key(value@), str_key(before[p as int]), str_key(before[b - 1]));
                }
            } else {
                assert(after[a] == before[a - 1] && after[b] == before[b - 1]);
            }
        }
        assert forall|r: Seq<char>| after.contains(r) <==> (before.contains(r) || r == value@) by {
            if after.contains(r) {
                let k = choose|k: int| 0 <= k < after.len() && after[k] == r;
                if k < p {
                    assert(before[k] == r);
                } else if k > p {
                    assert(before[k - 1] == r);
                }
            }
            if before.contains(r) {
                let k = choose|k: int| 0 <= k < before.len() && before[k] == r;
                if k < p {
                    assert(after[k] == r);
                } else {
                    assert(after[k + 1] == r);
                }
            }
            if r == value@ {
                assert(after[p as int] == r);
            }
        }
    }
}

#[derive(Clone, Copy, Debug, PartialEq, Eq, Structural, Hash, PartialOrd, Ord)]
pub enum ProjectCompletenessStatus {
    Complete,
    Partial,
}

#[derive(Clone, Debug, PartialEq, Eq)]
pub struct SkippedFile {
    pub path: String,
    pub reason: String,
    pub diagnostic_code: String,
}

#[derive(Clone, Copy, Debug, PartialEq, Eq, Structural)]
pub struct CheckSummary {
    pub high_confidence: usize,
    pub review: usize,
    pub suppressed: usize,
}

impl Default for CheckSummary {
    fn default() -> (s: Self)
        ensures
            s.high_confidence == 0 && s.review == 0 && s.suppressed == 0,
    {
        CheckSummary { high_confidence: 0, review: 0, suppressed: 0 }
    }
}

#[derive(Clone, Debug, PartialEq, Eq)]
pub struct Finding {
    pub finding_id: String,
    pub id: String,
    pub rule_id: FindingRule,
    pub finding_type: FindingType,
    pub definition: FindingDefinition,
    pub status: CandidateStatus,
    pub confidence: FindingConfidence,
    pub confidence_ceiling: FindingConfidence,
    pub blockers: Vec<FindingBlocker>,
    pub inbound_references: Vec<FindingReference>,
    pub reachability: FindingReachability,
    pub exports: Vec<FindingExport>,
    pub mode_effect: FindingModeEffect,
    pub uncertainty: Vec<FindingUncertainty>,
    pub origin_domains: Vec<FindingOriginSummary>,
    pub reference_phases: Vec<FindingPhaseSummary>,
    pub removal_risk: FindingRemovalRisk,
    pub secondary_conditions: Vec<SecondaryCondition>,
    pub evidence: Vec<EvidenceRecord>,
    pub explanation: Vec<String>,
}

#[derive(Clone, Debug, PartialEq, Eq)]
pub struct Candidate {
    pub candidate_id: String,
    pub subject_id: String,
    pub rule_id: FindingRule,
    pub finding_type: FindingType,
    pub definition: FindingDefinition,
    pub status: CandidateStatus,
    pub confidence: Option<FindingConfidence>,
    pub confidence_ceiling: FindingConfidence,
    pub blockers: Vec<FindingBlocker>,
    pub suppression_reasons: Vec<SuppressionReason>,
    pub uncertainty: Vec<FindingUncertainty>,
    pub evidence: Vec<EvidenceRecord>,
    pub removal_risk: FindingRemovalRisk,
    pub secondary_conditions: Vec<SecondaryCondition>,
    pub explanation: Vec<String>,
}

#[derive(Clone, Copy, Debug, PartialEq, Eq, Structural, Hash, PartialOrd, Ord)]
pub enum CandidateStatus {
    Reported,
    Suppressed,
}

/// The rules a finding can be reported under.
#[derive(Clone, Copy, Debug, PartialEq, Eq, Structural, Hash, PartialOrd, Ord)]
pub enum FindingRule {
    Cull001,
    Cull002,
    Cull003,
    Cull004,
}

pub open spec fn rule_code(rule: FindingRule) -> Seq<char> {
    match rule {
        FindingRule::Cull001 => "CULL001"@,
        FindingRule::Cull002 => "CULL002"@,
        FindingRule::Cull003 => "CULL003"@,
        FindingRule::Cull004 => "CULL004"@,
    }
}

pub open spec fn rule_text_name(rule: FindingRule) -> Seq<char> {
    match rule {
        FindingRule::Cull001 => "unreferenced-function"@,
        FindingRule::Cull002 => "unreferenced-class"@,
        FindingRule::Cull003 => "unreachable-function"@,
        FindingRule::Cull004 => "unreachable-class"@,
    }
}

impl FindingRule {
    /// The rule's code, such as `CULL001`.
    pub fn code(self) -> (code: &'static str)
        ensures
            code@ == rule_code(self),
    {
        match self {
            FindingRule::Cull001 => "CULL001",
            FindingRule::Cull002 => "CULL002",
            FindingRule::Cull003 => "CULL003",
            FindingRule::Cull004 => "CULL004",
        }
    }

    /// The rule's readable name, such as `unreferenced-function`.
    pub fn text_name(self) -> (name: &'static str)
        ensures
            name@ == rule_text_name(self),
    {
        match self {
            FindingRule::Cull001 => "unreferenced-function",
            FindingRule::Cull002 => "unreferenced-class",
            FindingRule::Cull003 => "unreachable-function",
            FindingRule::Cull004 => "unreachable-class",
        }
    }
}

#[derive(Clone, Copy, Debug, PartialEq, Eq, Structural, Hash, PartialOrd, Ord)]
pub enum FindingType {
    Unreferenced,
    RootUnreachable,
}

#[derive(Clone, Debug, PartialEq, Eq)]
pub struct FindingBlocker {
    pub kind: FindingBlockerKind,
    pub detail: String,
}

#[derive(Clone, Copy, Debug, PartialEq, Eq, Structural, Hash, PartialOrd, Ord)]
pub enum FindingBlockerKind {
    AnalysisUncertainty,
    PartialProjectAnalysis,
    PublicSurfacePolicy,
    RemovalRisk,
    RootCoverage,
}

#[derive(Clone, Debug, PartialEq, Eq)]
pub struct SuppressionReason {
    pub kind: SuppressionReasonKind,
    pub detail: String,
}

#[derive(Clone, Copy, Debug, PartialEq, Eq, Structural, Hash, PartialOrd, Ord)]
pub enum SuppressionReasonKind {
    NonPrimaryRuleAlternative,
    CandidateConstructionInvalidated,
    UnsupportedFlow,
    UnboundedDynamicBehavior,
}

#[derive(Clone, Copy, Debug, PartialEq, Eq, Structural, Hash, PartialOrd, Ord)]
pub enum SecondaryCondition {
    AlsoUnreferenced,
    AlsoRootUnreachable,
}

#[derive(Clone, Debug, PartialEq, Eq)]
pub struct EvidenceRecord {
    pub kind: EvidenceKind,
    pub summary: String,
}

#[derive(Clone, Copy, Debug, PartialEq, Eq, Structural, Hash, PartialOrd, Ord)]
pub enum EvidenceKind {
    NoInboundReferences,
    InboundReferenceSummary,
    ExportStatus,
    ModePolicy,
    RootCoverage,
    ReachabilitySummary,
    DeadClusterMembership,
    OriginSummary,
    DefinitionEffect,
    RemovalRisk,
    ProjectCompleteness,
    ConfidenceBlocker,
    Uncertainty,
    SecondaryCondition,
}

#[derive(Clone, Debug, PartialEq, Eq)]
pub struct FindingDefinition {
    pub kind: DefinitionKind,
    pub name: String,
    pub qualified_name: String,
    pub module: String,
    pub file: String,
    pub range: TextRange,
    pub line: u32,
    pub column: u32,
}

#[derive(Clone, Copy, Debug, PartialEq, Eq, Structural, Hash, PartialOrd, Ord)]
pub enum FindingConfidence {
    High,
    Review,
}

#[derive(Clone, Debug, PartialEq, Eq)]
pub struct FindingReference {
    pub kind: FindingReferenceKind,
    pub source_module: String,
    pub source: String,
    pub file: String,
    pub range: TextRange,
    pub phase: ReferencePhase,
    pub origin_domain: OriginDomain,
}

#[derive(Clone, Copy, Debug, PartialEq, Eq, Structural, Hash, PartialOrd, Ord)]
pub enum FindingReferenceKind {
    SameModule,
    Import,
    ModuleAttribute,
    Export,
}

#[derive(Clone, Debug, PartialEq, Eq)]
pub struct FindingReachability {
    pub status: FindingReachabilityStatus,
    pub root_coverage: RootCoverage,
    pub production_reachable: bool,
    pub test_reachable: bool,
    pub external_surface_reachable: bool,
    pub roots_considered: Vec<String>,
    pub summary: String,
}

#[derive(Clone, Copy, Debug, PartialEq, Eq, Structural, Hash, PartialOrd, Ord)]
pub enum FindingReachabilityStatus {
    NotComputed,
    NoRuntimePath,
    NotApplicable,
}

#[derive(Clone, Copy, Debug, PartialEq, Eq, Structural, Hash, PartialOrd, Ord)]
pub enum RootCoverage {
    Complete,
    Partial,
    Absent,
    NotApplicable,
}

#[derive(Clone, Debug, PartialEq, Eq)]
pub struct RootOutput {
    pub id: RootId,
    pub kind: RootKind,
    pub invocation: RootInvocation,
    pub domain: ReachabilityDomain,
    pub target: String,
    pub module: Option<String>,
    pub resolved: bool,
    pub detail: String,
}

#[derive(Clone, Copy, Debug, PartialEq, Eq, Structural, Hash, PartialOrd, Ord)]
pub enum RootKind {
    ConfiguredModule,
    ConfiguredObject,
    ConsoleScript,
    GuiScript,
    MainGuard,
    PackageMain,
    TestRoot,
    LibrarySurface,
}

#[derive(Clone, Copy, Debug, PartialEq, Eq, Structural, Hash, PartialOrd, Ord)]
pub enum RootInvocation {
    ExecuteModule,
    ExternalUse,
    Call,
}

#[derive(Clone, Copy, Debug, PartialEq, Eq, Structural, Hash, PartialOrd, Ord)]
pub enum ReachabilityDomain {
    Production,
    Test,
    ExternalSurface,
}

#[derive(Clone, Debug, PartialEq, Eq)]
pub struct FindingExport {
    pub public_name: String,
    pub kind: FindingExportKind,
    pub source_module: String,
}

#[derive(Clone, Copy, Debug, PartialEq, Eq, Structural, Hash, PartialOrd, Ord)]
pub enum FindingExportKind {
    ExplicitAll,
    DirectReExport,
    AliasedReExport,
    PackagePublicBinding,
}

#[derive(Clone, Debug, PartialEq, Eq)]
pub struct FindingModeEffect {
    pub mode: ProjectMode,
    pub surface: DefinitionSurface,
    pub confidence_ceiling: FindingConfidence,
    pub reason: String,
}

#[derive(Clone, Copy, Debug, PartialEq, Eq, Structural, Hash, PartialOrd, Ord)]
pub enum DefinitionSurface {
    Exported,
    ModuleProtocolHook,
    SpecialDunder,
    Private,
    Public,
}

#[derive(Clone, Debug, PartialEq, Eq)]
pub struct FindingUncertainty {
    pub kind: FindingUncertaintyKind,
    pub affected_region: UncertaintyRegion,
    pub effects: Vec<UncertaintyEffect>,
    pub detail: String,
}

#[derive(Clone, Copy, Debug, PartialEq, Eq, Structural, Hash, PartialOrd, Ord)]
pub enum FindingUncertaintyKind {
    DynamicClassConstruction,
    DynamicExport,
    DynamicImport,
    DynamicModuleAttribute,
    ExternalImport,
    ImportResolution,
    ModuleGetattr,
    NamespaceOrder,
    PartialInitialization,
    PublicSurfacePolicy,
    RemovalRisk,
    UnsupportedExport,
    UnsupportedNamespace,
    DynamicAttributeRead,
    DynamicExecution,
    NamespaceMutation,
    RuntimeAnnotationIntrospection,
}

/// The part of the program that an uncertainty may affect.
#[derive(Clone, Debug, PartialEq, Eq)]
pub struct UncertaintyRegion {
    pub kind: UncertaintyRegionKind,
    pub target: String,
}

impl UncertaintyRegion {
    /// The namespace of the module `target`.
    pub fn module(target: String) -> (r: Self)
        ensures
            r.kind == UncertaintyRegionKind::ModuleNamespace,
            r.target == target,
    {
        UncertaintyRegion { kind: UncertaintyRegionKind::ModuleNamespace, target }
    }

    /// The definition `target`.
    pub fn definition(target: String) -> (r: Self)
        ensures
            r.kind == UncertaintyRegionKind::Definition,
            r.target == target,
    {
        UncertaintyRegion { kind: UncertaintyRegionKind::Definition, target }
    }

    /// The whole project.
    pub fn project() -> (r: Self)
        ensures
            r.kind == UncertaintyRegionKind::Project,
            r.target@ == "<project>"@,
    {
        UncertaintyRegion { kind: UncertaintyRegionKind::Project, target: "<project>".to_owned() }
    }
}

#[derive(Clone, Copy, Debug, PartialEq, Eq, Structural, Hash, PartialOrd, Ord)]
pub enum UncertaintyRegionKind {
    Definition,
    ExecutionContext,
    ModuleNamespace,
    ExportSurface,
    ObjectValue,
    Project,
}

#[derive(Clone, Copy, Debug, PartialEq, Eq, Structural, Hash, PartialOrd, Ord)]
pub enum UncertaintyEffect {
    MayReadAnyAttribute,
    MayMutateNamespace,
    MayIntroduceReference,
    MayInvokeCallable,
    MayAlterExports,
    MayAlterRoots,
    MayEvaluateAnnotations,
}

#[derive(Clone, Copy, Debug, PartialEq, Eq, Structural)]
pub struct FindingOriginSummary {
    pub origin_domain: OriginDomain,
    pub count: usize,
}

#[derive(Clone, Copy, Debug, PartialEq, Eq, Structural)]
pub struct FindingPhaseSummary {
    pub phase: ReferencePhase,
    pub count: usize,
}

/// What deleting the definition risks, as reported.
#[derive(Clone, Debug, PartialEq, Eq)]
pub enum FindingRemovalRisk {
    NoKnownDefinitionEffects,
    Review { effects: Vec<DefinitionEffectKind> },
    Unknown,
}

impl FindingRemovalRisk {
    /// The reported form of a semantic removal risk, with the effects listed when it needs
    /// review.
    pub fn from_semantic(risk: &RemovalRisk, effects: &[DefinitionEffectKind]) -> (r: Self)
        ensures
            (*risk is NoKnownDefinitionEffects) <==> (r is NoKnownDefinitionEffects),
            (*risk is Unknown) <==> (r is Unknown),
            (*risk is Review) <==> (r is Review),
            r matches FindingRemovalRisk::Review { effects: e } ==> e@ == effects@,
    {
        match risk {
            RemovalRisk::NoKnownDefinitionEffects => FindingRemovalRisk::NoKnownDefinitionEffects,
            RemovalRisk::Review(_) => FindingRemovalRisk::Review {
                effects: vstd::slice::slice_to_vec(effects),
            },
            RemovalRisk::Unknown => FindingRemovalRisk::Unknown,
        }
    }
}

#[derive(Clone, Debug, PartialEq, Eq)]
pub struct DebugBindingsOutput {
    pub schema_version: u32,
    pub target_python: PythonVersion,
    pub project_root: String,
    pub source_roots: Vec<SourceRootOutput>,
    pub modules: Vec<DebugBindingModule>,
    pub scopes: Vec<ScopeFact>,
    pub contexts: Vec<ContextFact>,
    pub symbols: Vec<SymbolFact>,
    pub bindings: Vec<BindingFact>,
    pub definitions: Vec<SemanticDefinition>,
    pub diagnostics: Vec<Diagnostic>,
}

#[derive(Clone, Debug, PartialEq, Eq)]
pub struct DebugBindingModule {
    pub id: ModuleId,
    pub file: FileId,
    pub name: String,
    pub path: String,
    pub future_annotations: bool,
    pub origin_domain: OriginDomain,
    pub origin_evidence: OriginEvidence,
    pub scope: ScopeId,
    pub context: ContextId,
}

#[derive(Clone, Debug, PartialEq, Eq)]
pub struct DebugReferencesOutput {
    pub schema_version: u32,
    pub target_python: PythonVersion,
    pub project_root: String,
    pub source_roots: Vec<SourceRootOutput>,
    pub modules: Vec<DebugBindingModule>,
    pub scopes: Vec<ScopeFact>,
    pub contexts: Vec<ContextFact>,
    pub symbols: Vec<SymbolFact>,
    pub bindings: Vec<BindingFact>,
    pub binding_sets: Vec<BindingSetFact>,
    pub flow_uncertainty_sets: Vec<FlowUncertaintySetFact>,
    pub definitions: Vec<SemanticDefinition>,
    pub references: Vec<ReferenceFact>,
    pub context_flow_statuses: Vec<ContextFlowStatusFact>,
    pub definition_effect_sets: Vec<DefinitionEffectSetFact>,
    pub overload_groups: Vec<OverloadGroupFact>,
    pub internal_candidates: Vec<InternalCandidateFact>,
    pub diagnostics: Vec<Diagnostic>,
}

#[derive(Clone, Debug, PartialEq, Eq)]
pub struct DebugCandidatesOutput {
    pub schema_version: u32,
    pub analysis: CheckAnalysis,
    pub project_root: String,
    pub source_roots: Vec<SourceRootOutput>,
    pub project_completeness: ProjectCompleteness,
    pub candidates: Vec<Candidate>,
    pub diagnostics: Vec<Diagnostic>,
}

#[derive(Clone, Debug, PartialEq, Eq)]
pub struct ExplainOutput {
    pub schema_version: u32,
    pub selector: String,
    pub analysis: CheckAnalysis,
    pub project_root: String,
    pub project_completeness: ProjectCompleteness,
    pub result: ExplainResult,
    pub diagnostics: Vec<Diagnostic>,
}

#[derive(Clone, Debug, PartialEq, Eq)]
pub enum ExplainResult {
    Found { candidate: Box<Candidate> },
    Ambiguous { candidates: Vec<CandidateSummary> },
    NotFound,
}

#[derive(Clone, Debug, PartialEq, Eq)]
pub struct CandidateSummary {
    pub candidate_id: String,
    pub rule_id: FindingRule,
    pub status: CandidateStatus,
    pub confidence: Option<FindingConfidence>,
    pub qualified_name: String,
    pub file: String,
    pub line: u32,
    pub column: u32,
}

#[derive(Clone, Debug, PartialEq, Eq)]
pub struct DebugModule {
    pub name: String,
    pub path: String,
    pub future_annotations: bool,
    pub definitions: Vec<DebugDefinition>,
}

#[derive(Clone, Debug, PartialEq, Eq)]
pub struct DebugDefinition {
    pub kind: DefinitionKind,
    pub name: String,
    pub range: TextRange,
    pub name_range: TextRange,
    pub is_async: bool,
    pub decorator_count: usize,
    pub type_parameter_count: usize,
}

} // verus!
