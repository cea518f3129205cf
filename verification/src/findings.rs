//! The finding policy: how a definition that may be unused is classified, how confident the
//! claim is, what blocks a stronger claim, and the evidence and explanation reported with it.
use vstd::prelude::*;

use std::collections::{BTreeMap, BTreeSet};

use crate::diagnostic::{Diagnostic, DiagnosticSeverity};
use crate::ir::DefinitionKind;
use crate::output::{
    DefinitionSurface, EvidenceKind, EvidenceRecord, Finding, FindingBlocker, FindingBlockerKind,
    FindingConfidence, FindingExport, FindingOriginSummary, FindingPhaseSummary, FindingReachability,
    FindingReachabilityStatus, FindingReference, FindingRemovalRisk, FindingRule, FindingType,
    FindingUncertainty, FindingUncertaintyKind, ProjectCompleteness, ProjectCompletenessStatus,
    ProjectMode, ReachabilityDomain, RootCoverage, RootOutput, SecondaryCondition, UncertaintyEffect,
    CheckSummary,
};
use crate::semantic::{OriginDomain, ReferencePhase, RemovalRisk, SemanticDefinition};
use crate::source::{decimal_spec, decimal_string};
use vstd::string::StringExecFns;
use crate::text::{contains_seq, str_contains, str_ends_with, str_eq, str_starts_with};

verus! {

// ----- module-level uncertainty -----

/// What the project resolver may fail to model about a module.
#[derive(Clone, Copy, Debug, PartialEq, Eq, Structural, Hash, PartialOrd, Ord)]
pub enum Part2Uncertainty {
    DynamicAttributeRead,
    DynamicExecution,
    DynamicExport,
    DynamicImport,
    DynamicModuleAttribute,
    ExternalImport,
    ImportResolution,
    ModuleGetattr,
    NamespaceOrder,
    NamespaceMutation,
    PartialInitialization,
    RuntimeAnnotationIntrospection,
    UnsupportedNamespace,
}

pub open spec fn uncertainty_kind_of(u: Part2Uncertainty) -> FindingUncertaintyKind {
    match u {
        Part2Uncertainty::DynamicAttributeRead => FindingUncertaintyKind::DynamicAttributeRead,
        Part2Uncertainty::DynamicExecution => FindingUncertaintyKind::DynamicExecution,
        Part2Uncertainty::DynamicExport => FindingUncertaintyKind::DynamicExport,
        Part2Uncertainty::DynamicImport => FindingUncertaintyKind::DynamicImport,
        Part2Uncertainty::DynamicModuleAttribute => FindingUncertaintyKind::DynamicModuleAttribute,
        Part2Uncertainty::ExternalImport => FindingUncertaintyKind::ExternalImport,
        Part2Uncertainty::ImportResolution => FindingUncertaintyKind::ImportResolution,
        Part2Uncertainty::ModuleGetattr => FindingUncertaintyKind::ModuleGetattr,
        Part2Uncertainty::NamespaceOrder => FindingUncertaintyKind::NamespaceOrder,
        Part2Uncertainty::NamespaceMutation => FindingUncertaintyKind::NamespaceMutation,
        Part2Uncertainty::PartialInitialization => FindingUncertaintyKind::PartialInitialization,
        Part2Uncertainty::RuntimeAnnotationIntrospection => FindingUncertaintyKind::RuntimeAnnotationIntrospection,
        Part2Uncertainty::UnsupportedNamespace => FindingUncertaintyKind::UnsupportedNamespace,
    }
}

pub open spec fn uncertainty_detail_of(u: Part2Uncertainty) -> Seq<char> {
    match u {
        Part2Uncertainty::DynamicAttributeRead => "dynamic attribute read may reference unknown names in a known namespace"@,
        Part2Uncertainty::DynamicExecution => "dynamic code execution may introduce references in this module"@,
        Part2Uncertainty::DynamicExport => "dynamic export surface may hide references"@,
        Part2Uncertainty::DynamicImport => "dynamic import target is not statically known"@,
        Part2Uncertainty::DynamicModuleAttribute => "dynamic module attribute mutation may affect the namespace"@,
        Part2Uncertainty::ExternalImport => "external import may reference project code through environment behavior"@,
        Part2Uncertainty::ImportResolution => "import resolution is unresolved or unsupported"@,
        Part2Uncertainty::ModuleGetattr => "module __getattr__ may synthesize missing attributes"@,
        Part2Uncertainty::NamespaceOrder => "package attribute order could not be proven"@,
        Part2Uncertainty::NamespaceMutation => "dynamic namespace mutation may add, replace, or delete attributes"@,
        Part2Uncertainty::PartialInitialization => "circular import may observe a partially initialized module"@,
        Part2Uncertainty::RuntimeAnnotationIntrospection => "runtime annotation introspection may evaluate deferred annotation references"@,
        Part2Uncertainty::UnsupportedNamespace => "namespace provider could not be fully modeled"@,
    }
}

pub open spec fn uncertainty_effects_of(u: Part2Uncertainty) -> Seq<UncertaintyEffect> {
    match u {
        Part2Uncertainty::DynamicAttributeRead => seq![UncertaintyEffect::MayReadAnyAttribute, UncertaintyEffect::MayIntroduceReference],
        Part2Uncertainty::DynamicExecution => seq![UncertaintyEffect::MayIntroduceReference, UncertaintyEffect::MayMutateNamespace,
            UncertaintyEffect::MayInvokeCallable],
        Part2Uncertainty::DynamicExport => seq![UncertaintyEffect::MayAlterExports, UncertaintyEffect::MayIntroduceReference],
        Part2Uncertainty::DynamicImport => seq![UncertaintyEffect::MayAlterRoots, UncertaintyEffect::MayIntroduceReference],
        Part2Uncertainty::DynamicModuleAttribute | Part2Uncertainty::ModuleGetattr => seq![UncertaintyEffect::MayReadAnyAttribute],
        Part2Uncertainty::NamespaceMutation => seq![UncertaintyEffect::MayMutateNamespace, UncertaintyEffect::MayIntroduceReference],
        Part2Uncertainty::ExternalImport | Part2Uncertainty::ImportResolution | Part2Uncertainty::UnsupportedNamespace =>
            seq![UncertaintyEffect::MayIntroduceReference, UncertaintyEffect::MayAlterRoots],
        Part2Uncertainty::NamespaceOrder | Part2Uncertainty::PartialInitialization => seq![UncertaintyEffect::MayIntroduceReference],
        Part2Uncertainty::RuntimeAnnotationIntrospection => seq![UncertaintyEffect::MayEvaluateAnnotations],
    }
}

impl Part2Uncertainty {
    /// The uncertainty kind reported for it.
    pub fn output_kind(self) -> (k: FindingUncertaintyKind)
        ensures
            k == uncertainty_kind_of(self),
    {
        match self {
            Part2Uncertainty::DynamicAttributeRead => FindingUncertaintyKind::DynamicAttributeRead,
            Part2Uncertainty::DynamicExecution => FindingUncertaintyKind::DynamicExecution,
            Part2Uncertainty::DynamicExport => FindingUncertaintyKind::DynamicExport,
            Part2Uncertainty::DynamicImport => FindingUncertaintyKind::DynamicImport,
            Part2Uncertainty::DynamicModuleAttribute => FindingUncertaintyKind::DynamicModuleAttribute,
            Part2Uncertainty::ExternalImport => FindingUncertaintyKind::ExternalImport,
            Part2Uncertainty::ImportResolution => FindingUncertaintyKind::ImportResolution,
            Part2Uncertainty::ModuleGetattr => FindingUncertaintyKind::ModuleGetattr,
            Part2Uncertainty::NamespaceOrder => FindingUncertaintyKind::NamespaceOrder,
            Part2Uncertainty::NamespaceMutation => FindingUncertaintyKind::NamespaceMutation,
            Part2Uncertainty::PartialInitialization => FindingUncertaintyKind::PartialInitialization,
            Part2Uncertainty::RuntimeAnnotationIntrospection => FindingUncertaintyKind::RuntimeAnnotationIntrospection,
            Part2Uncertainty::UnsupportedNamespace => FindingUncertaintyKind::UnsupportedNamespace,
        }
    }

    /// The reported description of the uncertainty.
    pub fn detail(self) -> (d: &'static str)
        ensures
            d@ == uncertainty_detail_of(self),
    {
        match self {
            Part2Uncertainty::DynamicAttributeRead => "dynamic attribute read may reference unknown names in a known namespace",
            Part2Uncertainty::DynamicExecution => "dynamic code execution may introduce references in this module",
            Part2Uncertainty::DynamicExport => "dynamic export surface may hide references",
            Part2Uncertainty::DynamicImport => "dynamic import target is not statically known",
            Part2Uncertainty::DynamicModuleAttribute => "dynamic module attribute mutation may affect the namespace",
            Part2Uncertainty::ExternalImport => "external import may reference project code through environment behavior",
            Part2Uncertainty::ImportResolution => "import resolution is unresolved or unsupported",
            Part2Uncertainty::ModuleGetattr => "module __getattr__ may synthesize missing attributes",
            Part2Uncertainty::NamespaceOrder => "package attribute order could not be proven",
            Part2Uncertainty::NamespaceMutation => "dynamic namespace mutation may add, replace, or delete attributes",
            Part2Uncertainty::PartialInitialization => "circular import may observe a partially initialized module",
            Part2Uncertainty::RuntimeAnnotationIntrospection => "runtime annotation introspection may evaluate deferred annotation references",
            Part2Uncertainty::UnsupportedNamespace => "namespace provider could not be fully modeled",
        }
    }

    /// What the uncertainty may do to the analysis.
    pub fn effects(self) -> (e: Vec<UncertaintyEffect>)
        ensures
            e@ == uncertainty_effects_of(self),
    {
        let e = match self {
            Part2Uncertainty::DynamicAttributeRead => vec![UncertaintyEffect::MayReadAnyAttribute, UncertaintyEffect::MayIntroduceReference],
            Part2Uncertainty::DynamicExecution => vec![UncertaintyEffect::MayIntroduceReference, UncertaintyEffect::MayMutateNamespace,
                UncertaintyEffect::MayInvokeCallable],
            Part2Uncertainty::DynamicExport => vec![UncertaintyEffect::MayAlterExports, UncertaintyEffect::MayIntroduceReference],
            Part2Uncertainty::DynamicImport => vec![UncertaintyEffect::MayAlterRoots, UncertaintyEffect::MayIntroduceReference],
            Part2Uncertainty::DynamicModuleAttribute | Part2Uncertainty::ModuleGetattr => vec![UncertaintyEffect::MayReadAnyAttribute],
            Part2Uncertainty::NamespaceMutation => vec![UncertaintyEffect::MayMutateNamespace, UncertaintyEffect::MayIntroduceReference],
            Part2Uncertainty::ExternalImport | Part2Uncertainty::ImportResolution | Part2Uncertainty::UnsupportedNamespace =>
                vec![UncertaintyEffect::MayIntroduceReference, UncertaintyEffect::MayAlterRoots],
            Part2Uncertainty::NamespaceOrder | Part2Uncertainty::PartialInitialization => vec![UncertaintyEffect::MayIntroduceReference],
            Part2Uncertainty::RuntimeAnnotationIntrospection => vec![UncertaintyEffect::MayEvaluateAnnotations],
        };
        assert(e@ =~= uncertainty_effects_of(self));
        e
    }
}

// ----- names -----

/// A name that does not start with `_`.
pub fn is_public_name(name: &str) -> (yes: bool)
    ensures
        yes == !(name@.len() > 0 && name@[0] == '_'),
{
    proof {
        reveal_strlit("_");
    }
    let yes = !str_starts_with(name, "_");
    proof {
        assert("_"@.len() == 1 && "_"@[0] == '_');
        if name@.len() > 0 && name@[0] == '_' {
            assert(name@.take(1) =~= "_"@);
            assert("_"@.is_prefix_of(name@));
        }
        if "_"@.is_prefix_of(name@) {
            assert(name@.take(1)[0] == name@[0]);
        }
    }
    yes
}

/// A name of the form `__x__` with something between the underscores.
pub open spec fn is_dunder_spec(name: Seq<char>) -> bool {
    &&& "__"@.is_prefix_of(name)
    &&& name.len() >= 2 && name.subrange(name.len() - 2, name.len() as int) == "__"@
    &&& vstd::utf8::encode_utf8(name).len() > 4
}

/// Whether `name` has the form `__x__`.
pub fn is_dunder(name: &str) -> (yes: bool)
    ensures
        yes == is_dunder_spec(name@),
{
    proof {
        reveal_strlit("__");
        assert("__"@.len() == 2);
    }
    let starts = str_starts_with(name, "__");
    let ends = str_ends_with(name, "__");
    let long = name.as_bytes().len() > 4;
    starts && ends && long
}

/// How a definition is exposed: exported, a module protocol hook (`__getattr__`, `__dir__`),
/// a special dunder, private (leading `_`) or public.
pub open spec fn surface_of(name: Seq<char>, exported: bool) -> DefinitionSurface {
    if exported {
        DefinitionSurface::Exported
    } else if name == "__getattr__"@ || name == "__dir__"@ {
        DefinitionSurface::ModuleProtocolHook
    } else if is_dunder_spec(name) {
        DefinitionSurface::SpecialDunder
    } else if name.len() > 0 && name[0] == '_' {
        DefinitionSurface::Private
    } else {
        DefinitionSurface::Public
    }
}

/// How a definition is exposed.
pub fn definition_surface(definition: &SemanticDefinition, exported: bool) -> (s: DefinitionSurface)
    ensures
        s == surface_of(definition.name@, exported),
{
    if exported {
        return DefinitionSurface::Exported;
    }
    let name = definition.name.as_str();
    if str_eq(name, "__getattr__") || str_eq(name, "__dir__") {
        return DefinitionSurface::ModuleProtocolHook;
    }
    if is_dunder(name) {
        return DefinitionSurface::SpecialDunder;
    }
    if is_public_name(name) {
        DefinitionSurface::Public
    } else {
        DefinitionSurface::Private
    }
}

// ----- confidence -----

/// The confidence a surface allows under a mode, with the reason.
pub open spec fn surface_confidence(mode: ProjectMode, surface: DefinitionSurface) -> (FindingConfidence, Seq<char>) {
    match surface {
        DefinitionSurface::Private => (FindingConfidence::High,
            "private definition has no inbound references under Cull's static model"@),
        DefinitionSurface::Public => if mode == ProjectMode::Application {
            (FindingConfidence::High, "application mode allows public definitions to be high confidence"@)
        } else {
            (FindingConfidence::Review, "public definition is conservative outside explicit application mode"@)
        },
        DefinitionSurface::SpecialDunder => (FindingConfidence::Review, "special dunder definitions are at most Review"@),
        _ => (FindingConfidence::Review, "surface is not normally reportable"@),
    }
}

/// The confidence a surface allows under a mode, with the reason.
pub fn confidence_for_surface(mode: ProjectMode, surface: DefinitionSurface) -> (r: (FindingConfidence, String))
    ensures
        r.0 == surface_confidence(mode, surface).0,
        r.1@ == surface_confidence(mode, surface).1,
{
    match surface {
        DefinitionSurface::Private => (FindingConfidence::High,
            "private definition has no inbound references under Cull's static model".to_owned()),
        DefinitionSurface::Public => if mode == ProjectMode::Application {
            (FindingConfidence::High, "application mode allows public definitions to be high confidence".to_owned())
        } else {
            (FindingConfidence::Review, "public definition is conservative outside explicit application mode".to_owned())
        },
        DefinitionSurface::SpecialDunder => (FindingConfidence::Review, "special dunder definitions are at most Review".to_owned()),
        _ => (FindingConfidence::Review, "surface is not normally reportable".to_owned()),
    }
}

/// The confidence of a finding: that of its surface, lowered to `Review` for a root-unreachable
/// claim without complete root coverage (except for libraries, whose roots do not apply), and
/// always in auto mode unless the coverage is complete.
pub open spec fn finding_confidence(
    mode: ProjectMode,
    surface: DefinitionSurface,
    finding_type: FindingType,
    root_coverage: RootCoverage,
) -> (FindingConfidence, Seq<char>) {
    let base = surface_confidence(mode, surface);
    if finding_type != FindingType::RootUnreachable {
        base
    } else if mode == ProjectMode::Auto && root_coverage != RootCoverage::Complete {
        (FindingConfidence::Review, "auto mode requires complete production roots for high-confidence CULL003/CULL004"@)
    } else {
        match root_coverage {
            RootCoverage::Complete => base,
            RootCoverage::Partial => (FindingConfidence::Review,
                "partial root coverage prevents a high-confidence root-unreachable claim"@),
            RootCoverage::Absent => (FindingConfidence::Review,
                "absent root coverage disables high-confidence root-unreachable claims"@),
            RootCoverage::NotApplicable => if mode == ProjectMode::Library {
                base
            } else {
                (FindingConfidence::Review, "root coverage is not applicable in this mode"@)
            },
        }
    }
}

/// The confidence of a finding, with the reason.
pub fn confidence_for_finding(
    mode: ProjectMode,
    surface: DefinitionSurface,
    finding_type: FindingType,
    root_coverage: RootCoverage,
) -> (r: (FindingConfidence, String))
    ensures
        r.0 == finding_confidence(mode, surface, finding_type, root_coverage).0,
        r.1@ == finding_confidence(mode, surface, finding_type, root_coverage).1,
{
    let (mut confidence, mut reason) = confidence_for_surface(mode, surface);
    if finding_type == FindingType::RootUnreachable {
        match root_coverage {
            RootCoverage::Complete => {},
            RootCoverage::Partial => {
                confidence = FindingConfidence::Review;
                reason = "partial root coverage prevents a high-confidence root-unreachable claim".to_owned();
            },
            RootCoverage::Absent => {
                confidence = FindingConfidence::Review;
                reason = "absent root coverage disables high-confidence root-unreachable claims".to_owned();
            },
            RootCoverage::NotApplicable => {
                if mode != ProjectMode::Library {
                    confidence = FindingConfidence::Review;
                    reason = "root coverage is not applicable in this mode".to_owned();
                }
            },
        }
        if mode == ProjectMode::Auto && root_coverage != RootCoverage::Complete {
            confidence = FindingConfidence::Review;
            reason = "auto mode requires complete production roots for high-confidence CULL003/CULL004".to_owned();
        }
    }
    (confidence, reason)
}

/// The kind of blocker a confidence reason stands for: root coverage, public-surface policy,
/// or otherwise analysis uncertainty.
pub open spec fn blocker_kind_of(reason: Seq<char>) -> FindingBlockerKind {
    if contains_seq(reason, "root coverage"@) || contains_seq(reason, "production roots"@) {
        FindingBlockerKind::RootCoverage
    } else if contains_seq(reason, "public"@) || contains_seq(reason, "dunder"@) || contains_seq(reason, "surface"@)
        || contains_seq(reason, "mode"@) {
        FindingBlockerKind::PublicSurfacePolicy
    } else {
        FindingBlockerKind::AnalysisUncertainty
    }
}

/// The kind of blocker a confidence reason stands for.
pub fn blocker_kind_for_reason(reason: &str) -> (k: FindingBlockerKind)
    ensures
        k == blocker_kind_of(reason@),
{
    if str_contains(reason, "root coverage") || str_contains(reason, "production roots") {
        FindingBlockerKind::RootCoverage
    } else if str_contains(reason, "public") || str_contains(reason, "dunder") || str_contains(reason, "surface")
        || str_contains(reason, "mode") {
        FindingBlockerKind::PublicSurfacePolicy
    } else {
        FindingBlockerKind::AnalysisUncertainty
    }
}

// ----- secondary conditions -----

/// The rule alternatives a finding also satisfies.
pub open spec fn secondary_conditions_of(
    finding_type: FindingType,
    has_inbound: bool,
    root_unreachable_enabled: bool,
    force_root_unreachable: bool,
) -> Seq<SecondaryCondition> {
    match finding_type {
        FindingType::RootUnreachable => if !has_inbound || force_root_unreachable {
            seq![SecondaryCondition::AlsoUnreferenced]
        } else {
            Seq::empty()
        },
        FindingType::Unreferenced => if root_unreachable_enabled {
            seq![SecondaryCondition::AlsoRootUnreachable]
        } else {
            Seq::empty()
        },
    }
}

/// The rule alternatives a finding also satisfies.
pub fn secondary_conditions_for(
    finding_type: FindingType,
    has_inbound: bool,
    root_unreachable_enabled: bool,
    force_root_unreachable: bool,
) -> (c: Vec<SecondaryCondition>)
    ensures
        c@ == secondary_conditions_of(finding_type, has_inbound, root_unreachable_enabled, force_root_unreachable),
{
    let c = match finding_type {
        FindingType::RootUnreachable => if !has_inbound || force_root_unreachable {
            vec![SecondaryCondition::AlsoUnreferenced]
        } else {
            Vec::new()
        },
        FindingType::Unreferenced => if root_unreachable_enabled {
            vec![SecondaryCondition::AlsoRootUnreachable]
        } else {
            Vec::new()
        },
    };
    assert(c@ =~= secondary_conditions_of(finding_type, has_inbound, root_unreachable_enabled, force_root_unreachable));
    c
}

/// The rule and type of a secondary condition for a definition kind.
pub open spec fn secondary_rule_of(condition: SecondaryCondition, kind: DefinitionKind) -> (FindingRule, FindingType) {
    match (condition, kind) {
        (SecondaryCondition::AlsoUnreferenced, DefinitionKind::Function) => (FindingRule::Cull001, FindingType::Unreferenced),
        (SecondaryCondition::AlsoUnreferenced, DefinitionKind::Class) => (FindingRule::Cull002, FindingType::Unreferenced),
        (SecondaryCondition::AlsoRootUnreachable, DefinitionKind::Function) => (FindingRule::Cull003, FindingType::RootUnreachable),
        (SecondaryCondition::AlsoRootUnreachable, DefinitionKind::Class) => (FindingRule::Cull004, FindingType::RootUnreachable),
    }
}

/// The rule and type of a secondary condition for a definition kind.
pub fn secondary_rule_for(condition: SecondaryCondition, kind: DefinitionKind) -> (r: (FindingRule, FindingType))
    ensures
        r == secondary_rule_of(condition, kind),
{
    match (condition, kind) {
        (SecondaryCondition::AlsoUnreferenced, DefinitionKind::Function) => (FindingRule::Cull001, FindingType::Unreferenced),
        (SecondaryCondition::AlsoUnreferenced, DefinitionKind::Class) => (FindingRule::Cull002, FindingType::Unreferenced),
        (SecondaryCondition::AlsoRootUnreachable, DefinitionKind::Function) => (FindingRule::Cull003, FindingType::RootUnreachable),
        (SecondaryCondition::AlsoRootUnreachable, DefinitionKind::Class) => (FindingRule::Cull004, FindingType::RootUnreachable),
    }
}

/// The primary rule of a finding.
pub open spec fn primary_rule_of(kind: DefinitionKind, finding_type: FindingType) -> FindingRule {
    match (kind, finding_type) {
        (DefinitionKind::Function, FindingType::Unreferenced) => FindingRule::Cull001,
        (DefinitionKind::Class, FindingType::Unreferenced) => FindingRule::Cull002,
        (DefinitionKind::Function, FindingType::RootUnreachable) => FindingRule::Cull003,
        (DefinitionKind::Class, FindingType::RootUnreachable) => FindingRule::Cull004,
    }
}

// ----- positions -----

/// The one-based line and column of byte `start` of `b`: lines end at `\n`, and each other
/// byte advances the column.
pub open spec fn line_column_spec(b: Seq<u8>, start: int) -> (int, int)
    decreases start,
{
    if start <= 0 || b.len() == 0 {
        (1, 1)
    } else if start > b.len() {
        line_column_spec(b, b.len() as int)
    } else {
        let prev = line_column_spec(b, start - 1);
        if b[start - 1] == 10u8 {
            (prev.0 + 1, 1)
        } else {
            (prev.0, prev.1 + 1)
        }
    }
}

proof fn lemma_line_column_bounds(b: Seq<u8>, start: int)
    requires
        0 <= start <= b.len(),
    ensures
        1 <= line_column_spec(b, start).0 <= start + 1,
        1 <= line_column_spec(b, start).1 <= start + 1,
    decreases start,
{
    if start > 0 {
        lemma_line_column_bounds(b, start - 1);
    }
}

/// The one-based line and column of byte `byte_start` of `source`, whose length the 32-bit
/// counters bound.
pub fn line_column(source: &str, byte_start: u32) -> (r: (u32, u32))
    requires
        vstd::utf8::encode_utf8(source@).len() < u32::MAX,
    ensures
        r.0 == line_column_spec(vstd::utf8::encode_utf8(source@), byte_start as int).0,
        r.1 == line_column_spec(vstd::utf8::encode_utf8(source@), byte_start as int).1,
{
    let bytes = source.as_bytes();
    let ghost b = bytes@;
    assert(b == vstd::utf8::encode_utf8(source@));
    let mut line: u32 = 1;
    let mut column: u32 = 1;
    let mut index: usize = 0;
    while index < bytes.len() && (index as u32) < byte_start
        invariant
            b == bytes@,
            b.len() < u32::MAX,
            0 <= index <= b.len(),
            index <= byte_start,
            (line as int, column as int) == line_column_spec(b, index as int),
        decreases b.len() - index,
    {
        proof {
            lemma_line_column_bounds(b, index as int);
        }
        if bytes[index] == 10u8 {
            line = line + 1;
            column = 1;
        } else {
            column = column + 1;
        }
        index = index + 1;
    }
    (line, column)
}

// ----- reachability -----

/// What the reachability analysis found: the roots, and the definitions and contexts reached
/// from production, test and external-surface roots.
pub struct ReachabilityAnalysis {
    pub root_coverage: RootCoverage,
    pub roots: Vec<RootOutput>,
    pub production_values: BTreeSet<u32>,
    pub production_contexts: BTreeSet<u32>,
    pub test_values: BTreeSet<u32>,
    pub test_contexts: BTreeSet<u32>,
    pub external_values: BTreeSet<u32>,
    pub external_contexts: BTreeSet<u32>,
    pub graph_edges: BTreeMap<u32, Vec<u32>>,
    pub dynamic_class_construction: BTreeSet<u32>,
}

/// A function is reached when its body's context is; a class when its value is.
pub open spec fn reached_in(values: Set<u32>, contexts: Set<u32>, d: SemanticDefinition) -> bool {
    match d.kind {
        DefinitionKind::Function => contexts.contains(d.context.0),
        DefinitionKind::Class => values.contains(d.id.0),
    }
}

pub open spec fn production_reached(r: ReachabilityAnalysis, d: SemanticDefinition) -> bool {
    reached_in(r.production_values@, r.production_contexts@, d)
}

pub open spec fn test_reached(r: ReachabilityAnalysis, d: SemanticDefinition) -> bool {
    reached_in(r.test_values@, r.test_contexts@, d)
}

pub open spec fn external_reached(r: ReachabilityAnalysis, d: SemanticDefinition) -> bool {
    reached_in(r.external_values@, r.external_contexts@, d)
}

/// The targets of the resolved production roots, in order.
pub open spec fn considered_targets(roots: Seq<RootOutput>) -> Seq<Seq<char>>
    decreases roots.len(),
{
    if roots.len() == 0 {
        Seq::empty()
    } else {
        let prev = considered_targets(roots.drop_last());
        if roots.last().domain == ReachabilityDomain::Production && roots.last().resolved {
            prev.push(roots.last().target@)
        } else {
            prev
        }
    }
}

fn reached(values: &BTreeSet<u32>, contexts: &BTreeSet<u32>, d: &SemanticDefinition) -> (yes: bool)
    ensures
        yes == reached_in(values@, contexts@, *d),
{
    match d.kind {
        DefinitionKind::Function => contexts.contains(&d.context.0),
        DefinitionKind::Class => values.contains(&d.id.0),
    }
}

impl ReachabilityAnalysis {
    /// Whether production roots reach the definition.
    pub fn production_reachable(&self, definition: &SemanticDefinition) -> (yes: bool)
        ensures
            yes == production_reached(*self, *definition),
    {
        reached(&self.production_values, &self.production_contexts, definition)
    }

    /// Whether test roots reach the definition.
    pub fn test_reachable(&self, definition: &SemanticDefinition) -> (yes: bool)
        ensures
            yes == test_reached(*self, *definition),
    {
        reached(&self.test_values, &self.test_contexts, definition)
    }

    /// Whether the external surface reaches the definition.
    pub fn external_surface_reachable(&self, definition: &SemanticDefinition) -> (yes: bool)
        ensures
            yes == external_reached(*self, *definition),
    {
        reached(&self.external_values, &self.external_contexts, definition)
    }

    /// The targets of the resolved production roots.
    pub fn roots_considered(&self) -> (targets: Vec<String>)
        ensures
            targets@.len() == considered_targets(self.roots@).len(),
            forall|k: int| 0 <= k < targets@.len() ==> (#[trigger] targets@[k])@ == considered_targets(self.roots@)[k],
    {
        let mut targets: Vec<String> = Vec::new();
        let mut k: usize = 0;
        while k < self.roots.len()
            invariant
                0 <= k <= self.roots@.len(),
                targets@.len() == considered_targets(self.roots@.take(k as int)).len(),
                forall|j: int| 0 <= j < targets@.len() ==> (#[trigger] targets@[j])@ == considered_targets(self.roots@.take(k as int))[j],
            decreases self.roots@.len() - k,
        {
            proof {
                assert(self.roots@.take(k + 1).drop_last() =~= self.roots@.take(k as int));
            }
            let root = &self.roots[k];
            if root.domain == ReachabilityDomain::Production && root.resolved {
                targets.push(root.target.clone());
            }
            k = k + 1;
        }
        assert(self.roots@.take(self.roots@.len() as int) =~= self.roots@);
        targets
    }
}

/// A definition counts as used when production roots reach it, when the external surface
/// does outside application mode, or, in library mode, when it is exported or public.
pub open spec fn effectively_reachable(
    d: SemanticDefinition,
    r: ReachabilityAnalysis,
    mode: ProjectMode,
    surface: DefinitionSurface,
) -> bool {
    ||| production_reached(r, d)
    ||| (mode != ProjectMode::Application && external_reached(r, d))
    ||| (mode == ProjectMode::Library && (surface == DefinitionSurface::Exported || surface == DefinitionSurface::Public))
}

/// Whether a definition counts as used.
pub fn is_effectively_reachable(
    definition: &SemanticDefinition,
    reachability: &ReachabilityAnalysis,
    mode: ProjectMode,
    surface: DefinitionSurface,
) -> (yes: bool)
    ensures
        yes == effectively_reachable(*definition, *reachability, mode, surface),
{
    if reachability.production_reachable(definition) {
        return true;
    }
    if mode != ProjectMode::Application && reachability.external_surface_reachable(definition) {
        return true;
    }
    if mode == ProjectMode::Library {
        return surface == DefinitionSurface::Exported || surface == DefinitionSurface::Public;
    }
    false
}

/// The reported reachability status of a finding.
pub open spec fn reachability_status(r: ReachabilityAnalysis, mode: ProjectMode, finding_type: FindingType) -> FindingReachabilityStatus {
    if finding_type == FindingType::Unreferenced && r.root_coverage == RootCoverage::Absent {
        FindingReachabilityStatus::NotComputed
    } else if finding_type == FindingType::Unreferenced && mode == ProjectMode::Library {
        FindingReachabilityStatus::NotApplicable
    } else {
        FindingReachabilityStatus::NoRuntimePath
    }
}

/// The reported summary of a definition's reachability.
pub open spec fn reachability_summary(r: ReachabilityAnalysis, d: SemanticDefinition, mode: ProjectMode) -> Seq<char> {
    "no runtime path was found in Cull's static reachability graph from recognized roots"@
        + (if test_reached(r, d) && !production_reached(r, d) {
            "; the definition is reachable only from test roots"@
        } else {
            Seq::empty()
        }) + (if external_reached(r, d) && mode != ProjectMode::Application {
            "; the definition is protected by external-surface reachability"@
        } else {
            Seq::empty()
        })
}

/// The reachability reported with a finding.
pub fn reachability_for_finding(
    definition: &SemanticDefinition,
    reachability: &ReachabilityAnalysis,
    mode: ProjectMode,
    finding_type: FindingType,
) -> (out: FindingReachability)
    ensures
        out.status == reachability_status(*reachability, mode, finding_type),
        out.root_coverage == reachability.root_coverage,
        out.production_reachable == production_reached(*reachability, *definition),
        out.test_reachable == test_reached(*reachability, *definition),
        out.external_surface_reachable == external_reached(*reachability, *definition),
        out.roots_considered@.len() == considered_targets(reachability.roots@).len(),
        forall|k: int| 0 <= k < out.roots_considered@.len() ==> (#[trigger] out.roots_considered@[k])@
            == considered_targets(reachability.roots@)[k],
        out.summary@ == reachability_summary(*reachability, *definition, mode),
{
    let production_reachable = reachability.production_reachable(definition);
    let test_reachable = reachability.test_reachable(definition);
    let external_surface_reachable = reachability.external_surface_reachable(definition);
    let status = if finding_type == FindingType::Unreferenced && reachability.root_coverage == RootCoverage::Absent {
        FindingReachabilityStatus::NotComputed
    } else if finding_type == FindingType::Unreferenced && mode == ProjectMode::Library {
        FindingReachabilityStatus::NotApplicable
    } else {
        FindingReachabilityStatus::NoRuntimePath
    };
    let mut summary = <String as StringExecFns>::from_str(
        "no runtime path was found in Cull's static reachability graph from recognized roots",
    );
    let ghost first = summary@;
    if test_reachable && !production_reachable {
        summary.append("; the definition is reachable only from test roots");
    }
    let ghost second = summary@;
    if external_surface_reachable && mode != ProjectMode::Application {
        summary.append("; the definition is protected by external-surface reachability");
    }
    proof {
        assert(summary@ =~= reachability_summary(*reachability, *definition, mode));
    }
    FindingReachability {
        status,
        root_coverage: reachability.root_coverage,
        production_reachable,
        test_reachable,
        external_surface_reachable,
        roots_considered: reachability.roots_considered(),
        summary,
    }
}

// ----- names of values in reports -----

pub open spec fn surface_name(s: DefinitionSurface) -> Seq<char> {
    match s {
        DefinitionSurface::Exported => "Exported"@,
        DefinitionSurface::ModuleProtocolHook => "ModuleProtocolHook"@,
        DefinitionSurface::SpecialDunder => "SpecialDunder"@,
        DefinitionSurface::Private => "Private"@,
        DefinitionSurface::Public => "Public"@,
    }
}

fn surface_name_str(s: DefinitionSurface) -> (n: &'static str)
    ensures
        n@ == surface_name(s),
{
    match s {
        DefinitionSurface::Exported => "Exported",
        DefinitionSurface::ModuleProtocolHook => "ModuleProtocolHook",
        DefinitionSurface::SpecialDunder => "SpecialDunder",
        DefinitionSurface::Private => "Private",
        DefinitionSurface::Public => "Public",
    }
}

pub open spec fn coverage_name(c: RootCoverage) -> Seq<char> {
    match c {
        RootCoverage::Complete => "Complete"@,
        RootCoverage::Partial => "Partial"@,
        RootCoverage::Absent => "Absent"@,
        RootCoverage::NotApplicable => "NotApplicable"@,
    }
}

fn coverage_name_str(c: RootCoverage) -> (n: &'static str)
    ensures
        n@ == coverage_name(c),
{
    match c {
        RootCoverage::Complete => "Complete",
        RootCoverage::Partial => "Partial",
        RootCoverage::Absent => "Absent",
        RootCoverage::NotApplicable => "NotApplicable",
    }
}

/// `prefix` followed by `name`, as a new string.
fn labelled(prefix: &str, name: &str) -> (s: String)
    ensures
        s@ == prefix@ + name@,
{
    let mut s = <String as StringExecFns>::from_str(prefix);
    s.append(name);
    s
}

// ----- explanation -----

/// The explanation lines of a finding.
pub open spec fn explanation_lines(
    d: SemanticDefinition,
    confidence: FindingConfidence,
    surface: DefinitionSurface,
    finding_type: FindingType,
    dead_cluster_override: bool,
    r: ReachabilityAnalysis,
) -> Seq<Seq<char>> {
    (match finding_type {
        FindingType::Unreferenced => seq!["no resolved inbound references were found"@],
        FindingType::RootUnreachable => seq![
            "resolved inbound references exist or the definition is part of a dead cluster"@,
            "no production runtime path was found from recognized roots"@,
        ],
    }) + seq!["definition surface: "@ + surface_name(surface), "root coverage: "@ + coverage_name(r.root_coverage)]
        + (if test_reached(r, d) && !production_reached(r, d) {
        seq!["definition is reachable only from test roots"@]
    } else {
        Seq::empty()
    }) + (if dead_cluster_override {
        seq!["dead-cluster priority classified this weak unreachable component as root-unreachable"@]
    } else {
        Seq::empty()
    }) + (if confidence == FindingConfidence::Review {
        seq!["mode or uncertainty prevents a high-confidence claim"@]
    } else {
        Seq::empty()
    }) + (if d.removal_risk != RemovalRisk::NoKnownDefinitionEffects {
        seq!["removal risk is reported separately from unusedness"@]
    } else {
        Seq::empty()
    })
}

pub open spec fn string_views(s: Seq<String>) -> Seq<Seq<char>> {
    s.map_values(|x: String| x@)
}

/// Appends a line.
fn push_line(lines: &mut Vec<String>, line: String)
    ensures
        string_views(final(lines)@) == string_views(old(lines)@).push(line@),
{
    lines.push(line);
    assert(string_views(lines@) =~= string_views(old(lines)@).push(line@));
}

/// The explanation reported with a finding.
pub fn explanation_for(
    definition: &SemanticDefinition,
    confidence: FindingConfidence,
    surface: DefinitionSurface,
    finding_type: FindingType,
    dead_cluster_override: bool,
    reachability: &ReachabilityAnalysis,
) -> (lines: Vec<String>)
    ensures
        string_views(lines@) == explanation_lines(*definition, confidence, surface, finding_type, dead_cluster_override, *reachability),
{
    let mut lines: Vec<String> = Vec::new();
    match finding_type {
        FindingType::Unreferenced => {
            push_line(&mut lines, "no resolved inbound references were found".to_owned());
        },
        FindingType::RootUnreachable => {
            push_line(&mut lines, "resolved inbound references exist or the definition is part of a dead cluster".to_owned());
            push_line(&mut lines, "no production runtime path was found from recognized roots".to_owned());
        },
    }
    push_line(&mut lines, labelled("definition surface: ", surface_name_str(surface)));
    push_line(&mut lines, labelled("root coverage: ", coverage_name_str(reachability.root_coverage)));
    if reachability.test_reachable(definition) && !reachability.production_reachable(definition) {
        push_line(&mut lines, "definition is reachable only from test roots".to_owned());
    }
    if dead_cluster_override {
        push_line(&mut lines, "dead-cluster priority classified this weak unreachable component as root-unreachable".to_owned());
    }
    if confidence == FindingConfidence::Review {
        push_line(&mut lines, "mode or uncertainty prevents a high-confidence claim".to_owned());
    }
    let risky = match definition.removal_risk {
        RemovalRisk::NoKnownDefinitionEffects => false,
        _ => true,
    };
    if risky {
        push_line(&mut lines, "removal risk is reported separately from unusedness".to_owned());
    }
    proof {
        assert(string_views(lines@) =~= explanation_lines(*definition, confidence, surface, finding_type,
            dead_cluster_override, *reachability));
    }
    lines
}

// ----- summaries -----

/// The number of findings with the given confidence.
pub open spec fn count_confidence(findings: Seq<Finding>, c: FindingConfidence) -> nat
    decreases findings.len(),
{
    if findings.len() == 0 {
        0
    } else {
        count_confidence(findings.drop_last(), c) + if findings.last().confidence == c { 1nat } else { 0nat }
    }
}

/// The number of secondary conditions over all findings.
pub open spec fn count_secondary(findings: Seq<Finding>) -> nat
    decreases findings.len(),
{
    if findings.len() == 0 {
        0
    } else {
        count_secondary(findings.drop_last()) + findings.last().secondary_conditions@.len()
    }
}

proof fn lemma_count_confidence_bound(findings: Seq<Finding>, c: FindingConfidence)
    ensures
        count_confidence(findings, c) <= findings.len(),
    decreases findings.len(),
{
    if findings.len() > 0 {
        lemma_count_confidence_bound(findings.drop_last(), c);
    }
}

proof fn lemma_count_secondary_monotone(findings: Seq<Finding>, k: int)
    requires
        0 <= k <= findings.len(),
    ensures
        count_secondary(findings.take(k)) <= count_secondary(findings),
    decreases findings.len() - k,
{
    if k < findings.len() {
        lemma_count_secondary_monotone(findings, k + 1);
        assert(findings.take(k + 1).drop_last() =~= findings.take(k));
    } else {
        assert(findings.take(k) =~= findings);
    }
}

/// How many findings are high confidence, how many need review, and how many rule
/// alternatives were suppressed.
/// Every finding is either high-confidence or for review, so the two counts add up to the
/// number of findings.
pub proof fn lemma_confidence_counts_cover(findings: Seq<Finding>)
    ensures
        count_confidence(findings, FindingConfidence::High) + count_confidence(findings, FindingConfidence::Review)
            == findings.len(),
    decreases findings.len(),
{
    if findings.len() > 0 {
        lemma_confidence_counts_cover(findings.drop_last());
    }
}

/// `s` counts the findings `fs`: high-confidence ones, ones for review, and their secondary
/// conditions (each a suppressed rule alternative).
pub open spec fn summary_of(fs: Seq<Finding>, s: CheckSummary) -> bool {
    &&& s.high_confidence == count_confidence(fs, FindingConfidence::High)
    &&& s.review == count_confidence(fs, FindingConfidence::Review)
    &&& s.suppressed == count_secondary(fs)
}

/// The counts of a check's summary: high-confidence findings, findings for review (together
/// all the findings), and suppressed rule alternatives, one per secondary condition; the
/// candidate list of the same findings holds exactly that many suppressed candidates (see
/// `candidates_from_check` and `lemma_summary_matches_candidates`).
pub fn summarize_findings(findings: &Vec<Finding>) -> (s: CheckSummary)
    requires
        count_secondary(findings@) <= usize::MAX,
    ensures
        s.high_confidence == count_confidence(findings@, FindingConfidence::High),
        s.review == count_confidence(findings@, FindingConfidence::Review),
        s.suppressed == count_secondary(findings@),
        s.high_confidence + s.review == findings@.len(),
        summary_of(findings@, s),
{
    let mut high: usize = 0;
    let mut review: usize = 0;
    let mut suppressed: usize = 0;
    let mut k: usize = 0;
    while k < findings.len()
        invariant
            0 <= k <= findings@.len(),
            count_secondary(findings@) <= usize::MAX,
            high == count_confidence(findings@.take(k as int), FindingConfidence::High),
            review == count_confidence(findings@.take(k as int), FindingConfidence::Review),
            suppressed == count_secondary(findings@.take(k as int)),
        decreases findings@.len() - k,
    {
        proof {
            assert(findings@.take(k + 1).drop_last() =~= findings@.take(k as int));
            lemma_count_confidence_bound(findings@.take(k as int), FindingConfidence::High);
            lemma_count_confidence_bound(findings@.take(k as int), FindingConfidence::Review);
            lemma_count_secondary_monotone(findings@, k + 1);
        }
        let finding = &findings[k];
        if finding.confidence == FindingConfidence::High {
            high = high + 1;
        } else {
            review = review + 1;
        }
        suppressed = suppressed + finding.secondary_conditions.len();
        k = k + 1;
    }
    assert(findings@.take(findings@.len() as int) =~= findings@);
    proof {
        lemma_confidence_counts_cover(findings@);
    }
    CheckSummary { high_confidence: high, review, suppressed }
}

/// The order origin domains are summarized in.
pub open spec fn origin_rank(d: OriginDomain) -> nat {
    match d {
        OriginDomain::Production => 0,
        OriginDomain::Test => 1,
        OriginDomain::Unknown => 2,
    }
}

/// The number of references from the given origin domain.
pub open spec fn count_origin(refs: Seq<FindingReference>, d: OriginDomain) -> nat
    decreases refs.len(),
{
    if refs.len() == 0 {
        0
    } else {
        count_origin(refs.drop_last(), d) + if refs.last().origin_domain == d { 1nat } else { 0nat }
    }
}

/// The origin domains of a definition and its references, counted, in domain order.
pub open spec fn origin_summary(refs: Seq<FindingReference>, origin: OriginDomain) -> Seq<FindingOriginSummary> {
    let entry = |d: OriginDomain| {
        let n = count_origin(refs, d) + if d == origin { 1nat } else { 0nat };
        if n > 0 { seq![FindingOriginSummary { origin_domain: d, count: n as usize }] } else { Seq::empty() }
    };
    entry(OriginDomain::Production) + entry(OriginDomain::Test) + entry(OriginDomain::Unknown)
}

proof fn lemma_count_origin_bound(refs: Seq<FindingReference>, d: OriginDomain)
    ensures
        count_origin(refs, d) <= refs.len(),
    decreases refs.len(),
{
    if refs.len() > 0 {
        lemma_count_origin_bound(refs.drop_last(), d);
    }
}

fn count_references_from(references: &Vec<FindingReference>, d: OriginDomain) -> (n: usize)
    ensures
        n == count_origin(references@, d),
{
    let mut n: usize = 0;
    let mut k: usize = 0;
    while k < references.len()
        invariant
            0 <= k <= references@.len(),
            n == count_origin(references@.take(k as int), d),
        decreases references@.len() - k,
    {
        proof {
            assert(references@.take(k + 1).drop_last() =~= references@.take(k as int));
            lemma_count_origin_bound(references@.take(k as int), d);
        }
        if references[k].origin_domain == d {
            n = n + 1;
        }
        k = k + 1;
    }
    assert(references@.take(references@.len() as int) =~= references@);
    n
}

/// The origin domains of a definition and of its references, counted, in domain order.
pub fn origin_domain_summary(references: &Vec<FindingReference>, definition_origin: OriginDomain) -> (s: Vec<FindingOriginSummary>)
    requires
        references@.len() < usize::MAX,
    ensures
        s@ == origin_summary(references@, definition_origin),
{
    let mut s: Vec<FindingOriginSummary> = Vec::new();
    let ghost expected = origin_summary(references@, definition_origin);
    proof {
        lemma_count_origin_bound(references@, OriginDomain::Production);
        lemma_count_origin_bound(references@, OriginDomain::Test);
        lemma_count_origin_bound(references@, OriginDomain::Unknown);
    }
    let production = count_references_from(references, OriginDomain::Production) + if definition_origin == OriginDomain::Production { 1 } else { 0 };
    if production > 0 {
        s.push(FindingOriginSummary { origin_domain: OriginDomain::Production, count: production });
    }
    let test = count_references_from(references, OriginDomain::Test) + if definition_origin == OriginDomain::Test { 1 } else { 0 };
    if test > 0 {
        s.push(FindingOriginSummary { origin_domain: OriginDomain::Test, count: test });
    }
    let unknown = count_references_from(references, OriginDomain::Unknown) + if definition_origin == OriginDomain::Unknown { 1 } else { 0 };
    if unknown > 0 {
        s.push(FindingOriginSummary { origin_domain: OriginDomain::Unknown, count: unknown });
    }
    proof {
        lemma_count_origin_bound(references@, OriginDomain::Test);
        lemma_count_origin_bound(references@, OriginDomain::Unknown);
        assert(s@ =~= expected);
    }
    s
}

/// The order reference phases are summarized in.
pub open spec fn count_phase(refs: Seq<FindingReference>, p: ReferencePhase) -> nat
    decreases refs.len(),
{
    if refs.len() == 0 {
        0
    } else {
        count_phase(refs.drop_last(), p) + if refs.last().phase == p { 1nat } else { 0nat }
    }
}

pub open spec fn phase_entry(refs: Seq<FindingReference>, p: ReferencePhase) -> Seq<FindingPhaseSummary> {
    if count_phase(refs, p) > 0 {
        seq![FindingPhaseSummary { phase: p, count: count_phase(refs, p) as usize }]
    } else {
        Seq::empty()
    }
}

/// The phases of the references, counted, in phase order.
pub open spec fn phase_summary(refs: Seq<FindingReference>) -> Seq<FindingPhaseSummary> {
    phase_entry(refs, ReferencePhase::DefinitionTime) + phase_entry(refs, ReferencePhase::BodyRuntime)
        + phase_entry(refs, ReferencePhase::ImportTime) + phase_entry(refs, ReferencePhase::ExportSurface)
        + phase_entry(refs, ReferencePhase::Root) + phase_entry(refs, ReferencePhase::TypeOnly)
        + phase_entry(refs, ReferencePhase::LazyAnnotation)
}

proof fn lemma_count_phase_bound(refs: Seq<FindingReference>, p: ReferencePhase)
    ensures
        count_phase(refs, p) <= refs.len(),
    decreases refs.len(),
{
    if refs.len() > 0 {
        lemma_count_phase_bound(refs.drop_last(), p);
    }
}

fn push_phase_count(out: &mut Vec<FindingPhaseSummary>, references: &Vec<FindingReference>, p: ReferencePhase)
    ensures
        final(out)@ == old(out)@ + phase_entry(references@, p),
{
    let mut n: usize = 0;
    let mut k: usize = 0;
    while k < references.len()
        invariant
            0 <= k <= references@.len(),
            n == count_phase(references@.take(k as int), p),
        decreases references@.len() - k,
    {
        proof {
            assert(references@.take(k + 1).drop_last() =~= references@.take(k as int));
            lemma_count_phase_bound(references@.take(k as int), p);
        }
        if references[k].phase == p {
            n = n + 1;
        }
        k = k + 1;
    }
    assert(references@.take(references@.len() as int) =~= references@);
    if n > 0 {
        out.push(FindingPhaseSummary { phase: p, count: n });
    }
    assert(out@ =~= old(out)@ + phase_entry(references@, p));
}

/// The phases of the references, counted, in phase order.
pub fn reference_phase_summary(references: &Vec<FindingReference>) -> (s: Vec<FindingPhaseSummary>)
    ensures
        s@ == phase_summary(references@),
{
    let mut s: Vec<FindingPhaseSummary> = Vec::new();
    push_phase_count(&mut s, references, ReferencePhase::DefinitionTime);
    push_phase_count(&mut s, references, ReferencePhase::BodyRuntime);
    push_phase_count(&mut s, references, ReferencePhase::ImportTime);
    push_phase_count(&mut s, references, ReferencePhase::ExportSurface);
    push_phase_count(&mut s, references, ReferencePhase::Root);
    push_phase_count(&mut s, references, ReferencePhase::TypeOnly);
    push_phase_count(&mut s, references, ReferencePhase::LazyAnnotation);
    assert(s@ =~= phase_summary(references@));
    s
}

// ----- evidence -----

pub open spec fn condition_name(c: SecondaryCondition) -> Seq<char> {
    match c {
        SecondaryCondition::AlsoUnreferenced => "AlsoUnreferenced"@,
        SecondaryCondition::AlsoRootUnreachable => "AlsoRootUnreachable"@,
    }
}

/// The names of the conditions separated by `, `.
pub open spec fn condition_names(s: Seq<SecondaryCondition>) -> Seq<char>
    decreases s.len(),
{
    if s.len() == 0 {
        Seq::empty()
    } else if s.len() == 1 {
        condition_name(s[0])
    } else {
        condition_names(s.drop_last()) + ", "@ + condition_name(s.last())
    }
}

fn condition_list(conditions: &Vec<SecondaryCondition>) -> (s: String)
    ensures
        s@ == "["@ + condition_names(conditions@) + "]"@,
{
    let mut s = <String as StringExecFns>::from_str("[");
    let mut k: usize = 0;
    while k < conditions.len()
        invariant
            0 <= k <= conditions@.len(),
            s@ == "["@ + condition_names(conditions@.take(k as int)),
        decreases conditions@.len() - k,
    {
        proof {
            assert(conditions@.take(k + 1).drop_last() =~= conditions@.take(k as int));
            assert(conditions@.take(k + 1).last() == conditions@[k as int]);
        }
        if k > 0 {
            s.append(", ");
        }
        let name = match conditions[k] {
            SecondaryCondition::AlsoUnreferenced => "AlsoUnreferenced",
            SecondaryCondition::AlsoRootUnreachable => "AlsoRootUnreachable",
        };
        s.append(name);
        proof {
            if k == 0 {
                assert(conditions@.take(1) =~= seq![conditions@[0]]);
            }
        }
        k = k + 1;
    }
    assert(conditions@.take(conditions@.len() as int) =~= conditions@);
    s.append("]");
    s
}

pub open spec fn evidence_view(e: Seq<EvidenceRecord>) -> Seq<(EvidenceKind, Seq<char>)> {
    e.map_values(|r: EvidenceRecord| (r.kind, r.summary@))
}

pub open spec fn removal_risk_summary(r: FindingRemovalRisk) -> Seq<char> {
    match r {
        FindingRemovalRisk::NoKnownDefinitionEffects => "no known definition-time effects were recorded"@,
        FindingRemovalRisk::Review { .. } => "definition-time effects require removal-risk review"@,
        FindingRemovalRisk::Unknown => "removal risk is unknown"@,
    }
}

/// The evidence records that open a finding's evidence.
pub open spec fn evidence_head(
    finding_type: FindingType,
    inbound: nat,
    exports: nat,
    surface: DefinitionSurface,
    reachability: FindingReachability,
    dead_cluster_override: bool,
) -> Seq<(EvidenceKind, Seq<char>)> {
    (match finding_type {
        FindingType::Unreferenced => seq![(EvidenceKind::NoInboundReferences, "no resolved inbound references were found"@)],
        FindingType::RootUnreachable => seq![(EvidenceKind::ReachabilitySummary, reachability.summary@)],
    }) + (if inbound > 0 {
        seq![(EvidenceKind::InboundReferenceSummary, decimal_spec(inbound) + " inbound reference(s) were resolved"@)]
    } else {
        Seq::empty()
    }) + seq![
        (EvidenceKind::ExportStatus, if exports == 0 {
            "definition is not exported through a static public surface"@
        } else {
            "definition has "@ + decimal_spec(exports) + " static export reference(s)"@
        }),
        (EvidenceKind::ModePolicy, "definition surface is "@ + surface_name(surface)),
        (EvidenceKind::RootCoverage, "root coverage is "@ + coverage_name(reachability.root_coverage)),
    ] + (if dead_cluster_override {
        seq![(EvidenceKind::DeadClusterMembership, "dead-cluster priority selected root-unreachable as the primary finding"@)]
    } else {
        Seq::empty()
    })
}

/// The evidence records that close a finding's evidence.
pub open spec fn evidence_tail(
    removal_risk: FindingRemovalRisk,
    secondary: Seq<SecondaryCondition>,
    completeness: ProjectCompleteness,
) -> Seq<(EvidenceKind, Seq<char>)> {
    (if secondary.len() > 0 {
        seq![(EvidenceKind::SecondaryCondition, "secondary conditions: "@ + ("["@ + condition_names(secondary) + "]"@))]
    } else {
        Seq::empty()
    }) + (if completeness.status == ProjectCompletenessStatus::Partial {
        seq![(EvidenceKind::ProjectCompleteness, "partial analysis skipped "@ + decimal_spec(completeness.skipped_files@.len())
            + " included source file(s)"@)]
    } else {
        Seq::empty()
    }) + seq![(EvidenceKind::RemovalRisk, removal_risk_summary(removal_risk))]
}

pub open spec fn blocker_evidence(blockers: Seq<FindingBlocker>) -> Seq<(EvidenceKind, Seq<char>)> {
    blockers.map_values(|b: FindingBlocker| (EvidenceKind::ConfidenceBlocker, b.detail@))
}

pub open spec fn uncertainty_evidence(uncertainty: Seq<FindingUncertainty>) -> Seq<(EvidenceKind, Seq<char>)> {
    uncertainty.map_values(|u: FindingUncertainty| (EvidenceKind::Uncertainty, u.detail@))
}

/// The evidence records of a finding, in report order: what it rests on, what blocks a
/// stronger claim, what is uncertain, the rule alternatives, completeness and removal risk.
pub open spec fn evidence_records(
    finding_type: FindingType,
    inbound: nat,
    exports: nat,
    surface: DefinitionSurface,
    reachability: FindingReachability,
    blockers: Seq<FindingBlocker>,
    uncertainty: Seq<FindingUncertainty>,
    removal_risk: FindingRemovalRisk,
    secondary: Seq<SecondaryCondition>,
    completeness: ProjectCompleteness,
    dead_cluster_override: bool,
) -> Seq<(EvidenceKind, Seq<char>)> {
    evidence_head(finding_type, inbound, exports, surface, reachability, dead_cluster_override)
        + blocker_evidence(blockers) + uncertainty_evidence(uncertainty)
        + evidence_tail(removal_risk, secondary, completeness)
}

fn push_evidence(evidence: &mut Vec<EvidenceRecord>, kind: EvidenceKind, summary: String)
    ensures
        evidence_view(final(evidence)@) == evidence_view(old(evidence)@).push((kind, summary@)),
{
    evidence.push(EvidenceRecord { kind, summary });
    assert(evidence_view(evidence@) =~= evidence_view(old(evidence)@).push((kind, summary@)));
}

/// `prefix`, the decimal `n`, then `suffix`.
fn counted(prefix: &str, n: usize, suffix: &str) -> (s: String)
    ensures
        s@ == prefix@ + decimal_spec(n as nat) + suffix@,
{
    let mut s = <String as StringExecFns>::from_str(prefix);
    let digits = decimal_string(n as u64);
    s.append(digits.as_str());
    s.append(suffix);
    s
}

fn append_evidence_head(
    evidence: &mut Vec<EvidenceRecord>,
    finding_type: FindingType,
    inbound: usize,
    exports: usize,
    surface: DefinitionSurface,
    reachability: &FindingReachability,
    dead_cluster_override: bool,
)
    ensures
        evidence_view(final(evidence)@) == evidence_view(old(evidence)@) + evidence_head(finding_type, inbound as nat,
            exports as nat, surface, *reachability, dead_cluster_override),
{
    let ghost start = evidence_view(evidence@);
    match finding_type {
        FindingType::Unreferenced => push_evidence(evidence, EvidenceKind::NoInboundReferences,
            "no resolved inbound references were found".to_owned()),
        FindingType::RootUnreachable => push_evidence(evidence, EvidenceKind::ReachabilitySummary,
            reachability.summary.clone()),
    }
    if inbound > 0 {
        let summary = counted("", inbound, " inbound reference(s) were resolved");
        proof {
            reveal_strlit("");
            assert(summary@ =~= decimal_spec(inbound as nat) + " inbound reference(s) were resolved"@);
        }
        push_evidence(evidence, EvidenceKind::InboundReferenceSummary, summary);
    }
    let export_summary = if exports == 0 {
        "definition is not exported through a static public surface".to_owned()
    } else {
        counted("definition has ", exports, " static export reference(s)")
    };
    push_evidence(evidence, EvidenceKind::ExportStatus, export_summary);
    push_evidence(evidence, EvidenceKind::ModePolicy, labelled("definition surface is ", surface_name_str(surface)));
    push_evidence(evidence, EvidenceKind::RootCoverage, labelled("root coverage is ",
        coverage_name_str(reachability.root_coverage)));
    if dead_cluster_override {
        push_evidence(evidence, EvidenceKind::DeadClusterMembership,
            "dead-cluster priority selected root-unreachable as the primary finding".to_owned());
    }
    proof {
        assert(evidence_view(evidence@) =~= start + evidence_head(finding_type, inbound as nat, exports as nat, surface,
            *reachability, dead_cluster_override));
    }
}

fn append_blocker_evidence(evidence: &mut Vec<EvidenceRecord>, blockers: &Vec<FindingBlocker>)
    ensures
        evidence_view(final(evidence)@) == evidence_view(old(evidence)@) + blocker_evidence(blockers@),
{
    let ghost start = evidence_view(evidence@);
    let mut k: usize = 0;
    while k < blockers.len()
        invariant
            0 <= k <= blockers@.len(),
            evidence_view(evidence@) == start + blocker_evidence(blockers@.take(k as int)),
        decreases blockers@.len() - k,
    {
        push_evidence(evidence, EvidenceKind::ConfidenceBlocker, blockers[k].detail.clone());
        assert(blocker_evidence(blockers@.take(k + 1)) =~= blocker_evidence(blockers@.take(k as int)).push(
            (EvidenceKind::ConfidenceBlocker, blockers@[k as int].detail@)));
        k = k + 1;
    }
    assert(blockers@.take(blockers@.len() as int) =~= blockers@);
}

fn append_uncertainty_evidence(evidence: &mut Vec<EvidenceRecord>, uncertainty: &Vec<FindingUncertainty>)
    ensures
        evidence_view(final(evidence)@) == evidence_view(old(evidence)@) + uncertainty_evidence(uncertainty@),
{
    let ghost start = evidence_view(evidence@);
    let mut k: usize = 0;
    while k < uncertainty.len()
        invariant
            0 <= k <= uncertainty@.len(),
            evidence_view(evidence@) == start + uncertainty_evidence(uncertainty@.take(k as int)),
        decreases uncertainty@.len() - k,
    {
        push_evidence(evidence, EvidenceKind::Uncertainty, uncertainty[k].detail.clone());
        assert(uncertainty_evidence(uncertainty@.take(k + 1)) =~= uncertainty_evidence(uncertainty@.take(k as int)).push(
            (EvidenceKind::Uncertainty, uncertainty@[k as int].detail@)));
        k = k + 1;
    }
    assert(uncertainty@.take(uncertainty@.len() as int) =~= uncertainty@);
}

fn append_evidence_tail(
    evidence: &mut Vec<EvidenceRecord>,
    removal_risk: &FindingRemovalRisk,
    secondary_conditions: &Vec<SecondaryCondition>,
    project_completeness: &ProjectCompleteness,
)
    ensures
        evidence_view(final(evidence)@) == evidence_view(old(evidence)@) + evidence_tail(*removal_risk,
            secondary_conditions@, *project_completeness),
{
    let ghost start = evidence_view(evidence@);
    if secondary_conditions.len() > 0 {
        let list = condition_list(secondary_conditions);
        push_evidence(evidence, EvidenceKind::SecondaryCondition, labelled("secondary conditions: ", list.as_str()));
    }
    if project_completeness.status == ProjectCompletenessStatus::Partial {
        push_evidence(evidence, EvidenceKind::ProjectCompleteness, counted("partial analysis skipped ",
            project_completeness.skipped_files.len(), " included source file(s)"));
    }
    let risk = match removal_risk {
        FindingRemovalRisk::NoKnownDefinitionEffects => "no known definition-time effects were recorded".to_owned(),
        FindingRemovalRisk::Review { .. } => "definition-time effects require removal-risk review".to_owned(),
        FindingRemovalRisk::Unknown => "removal risk is unknown".to_owned(),
    };
    push_evidence(evidence, EvidenceKind::RemovalRisk, risk);
    proof {
        assert(evidence_view(evidence@) =~= start + evidence_tail(*removal_risk, secondary_conditions@,
            *project_completeness));
    }
}

/// The evidence reported with a finding.
pub fn evidence_for(
    finding_type: FindingType,
    inbound_references: &Vec<FindingReference>,
    exports: &Vec<FindingExport>,
    surface: DefinitionSurface,
    reachability: &FindingReachability,
    blockers: &Vec<FindingBlocker>,
    uncertainty: &Vec<FindingUncertainty>,
    removal_risk: &FindingRemovalRisk,
    secondary_conditions: &Vec<SecondaryCondition>,
    project_completeness: &ProjectCompleteness,
    dead_cluster_override: bool,
) -> (evidence: Vec<EvidenceRecord>)
    ensures
        evidence_view(evidence@) == evidence_records(finding_type, inbound_references@.len(), exports@.len(), surface,
            *reachability, blockers@, uncertainty@, *removal_risk, secondary_conditions@, *project_completeness,
            dead_cluster_override),
{
    let mut evidence: Vec<EvidenceRecord> = Vec::new();
    assert(evidence_view(evidence@) =~= Seq::empty());
    append_evidence_head(&mut evidence, finding_type, inbound_references.len(), exports.len(), surface, reachability,
        dead_cluster_override);
    append_blocker_evidence(&mut evidence, blockers);
    append_uncertainty_evidence(&mut evidence, uncertainty);
    append_evidence_tail(&mut evidence, removal_risk, secondary_conditions, project_completeness);
    assert(evidence_view(evidence@) =~= evidence_records(finding_type, inbound_references@.len(), exports@.len(),
        surface, *reachability, blockers@, uncertainty@, *removal_risk, secondary_conditions@, *project_completeness,
        dead_cluster_override));
    evidence
}

// ----- partial analysis -----

pub open spec fn skippable_code(code: Seq<char>) -> bool {
    code == "CULL_P0100"@ || code == "CULL_P0101"@ || code == "CULL_P0200"@ || code == "CULL_P0201"@ || code == "CULL_P0202"@
}

/// Whether a diagnostic is an error about one file that partial analysis may skip: reading,
/// decoding or parsing it.
pub fn is_skippable_file_error(diagnostic: &Diagnostic) -> (yes: bool)
    ensures
        yes == skippable_code(diagnostic.code@),
{
    let code = diagnostic.code.as_str();
    str_eq(code, "CULL_P0100") || str_eq(code, "CULL_P0101") || str_eq(code, "CULL_P0200") || str_eq(code, "CULL_P0201")
        || str_eq(code, "CULL_P0202")
}

/// A skipped file recorded the diagnostic's path and code.
pub open spec fn skipped_pair(completeness: ProjectCompleteness, path: Seq<char>, code: Seq<char>) -> bool {
    exists|k: int| 0 <= k < completeness.skipped_files@.len() && (#[trigger] completeness.skipped_files@[k]).path@ == path
        && completeness.skipped_files@[k].diagnostic_code@ == code
}

/// Under partial analysis a diagnostic about a skipped file is only a warning.
pub open spec fn downgraded(completeness: ProjectCompleteness, d: Diagnostic) -> bool {
    d.path matches Some(p) && (skipped_pair(completeness, p@, d.code@) || skippable_code(d.code@))
}

pub open spec fn partial_message(n: nat) -> Seq<char> {
    "partial project analysis skipped "@ + decimal_spec(n)
        + " included source file(s); high-confidence findings are capped at Review"@
}

fn is_skipped_pair(completeness: &ProjectCompleteness, path: &str, code: &str) -> (yes: bool)
    ensures
        yes == skipped_pair(*completeness, path@, code@),
{
    let mut k: usize = 0;
    while k < completeness.skipped_files.len()
        invariant
            0 <= k <= completeness.skipped_files@.len(),
            forall|j: int| 0 <= j < k ==> !((#[trigger] completeness.skipped_files@[j]).path@ == path@
                && completeness.skipped_files@[j].diagnostic_code@ == code@),
        decreases completeness.skipped_files@.len() - k,
    {
        let file = &completeness.skipped_files[k];
        if str_eq(file.path.as_str(), path) && str_eq(file.diagnostic_code.as_str(), code) {
            return true;
        }
        k = k + 1;
    }
    false
}

/// When partial analysis is allowed and files were skipped, errors about those files become
/// warnings and a warning records how many files were skipped; otherwise nothing changes.
pub fn apply_partial_analysis_policy(
    diagnostics: &mut Vec<Diagnostic>,
    project_completeness: &ProjectCompleteness,
    allow_partial: bool,
)
    ensures
        !allow_partial || project_completeness.status != ProjectCompletenessStatus::Partial ==> final(diagnostics)@ == old(diagnostics)@,
        allow_partial && project_completeness.status == ProjectCompletenessStatus::Partial ==> {
            &&& final(diagnostics)@.len() == old(diagnostics)@.len() + 1
            &&& forall|k: int| 0 <= k < old(diagnostics)@.len() ==> #[trigger] final(diagnostics)@[k] == if downgraded(*project_completeness, old(diagnostics)@[k]) {
                Diagnostic { severity: DiagnosticSeverity::Warning, ..old(diagnostics)@[k] }
            } else {
                old(diagnostics)@[k]
            }
            &&& final(diagnostics)@.last().code@ == "CULL_P0400"@
            &&& final(diagnostics)@.last().severity == DiagnosticSeverity::Warning
            &&& final(diagnostics)@.last().message@ == partial_message(project_completeness.skipped_files@.len())
            &&& final(diagnostics)@.last().path is None
            &&& final(diagnostics)@.last().range is None
        },
{
    if !allow_partial || project_completeness.status != ProjectCompletenessStatus::Partial {
        return;
    }
    let ghost d0 = diagnostics@;
    let mut k: usize = 0;
    while k < diagnostics.len()
        invariant
            0 <= k <= diagnostics@.len(),
            diagnostics@.len() == d0.len(),
            forall|j: int| 0 <= j < k ==> #[trigger] diagnostics@[j] == if downgraded(*project_completeness, d0[j]) {
                Diagnostic { severity: DiagnosticSeverity::Warning, ..d0[j] }
            } else {
                d0[j]
            },
            forall|j: int| k <= j < d0.len() ==> #[trigger] diagnostics@[j] == d0[j],
        decreases d0.len() - k,
    {
        let down = match &diagnostics[k].path {
            Some(path) => is_skipped_pair(project_completeness, path.as_str(), diagnostics[k].code.as_str())
                || is_skippable_file_error(&diagnostics[k]),
            None => false,
        };
        if down {
            diagnostics[k].severity = DiagnosticSeverity::Warning;
        }
        k = k + 1;
    }
    let message = counted("partial project analysis skipped ", project_completeness.skipped_files.len(),
        " included source file(s); high-confidence findings are capped at Review");
    diagnostics.push(Diagnostic::warning("CULL_P0400", message.as_str()));
}


// ----- laws of confidence -----

/// Only a private definition, or a public one in an explicit application, can be reported with
/// high confidence; in library and auto mode a public definition is for review, and special
/// dunders and other surfaces always are.
pub proof fn lemma_high_confidence_surfaces(mode: ProjectMode, surface: DefinitionSurface)
    ensures
        surface_confidence(mode, surface).0 == FindingConfidence::High <==> (surface == DefinitionSurface::Private
            || (surface == DefinitionSurface::Public && mode == ProjectMode::Application)),
        surface_confidence(mode, surface).0 == FindingConfidence::High || surface_confidence(mode, surface).0
            == FindingConfidence::Review,
{
}

/// A finding is never more confident than its surface allows; a root-unreachable one is high
/// confidence only under complete root coverage, or in a library where roots do not apply.
pub proof fn lemma_root_unreachable_confidence(
    mode: ProjectMode,
    surface: DefinitionSurface,
    finding_type: FindingType,
    root_coverage: RootCoverage,
)
    ensures
        finding_confidence(mode, surface, finding_type, root_coverage).0 == FindingConfidence::High
            ==> surface_confidence(mode, surface).0 == FindingConfidence::High,
        finding_type != FindingType::RootUnreachable ==> finding_confidence(mode, surface, finding_type, root_coverage).0
            == surface_confidence(mode, surface).0,
        finding_type == FindingType::RootUnreachable && finding_confidence(mode, surface, finding_type, root_coverage).0
            == FindingConfidence::High ==> (root_coverage == RootCoverage::Complete || (root_coverage
            == RootCoverage::NotApplicable && mode == ProjectMode::Library)),
{
}

} // verus!
