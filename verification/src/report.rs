//! The findings of a check: which reportable definitions are claimed unused, under which rule,
//! how confident the claim is, and everything reported with it.
use vstd::prelude::*;

use vstd::string::StringExecFns;

use crate::candidates::{same_uncertainties, same_uncertainty};
use crate::clusters::{dead_cluster_members, in_dead_cluster};
use crate::findings::{
    blocker_kind_for_reason, blocker_kind_of, confidence_for_finding, considered_targets, definition_surface,
    effectively_reachable, evidence_for, evidence_records, evidence_view, explanation_for,
    explanation_lines, external_reached, finding_confidence, is_effectively_reachable, line_column,
    line_column_spec, origin_domain_summary, origin_summary, phase_summary, primary_rule_of,
    production_reached, reachability_for_finding, reachability_status, reachability_summary,
    reference_phase_summary, secondary_conditions_for, secondary_conditions_of, string_views,
    surface_of, test_reached, uncertainty_detail_of, uncertainty_effects_of, uncertainty_kind_of,
    Part2Uncertainty, ReachabilityAnalysis,
};
use crate::fingerprint::{
    candidate_fingerprint, candidate_fingerprint_spec, dedupe_finding_ids, finding_ids,
    finding_renumbered, sort_findings,
};
use crate::ir::DefinitionKind;
use crate::order::sorted_by_key;
use crate::output::{
    CandidateStatus, DefinitionSurface, Finding, FindingBlocker, FindingBlockerKind,
    FindingConfidence, FindingDefinition, FindingExport, FindingModeEffect, FindingReachability,
    FindingReference, FindingReferenceKind, FindingRemovalRisk, FindingRule, FindingType,
    FindingUncertainty, FindingUncertaintyKind, ProjectCompleteness, ProjectCompletenessStatus,
    ProjectMode, RootCoverage, UncertaintyEffect, UncertaintyRegion, UncertaintyRegionKind,
};
use crate::semantic::{
    DefinitionEffectKind, DefinitionRole, ReferenceFact, ReferenceRole, RemovalRisk,
    SemanticDefinition,
};

verus! {

broadcast use vstd::seq_lib::group_to_multiset_ensures;

/// The display path and text of a module's source file.
pub struct ModuleText {
    pub display_path: String,
    pub source_text: String,
}

/// What the project resolver found about one definition, as plain values.
pub struct DefinitionEvidence {
    /// The definition's module was selected for reporting.
    pub selected: bool,
    /// How many same-module references resolve to the definition.
    pub same_module_reference_count: usize,
    /// Those references whose module source is known, as reported.
    pub inbound_references: Vec<FindingReference>,
    /// How many references from other modules resolve to the definition.
    pub cross_reference_count: usize,
    /// The static export references of the definition.
    pub exports: Vec<FindingExport>,
    /// The uncertainty recorded for the definition's module.
    pub module_uncertainty: Vec<Part2Uncertainty>,
    /// Construction of this class may dispatch through an unresolved metaclass.
    pub dynamic_class_construction: bool,
    /// The dotted name of the definition's module.
    pub module_name: String,
    /// The module's source file, when it was parsed.
    pub source: Option<ModuleText>,
    /// The definition-time effects of the definition.
    pub effects: Vec<DefinitionEffectKind>,
}

// ----- references -----

/// The reported kind of a reference role.
pub open spec fn reference_kind_of(role: ReferenceRole) -> FindingReferenceKind {
    match role {
        ReferenceRole::Import => FindingReferenceKind::Import,
        ReferenceRole::ModuleAttribute => FindingReferenceKind::ModuleAttribute,
        ReferenceRole::Export => FindingReferenceKind::Export,
        _ => FindingReferenceKind::SameModule,
    }
}

/// A reference as reported, given its module's name and source file; none when the module's
/// source is unknown.
pub fn finding_reference(reference: &ReferenceFact, module_name: &str, display_path: Option<&str>) -> (out: Option<
    FindingReference,
>)
    ensures
        display_path is None <==> out is None,
        out matches Some(f) ==> {
            &&& f.kind == reference_kind_of(reference.role)
            &&& f.source_module@ == module_name@
            &&& f.source == reference.source_spelling
            &&& f.file@ == display_path->0@
            &&& f.range == reference.span
            &&& f.phase == reference.phase
            &&& f.origin_domain == reference.origin_domain
        },
{
    let file = match display_path {
        Some(path) => path,
        None => return None,
    };
    let kind = match reference.role {
        ReferenceRole::Import => FindingReferenceKind::Import,
        ReferenceRole::ModuleAttribute => FindingReferenceKind::ModuleAttribute,
        ReferenceRole::Export => FindingReferenceKind::Export,
        _ => FindingReferenceKind::SameModule,
    };
    Some(
        FindingReference {
            kind,
            source_module: <String as StringExecFns>::from_str(module_name),
            source: reference.source_spelling.clone(),
            file: <String as StringExecFns>::from_str(file),
            range: reference.span,
            phase: reference.phase,
            origin_domain: reference.origin_domain,
        },
    )
}

// ----- classification -----

/// Root-unreachable findings need some root coverage; libraries need none.
pub open spec fn root_unreachable_enabled(coverage: RootCoverage, mode: ProjectMode) -> bool {
    match coverage {
        RootCoverage::Complete | RootCoverage::Partial => true,
        RootCoverage::Absent => false,
        RootCoverage::NotApplicable => mode == ProjectMode::Library,
    }
}

/// Some reference or export resolves to the definition.
pub open spec fn has_inbound(ev: DefinitionEvidence) -> bool {
    ev.same_module_reference_count > 0 || ev.cross_reference_count > 0 || ev.exports@.len() > 0
}

/// The surface of a definition under its evidence.
pub open spec fn evidence_surface(d: SemanticDefinition, ev: DefinitionEvidence) -> DefinitionSurface {
    surface_of(d.name@, ev.exports@.len() > 0)
}

/// The type of finding claimed for a definition, if any: none for definitions that are not
/// reportable, not selected, overload declarations, module protocol hooks, effectively
/// reachable, or without a parsed source; a dead-cluster member is root-unreachable when such
/// findings are enabled, an unreferenced definition is unreferenced, and any other one is
/// root-unreachable when enabled.
pub open spec fn classify(
    d: SemanticDefinition,
    ev: DefinitionEvidence,
    dead: bool,
    r: ReachabilityAnalysis,
    mode: ProjectMode,
) -> Option<FindingType> {
    let surface = evidence_surface(d, ev);
    let enabled = root_unreachable_enabled(r.root_coverage, mode);
    if !d.reportable || !ev.selected || d.role == DefinitionRole::OverloadDeclaration
        || surface == DefinitionSurface::ModuleProtocolHook || effectively_reachable(d, r, mode, surface)
        || ev.source is None {
        None
    } else if dead && enabled {
        Some(FindingType::RootUnreachable)
    } else if !has_inbound(ev) {
        Some(FindingType::Unreferenced)
    } else if enabled {
        Some(FindingType::RootUnreachable)
    } else {
        None
    }
}

// ----- uncertainty -----

/// An uncertainty record as plain values: kind, region kind, region target, effects, detail.
pub open spec fn uncertainty_view(u: FindingUncertainty) -> (FindingUncertaintyKind, UncertaintyRegionKind, Seq<char>, Seq<
    UncertaintyEffect,
>, Seq<char>) {
    (u.kind, u.affected_region.kind, u.affected_region.target@, u.effects@, u.detail@)
}

pub open spec fn uncertainty_views(s: Seq<FindingUncertainty>) -> Seq<(FindingUncertaintyKind, UncertaintyRegionKind, Seq<char>, Seq<
    UncertaintyEffect,
>, Seq<char>)> {
    s.map_values(|u: FindingUncertainty| uncertainty_view(u))
}

/// The record of a module uncertainty on the module named `module`.
pub open spec fn module_uncertainty_view(p: Part2Uncertainty, module: Seq<char>) -> (FindingUncertaintyKind, UncertaintyRegionKind, Seq<char>, Seq<
    UncertaintyEffect,
>, Seq<char>) {
    (uncertainty_kind_of(p), UncertaintyRegionKind::ModuleNamespace, module, uncertainty_effects_of(p), uncertainty_detail_of(p))
}

/// The uncertainty reported with a definition: its module's, then that of dynamic class
/// construction.
pub open spec fn uncertainty_of(d: SemanticDefinition, ev: DefinitionEvidence) -> Seq<(FindingUncertaintyKind, UncertaintyRegionKind, Seq<
    char,
>, Seq<UncertaintyEffect>, Seq<char>)> {
    ev.module_uncertainty@.map_values(|p: Part2Uncertainty| module_uncertainty_view(p, ev.module_name@)) + if ev.dynamic_class_construction {
        seq![
            (
                FindingUncertaintyKind::DynamicClassConstruction,
                UncertaintyRegionKind::Definition,
                d.qualified_name@,
                seq![UncertaintyEffect::MayInvokeCallable, UncertaintyEffect::MayIntroduceReference],
                "custom class construction may dispatch through unresolved metaclass behavior"@,
            ),
        ]
    } else {
        Seq::empty()
    }
}

// ----- confidence and blockers -----

/// The confidence of a finding and its reason, after uncertainty and partial analysis.
pub open spec fn settled_confidence(
    base: (FindingConfidence, Seq<char>),
    uncertain: bool,
    partial: bool,
) -> (FindingConfidence, Seq<char>) {
    let after_uncertainty = if base.0 == FindingConfidence::High && uncertain {
        (FindingConfidence::Review, "analysis uncertainty prevents a high-confidence claim"@)
    } else {
        base
    };
    if partial && after_uncertainty.0 == FindingConfidence::High {
        (FindingConfidence::Review, "partial project analysis caps confidence at Review"@)
    } else {
        after_uncertainty
    }
}

/// The blockers of a finding: the reason for a `Review` claim, uncertainty, partial analysis,
/// then removal risk.
pub open spec fn blockers_of(
    base: (FindingConfidence, Seq<char>),
    uncertain: bool,
    partial: bool,
    risky: bool,
) -> Seq<(FindingBlockerKind, Seq<char>)> {
    (if base.0 == FindingConfidence::Review {
        seq![(blocker_kind_of(base.1), base.1)]
    } else {
        Seq::empty()
    }) + (if base.0 == FindingConfidence::High && uncertain {
        seq![(FindingBlockerKind::AnalysisUncertainty, "analysis uncertainty prevents a high-confidence claim"@)]
    } else {
        Seq::empty()
    }) + (if partial {
        seq![(FindingBlockerKind::PartialProjectAnalysis, "included source files were skipped under explicit partial-analysis mode"@)]
    } else {
        Seq::empty()
    }) + (if risky {
        seq![(FindingBlockerKind::RemovalRisk, "removal risk requires review even when unusedness evidence is strong"@)]
    } else {
        Seq::empty()
    })
}

pub open spec fn blocker_views(s: Seq<FindingBlocker>) -> Seq<(FindingBlockerKind, Seq<char>)> {
    s.map_values(|b: FindingBlocker| (b.kind, b.detail@))
}

/// The removal risk asks for review.
pub open spec fn risky(risk: RemovalRisk) -> bool {
    risk != RemovalRisk::NoKnownDefinitionEffects
}

/// The reported removal risk of a semantic one with its effects.
pub open spec fn reported_risk(r: FindingRemovalRisk, risk: RemovalRisk, effects: Seq<DefinitionEffectKind>) -> bool {
    match risk {
        RemovalRisk::NoKnownDefinitionEffects => r is NoKnownDefinitionEffects,
        RemovalRisk::Unknown => r is Unknown,
        RemovalRisk::Review(_) => r matches FindingRemovalRisk::Review { effects: e } && e@ == effects,
    }
}

// ----- the finding -----

/// `f` is the finding of type `ft` reported for definition `d` with evidence `ev`, before
/// report order and identifier numbering.
pub open spec fn finding_matches(
    f: Finding,
    d: SemanticDefinition,
    ev: DefinitionEvidence,
    dead: bool,
    ft: FindingType,
    r: ReachabilityAnalysis,
    mode: ProjectMode,
    completeness: ProjectCompleteness,
) -> bool {
    let surface = evidence_surface(d, ev);
    let base = finding_confidence(mode, surface, ft, r.root_coverage);
    let uncertainty = uncertainty_of(d, ev);
    let partial = completeness.status == ProjectCompletenessStatus::Partial;
    let settled = settled_confidence(base, uncertainty.len() > 0, partial);
    let text = ev.source->0;
    let lc = line_column_spec(vstd::utf8::encode_utf8(text.source_text@), d.name_range.start as int);
    let rule = primary_rule_of(d.kind, ft);
    &&& f.rule_id == rule
    &&& f.finding_type == ft
    &&& f.definition.kind == d.kind
    &&& f.definition.name == d.name
    &&& f.definition.qualified_name == d.qualified_name
    &&& f.definition.module@ == ev.module_name@
    &&& f.definition.file@ == text.display_path@
    &&& f.definition.range == d.range
    &&& f.definition.line == lc.0
    &&& f.definition.column == lc.1
    &&& f.finding_id@ == candidate_fingerprint_spec(rule, f.definition)
    &&& f.id == f.finding_id
    &&& f.status == CandidateStatus::Reported
    &&& f.confidence == settled.0
    &&& f.confidence_ceiling == settled.0
    &&& blocker_views(f.blockers@) == blockers_of(base, uncertainty.len() > 0, partial, risky(d.removal_risk))
    &&& f.inbound_references@ == ev.inbound_references@
    &&& f.reachability.status == reachability_status(r, mode, ft)
    &&& f.reachability.root_coverage == r.root_coverage
    &&& f.reachability.production_reachable == production_reached(r, d)
    &&& f.reachability.test_reachable == test_reached(r, d)
    &&& f.reachability.external_surface_reachable == external_reached(r, d)
    &&& string_views(f.reachability.roots_considered@) == considered_targets(r.roots@)
    &&& f.reachability.summary@ == reachability_summary(r, d, mode)
    &&& f.exports@ == ev.exports@
    &&& f.mode_effect.mode == mode
    &&& f.mode_effect.surface == surface
    &&& f.mode_effect.confidence_ceiling == settled.0
    &&& f.mode_effect.reason@ == settled.1
    &&& uncertainty_views(f.uncertainty@) == uncertainty
    &&& f.origin_domains@ == origin_summary(ev.inbound_references@, d.origin_domain)
    &&& f.reference_phases@ == phase_summary(ev.inbound_references@)
    &&& reported_risk(f.removal_risk, d.removal_risk, ev.effects@)
    &&& f.secondary_conditions@ == secondary_conditions_of(
        ft,
        has_inbound(ev),
        root_unreachable_enabled(r.root_coverage, mode),
        dead,
    )
    &&& evidence_view(f.evidence@) == evidence_records(
        ft,
        ev.inbound_references@.len(),
        ev.exports@.len(),
        surface,
        f.reachability,
        f.blockers@,
        f.uncertainty@,
        f.removal_risk,
        f.secondary_conditions@,
        completeness,
        dead,
    )
    &&& string_views(f.explanation@) == explanation_lines(d, settled.0, surface, ft, dead, r)
}

fn copy_references(v: &Vec<FindingReference>) -> (r: Vec<FindingReference>)
    ensures
        r@ == v@,
{
    let mut r: Vec<FindingReference> = Vec::new();
    let mut i: usize = 0;
    while i < v.len()
        invariant
            0 <= i <= v@.len(),
            r@ == v@.take(i as int),
        decreases v@.len() - i,
    {
        let x = &v[i];
        r.push(
            FindingReference {
                kind: x.kind,
                source_module: x.source_module.clone(),
                source: x.source.clone(),
                file: x.file.clone(),
                range: x.range,
                phase: x.phase,
                origin_domain: x.origin_domain,
            },
        );
        i = i + 1;
        proof {
            assert(r@ =~= v@.take(i as int));
        }
    }
    proof {
        assert(v@.take(v@.len() as int) =~= v@);
    }
    r
}

fn copy_exports(v: &Vec<FindingExport>) -> (r: Vec<FindingExport>)
    ensures
        r@ == v@,
{
    let mut r: Vec<FindingExport> = Vec::new();
    let mut i: usize = 0;
    while i < v.len()
        invariant
            0 <= i <= v@.len(),
            r@ == v@.take(i as int),
        decreases v@.len() - i,
    {
        let x = &v[i];
        r.push(
            FindingExport {
                public_name: x.public_name.clone(),
                kind: x.kind,
                source_module: x.source_module.clone(),
            },
        );
        i = i + 1;
        proof {
            assert(r@ =~= v@.take(i as int));
        }
    }
    proof {
        assert(v@.take(v@.len() as int) =~= v@);
    }
    r
}

fn push_blocker(blockers: &mut Vec<FindingBlocker>, kind: FindingBlockerKind, detail: String)
    ensures
        blocker_views(final(blockers)@) == blocker_views(old(blockers)@).push((kind, detail@)),
{
    blockers.push(FindingBlocker { kind, detail });
    assert(blocker_views(blockers@) =~= blocker_views(old(blockers)@).push((kind, detail@)));
}

/// The uncertainty records of a definition.
fn uncertainty_records(definition: &SemanticDefinition, evidence: &DefinitionEvidence) -> (out: Vec<FindingUncertainty>)
    ensures
        uncertainty_views(out@) == uncertainty_of(*definition, *evidence),
{
    let mut out: Vec<FindingUncertainty> = Vec::new();
    let ghost module_part = evidence.module_uncertainty@.map_values(
        |p: Part2Uncertainty| module_uncertainty_view(p, evidence.module_name@),
    );
    let mut k: usize = 0;
    while k < evidence.module_uncertainty.len()
        invariant
            0 <= k <= evidence.module_uncertainty@.len(),
            module_part == evidence.module_uncertainty@.map_values(
                |p: Part2Uncertainty| module_uncertainty_view(p, evidence.module_name@),
            ),
            uncertainty_views(out@) == module_part.take(k as int),
        decreases evidence.module_uncertainty@.len() - k,
    {
        let p = evidence.module_uncertainty[k];
        let record = FindingUncertainty {
            kind: p.output_kind(),
            affected_region: UncertaintyRegion::module(evidence.module_name.clone()),
            effects: p.effects(),
            detail: <String as StringExecFns>::from_str(p.detail()),
        };
        let ghost out0 = out@;
        out.push(record);
        k = k + 1;
        proof {
            assert(uncertainty_views(out@) =~= uncertainty_views(out0).push(uncertainty_view(record)));
            assert(module_part.take(k as int) =~= module_part.take(k - 1).push(module_part[k - 1]));
        }
    }
    proof {
        assert(module_part.take(module_part.len() as int) =~= module_part);
        assert(uncertainty_views(out@) == module_part);
    }
    let ghost base_out = out@;
    if evidence.dynamic_class_construction {
        let mut effects: Vec<UncertaintyEffect> = Vec::new();
        effects.push(UncertaintyEffect::MayInvokeCallable);
        effects.push(UncertaintyEffect::MayIntroduceReference);
        let record = FindingUncertainty {
            kind: FindingUncertaintyKind::DynamicClassConstruction,
            affected_region: UncertaintyRegion::definition(definition.qualified_name.clone()),
            effects,
            detail: <String as StringExecFns>::from_str(
                "custom class construction may dispatch through unresolved metaclass behavior",
            ),
        };
        let ghost out0 = out@;
        out.push(record);
        proof {
            assert(effects@ =~= seq![UncertaintyEffect::MayInvokeCallable, UncertaintyEffect::MayIntroduceReference]);
            assert(uncertainty_views(out@) =~= uncertainty_views(out0).push(uncertainty_view(record)));
            assert(uncertainty_views(out@) =~= module_part + seq![uncertainty_view(record)]);
        }
    } else {
        proof {
            assert(uncertainty_views(out@) =~= module_part + Seq::empty());
        }
    }
    proof {
        assert(uncertainty_views(out@) =~= uncertainty_of(*definition, *evidence));
    }
    out
}

/// The finding reported for one definition, if any, before report order and identifier
/// numbering.
pub fn finding_for(
    definition: &SemanticDefinition,
    evidence: &DefinitionEvidence,
    dead: bool,
    reachability: &ReachabilityAnalysis,
    mode: ProjectMode,
    project_completeness: &ProjectCompleteness,
) -> (out: Option<Finding>)
    requires
        evidence.source matches Some(text) ==> vstd::utf8::encode_utf8(text.source_text@).len() < u32::MAX,
        evidence.inbound_references@.len() < usize::MAX,
    ensures
        classify(*definition, *evidence, dead, *reachability, mode) is None <==> out is None,
        out matches Some(f) ==> finding_matches(
            f,
            *definition,
            *evidence,
            dead,
            classify(*definition, *evidence, dead, *reachability, mode)->0,
            *reachability,
            mode,
            *project_completeness,
        ),
{
    if !definition.reportable || !evidence.selected || definition.role == DefinitionRole::OverloadDeclaration {
        return None;
    }
    let surface = definition_surface(definition, evidence.exports.len() > 0);
    if surface == DefinitionSurface::ModuleProtocolHook {
        return None;
    }
    let has_inbound = evidence.same_module_reference_count > 0 || evidence.cross_reference_count > 0
        || evidence.exports.len() > 0;
    if is_effectively_reachable(definition, reachability, mode, surface) {
        return None;
    }
    let root_unreachable_enabled = match reachability.root_coverage {
        RootCoverage::Complete | RootCoverage::Partial => true,
        RootCoverage::Absent => false,
        RootCoverage::NotApplicable => mode == ProjectMode::Library,
    };
    let finding_type = if dead && root_unreachable_enabled {
        FindingType::RootUnreachable
    } else if !has_inbound {
        FindingType::Unreferenced
    } else if root_unreachable_enabled {
        FindingType::RootUnreachable
    } else {
        return None;
    };
    let text = match &evidence.source {
        Some(text) => text,
        None => return None,
    };
    let (base_confidence, base_reason) = confidence_for_finding(mode, surface, finding_type, reachability.root_coverage);
    let mut confidence = base_confidence;
    let mut reason = base_reason;
    let mut blockers: Vec<FindingBlocker> = Vec::new();
    proof {
        assert(blocker_views(blockers@) =~= Seq::empty());
    }
    let uncertainty = uncertainty_records(definition, evidence);
    if confidence == FindingConfidence::Review {
        let kind = blocker_kind_for_reason(reason.as_str());
        push_blocker(&mut blockers, kind, reason.clone());
    }
    if confidence == FindingConfidence::High && uncertainty.len() > 0 {
        confidence = FindingConfidence::Review;
        reason = <String as StringExecFns>::from_str("analysis uncertainty prevents a high-confidence claim");
        push_blocker(&mut blockers, FindingBlockerKind::AnalysisUncertainty, reason.clone());
    }
    if project_completeness.status == ProjectCompletenessStatus::Partial {
        if confidence == FindingConfidence::High {
            confidence = FindingConfidence::Review;
            reason = <String as StringExecFns>::from_str("partial project analysis caps confidence at Review");
        }
        push_blocker(
            &mut blockers,
            FindingBlockerKind::PartialProjectAnalysis,
            <String as StringExecFns>::from_str(
                "included source files were skipped under explicit partial-analysis mode",
            ),
        );
    }
    let (line, column) = line_column(text.source_text.as_str(), definition.name_range.start);
    let rule_id = match (definition.kind, finding_type) {
        (DefinitionKind::Function, FindingType::Unreferenced) => FindingRule::Cull001,
        (DefinitionKind::Class, FindingType::Unreferenced) => FindingRule::Cull002,
        (DefinitionKind::Function, FindingType::RootUnreachable) => FindingRule::Cull003,
        (DefinitionKind::Class, FindingType::RootUnreachable) => FindingRule::Cull004,
    };
    let needs_review = match definition.removal_risk {
        RemovalRisk::NoKnownDefinitionEffects => false,
        _ => true,
    };
    if needs_review {
        push_blocker(
            &mut blockers,
            FindingBlockerKind::RemovalRisk,
            <String as StringExecFns>::from_str(
                "removal risk requires review even when unusedness evidence is strong",
            ),
        );
    }
    let inbound_references = copy_references(&evidence.inbound_references);
    let exports = copy_exports(&evidence.exports);
    let origin_domains = origin_domain_summary(&inbound_references, definition.origin_domain);
    let reference_phases = reference_phase_summary(&inbound_references);
    let definition_output = FindingDefinition {
        kind: definition.kind,
        name: definition.name.clone(),
        qualified_name: definition.qualified_name.clone(),
        module: evidence.module_name.clone(),
        file: text.display_path.clone(),
        range: definition.range,
        line,
        column,
    };
    let finding_id = candidate_fingerprint(rule_id, &definition_output);
    let secondary_conditions = secondary_conditions_for(
        finding_type,
        has_inbound,
        root_unreachable_enabled,
        dead,
    );
    let reachability_output = reachability_for_finding(definition, reachability, mode, finding_type);
    let removal_risk = FindingRemovalRisk::from_semantic(&definition.removal_risk, evidence.effects.as_slice());
    let evidence_records = evidence_for(
        finding_type,
        &inbound_references,
        &exports,
        surface,
        &reachability_output,
        &blockers,
        &uncertainty,
        &removal_risk,
        &secondary_conditions,
        project_completeness,
        dead,
    );
    let explanation = explanation_for(definition, confidence, surface, finding_type, dead, reachability);
    proof {
        assert(string_views(reachability_output.roots_considered@) =~= considered_targets(reachability.roots@));
        let base = finding_confidence(mode, surface, finding_type, reachability.root_coverage);
        assert(blocker_views(blockers@) =~= blockers_of(
            base,
            uncertainty_of(*definition, *evidence).len() > 0,
            project_completeness.status == ProjectCompletenessStatus::Partial,
            risky(definition.removal_risk),
        ));
    }
    Some(
        Finding {
            finding_id: finding_id.clone(),
            id: finding_id,
            rule_id,
            finding_type,
            definition: definition_output,
            status: CandidateStatus::Reported,
            confidence,
            confidence_ceiling: confidence,
            blockers,
            inbound_references,
            reachability: reachability_output,
            exports,
            mode_effect: FindingModeEffect { mode, surface, confidence_ceiling: confidence, reason },
            uncertainty,
            origin_domains,
            reference_phases,
            removal_risk,
            secondary_conditions,
            evidence: evidence_records,
            explanation,
        },
    )
}

/// The dead-cluster membership of each definition.
pub open spec fn dead_flags(defs: Seq<SemanticDefinition>, r: ReachabilityAnalysis, mode: ProjectMode) -> Seq<bool> {
    Seq::new(defs.len(), |i: int| in_dead_cluster(defs, r, mode, i))
}

/// `pre` holds, in definition order, the finding of each definition that one is claimed for.
pub open spec fn built_findings(
    pre: Seq<Finding>,
    defs: Seq<SemanticDefinition>,
    evs: Seq<DefinitionEvidence>,
    dead: Seq<bool>,
    r: ReachabilityAnalysis,
    mode: ProjectMode,
    completeness: ProjectCompleteness,
) -> bool
    decreases defs.len(),
{
    if defs.len() == 0 {
        pre.len() == 0
    } else {
        let i = defs.len() - 1;
        let claim = classify(defs[i], evs[i], dead[i], r, mode);
        if claim is Some {
            &&& pre.len() > 0
            &&& finding_matches(pre.last(), defs[i], evs[i], dead[i], claim->0, r, mode, completeness)
            &&& built_findings(pre.drop_last(), defs.drop_last(), evs.drop_last(), dead.drop_last(), r, mode, completeness)
        } else {
            built_findings(pre, defs.drop_last(), evs.drop_last(), dead.drop_last(), r, mode, completeness)
        }
    }
}

/// `out` is the finding list of a check over the definitions `defs` with evidence `evs`: the
/// findings claimed in definition order, sorted by key, with repeated identifiers numbered.
pub open spec fn findings_of_check(
    defs: Seq<SemanticDefinition>,
    evs: Seq<DefinitionEvidence>,
    r: ReachabilityAnalysis,
    mode: ProjectMode,
    completeness: ProjectCompleteness,
    out: Seq<Finding>,
) -> bool {
    exists|pre: Seq<Finding>, sorted: Seq<Finding>|
        #![trigger built_findings(pre, defs, evs, dead_flags(defs, r, mode), r, mode, completeness), sorted_by_key(sorted)]
        {
            &&& built_findings(pre, defs, evs, dead_flags(defs, r, mode), r, mode, completeness)
            &&& sorted.to_multiset() == pre.to_multiset()
            &&& sorted_by_key(sorted)
            &&& out.len() == sorted.len()
            &&& forall|i: int|
                0 <= i < sorted.len() ==> finding_renumbered(sorted[i], #[trigger] out[i], finding_ids(sorted), i)
        }
}

/// The findings of a check, in report order (file, offset, rule, identifier), with repeated
/// identifiers numbered.
pub fn build_findings(
    definitions: &Vec<SemanticDefinition>,
    evidence: &Vec<DefinitionEvidence>,
    reachability: &ReachabilityAnalysis,
    mode: ProjectMode,
    project_completeness: &ProjectCompleteness,
) -> (out: Vec<Finding>)
    requires
        evidence@.len() == definitions@.len(),
        forall|i: int| 0 <= i < definitions@.len() ==> (#[trigger] definitions@[i]).id.0 == i,
        forall|i: int|
            0 <= i < evidence@.len() ==> ((#[trigger] evidence@[i]).source matches Some(text)
                ==> vstd::utf8::encode_utf8(text.source_text@).len() < u32::MAX),
        forall|i: int| 0 <= i < evidence@.len() ==> (#[trigger] evidence@[i]).inbound_references@.len() < usize::MAX,
    ensures
        findings_of_check(definitions@, evidence@, *reachability, mode, *project_completeness, out@),
{
    let ghost ds = definitions@;
    let ghost evs = evidence@;
    let ghost r = *reachability;
    let ghost dead = dead_flags(ds, r, mode);
    let members = dead_cluster_members(definitions, reachability, mode);
    proof {
        assert(members@ =~= dead);
        assert(ds.take(0) =~= Seq::<SemanticDefinition>::empty());
    }
    let mut findings: Vec<Finding> = Vec::new();
    let mut k: usize = 0;
    while k < definitions.len()
        invariant
            ds == definitions@,
            evs == evidence@,
            r == *reachability,
            evs.len() == ds.len(),
            members@ == dead,
            dead.len() == ds.len(),
            forall|i: int|
                0 <= i < evs.len() ==> ((#[trigger] evs[i]).source matches Some(text)
                    ==> vstd::utf8::encode_utf8(text.source_text@).len() < u32::MAX),
            forall|i: int| 0 <= i < evs.len() ==> (#[trigger] evs[i]).inbound_references@.len() < usize::MAX,
            0 <= k <= ds.len(),
            findings@.len() <= k,
            built_findings(
                findings@,
                ds.take(k as int),
                evs.take(k as int),
                dead.take(k as int),
                r,
                mode,
                *project_completeness,
            ),
        decreases ds.len() - k,
    {
        let ghost before = findings@;
        let found = finding_for(&definitions[k], &evidence[k], members[k], reachability, mode, project_completeness);
        match found {
            Some(f) => {
                findings.push(f);
            },
            None => {},
        }
        proof {
            let k1 = k as int + 1;
            assert(ds.take(k1).drop_last() =~= ds.take(k as int));
            assert(evs.take(k1).drop_last() =~= evs.take(k as int));
            assert(dead.take(k1).drop_last() =~= dead.take(k as int));
            assert(ds.take(k1).last() == ds[k as int]);
            assert(evs.take(k1).last() == evs[k as int]);
            assert(dead.take(k1).last() == dead[k as int]);
            if findings@.len() > before.len() {
                assert(findings@.drop_last() =~= before);
            }
        }
        k = k + 1;
    }
    proof {
        assert(ds.take(ds.len() as int) =~= ds);
        assert(evs.take(evs.len() as int) =~= evs);
        assert(dead.take(dead.len() as int) =~= dead);
    }
    let ghost pre = findings@;
    sort_findings(&mut findings);
    let ghost sorted = findings@;
    dedupe_finding_ids(&mut findings);
    proof {
        assert(built_findings(pre, ds, evs, dead, r, mode, *project_completeness));
        assert(sorted_by_key(sorted));
    }
    findings
}

// ----- laws -----

/// A finding reported at `Review` confidence always says what blocks a stronger claim.
pub proof fn lemma_review_has_blocker(
    base: (FindingConfidence, Seq<char>),
    uncertain: bool,
    partial: bool,
    needs_review: bool,
)
    requires
        settled_confidence(base, uncertain, partial).0 == FindingConfidence::Review,
    ensures
        blockers_of(base, uncertain, partial, needs_review).len() > 0,
{
}

/// Every finding carries evidence: at least what its claim rests on and its removal risk.
pub proof fn lemma_evidence_nonempty(
    finding_type: FindingType,
    inbound: nat,
    exports: nat,
    surface: DefinitionSurface,
    reachability: FindingReachability,
    blockers: Seq<FindingBlocker>,
    uncertainty: Seq<FindingUncertainty>,
    removal_risk: FindingRemovalRisk,
    secondary: Seq<crate::output::SecondaryCondition>,
    completeness: ProjectCompleteness,
    dead_cluster_override: bool,
)
    ensures
        evidence_records(
            finding_type,
            inbound,
            exports,
            surface,
            reachability,
            blockers,
            uncertainty,
            removal_risk,
            secondary,
            completeness,
            dead_cluster_override,
        ).len() >= 5,
{
}


// ----- what is reported -----

/// A definition the rules look at: reportable, selected by the options, not an overload
/// declaration, not a module protocol hook (`__getattr__`, `__dir__`), and with its source
/// parsed.
pub open spec fn rule_subject(d: SemanticDefinition, ev: DefinitionEvidence) -> bool {
    &&& d.reportable
    &&& ev.selected
    &&& d.role != DefinitionRole::OverloadDeclaration
    &&& evidence_surface(d, ev) != DefinitionSurface::ModuleProtocolHook
    &&& ev.source is Some
}

/// Where root reachability is checked, a definition the rules look at is reported exactly when
/// it is not reachable from the roots; where it is not checked, exactly when it is unreachable
/// and nothing refers to it. Nothing else is ever reported.
pub proof fn lemma_reported_iff_unreachable(
    d: SemanticDefinition,
    ev: DefinitionEvidence,
    dead: bool,
    r: ReachabilityAnalysis,
    mode: ProjectMode,
)
    ensures
        classify(d, ev, dead, r, mode) is Some ==> rule_subject(d, ev),
        rule_subject(d, ev) && root_unreachable_enabled(r.root_coverage, mode) ==> (classify(d, ev, dead, r, mode)
            is Some <==> !effectively_reachable(d, r, mode, evidence_surface(d, ev))),
        rule_subject(d, ev) && !root_unreachable_enabled(r.root_coverage, mode) ==> (classify(d, ev, dead, r, mode)
            is Some <==> (!effectively_reachable(d, r, mode, evidence_surface(d, ev)) && !has_inbound(ev))),
{
}

/// For a definition the rules look at that is not reachable from the roots: under complete
/// or partial root coverage, and in library mode where coverage does not apply, it is always
/// reported, as root-unreachable when it is in a dead cluster or something refers to it and as
/// unreferenced otherwise; with no root coverage, or where coverage does not apply outside
/// library mode, it is reported only when nothing refers to it, and then as unreferenced.
pub proof fn lemma_root_coverage_decides_claims(
    d: SemanticDefinition,
    ev: DefinitionEvidence,
    dead: bool,
    r: ReachabilityAnalysis,
    mode: ProjectMode,
)
    requires
        rule_subject(d, ev),
        !effectively_reachable(d, r, mode, evidence_surface(d, ev)),
    ensures
        (r.root_coverage == RootCoverage::Complete || r.root_coverage == RootCoverage::Partial
            || (r.root_coverage == RootCoverage::NotApplicable && mode == ProjectMode::Library))
            ==> classify(d, ev, dead, r, mode) == Some(
            if dead || has_inbound(ev) {
                FindingType::RootUnreachable
            } else {
                FindingType::Unreferenced
            },
        ),
        (r.root_coverage == RootCoverage::Absent || (r.root_coverage == RootCoverage::NotApplicable
            && mode != ProjectMode::Library)) ==> classify(d, ev, dead, r, mode) == (if has_inbound(ev) {
            None
        } else {
            Some(FindingType::Unreferenced)
        }),
{
}

/// The number of definitions a finding is claimed for.
pub open spec fn claimed_count(
    defs: Seq<SemanticDefinition>,
    evs: Seq<DefinitionEvidence>,
    dead: Seq<bool>,
    r: ReachabilityAnalysis,
    mode: ProjectMode,
) -> nat
    decreases defs.len(),
{
    if defs.len() == 0 {
        0
    } else {
        let i = defs.len() - 1;
        claimed_count(defs.drop_last(), evs.drop_last(), dead.drop_last(), r, mode) + if classify(
            defs[i],
            evs[i],
            dead[i],
            r,
            mode,
        ) is Some {
            1nat
        } else {
            0nat
        }
    }
}

proof fn lemma_built_findings_count(
    pre: Seq<Finding>,
    defs: Seq<SemanticDefinition>,
    evs: Seq<DefinitionEvidence>,
    dead: Seq<bool>,
    r: ReachabilityAnalysis,
    mode: ProjectMode,
    completeness: ProjectCompleteness,
)
    requires
        built_findings(pre, defs, evs, dead, r, mode, completeness),
    ensures
        pre.len() == claimed_count(defs, evs, dead, r, mode),
    decreases defs.len(),
{
    if defs.len() > 0 {
        let i = defs.len() - 1;
        if classify(defs[i], evs[i], dead[i], r, mode) is Some {
            lemma_built_findings_count(pre.drop_last(), defs.drop_last(), evs.drop_last(), dead.drop_last(), r, mode, completeness);
        } else {
            lemma_built_findings_count(pre, defs.drop_last(), evs.drop_last(), dead.drop_last(), r, mode, completeness);
        }
    }
}

/// A check reports one finding for each definition that is claimed, and no other: the list
/// `build_findings` returns is as long as the number of claimed definitions.
pub proof fn lemma_one_finding_per_claimed_definition(
    defs: Seq<SemanticDefinition>,
    evs: Seq<DefinitionEvidence>,
    r: ReachabilityAnalysis,
    mode: ProjectMode,
    completeness: ProjectCompleteness,
    out: Seq<Finding>,
)
    requires
        findings_of_check(defs, evs, r, mode, completeness, out),
    ensures
        out.len() == claimed_count(defs, evs, dead_flags(defs, r, mode), r, mode),
{
    let (pre, sorted) = choose|pre: Seq<Finding>, sorted: Seq<Finding>|
        {
            &&& built_findings(pre, defs, evs, dead_flags(defs, r, mode), r, mode, completeness)
            &&& sorted.to_multiset() == pre.to_multiset()
            &&& sorted_by_key(sorted)
            &&& out.len() == sorted.len()
            &&& forall|i: int|
                0 <= i < sorted.len() ==> finding_renumbered(sorted[i], #[trigger] out[i], finding_ids(sorted), i)
        };
    lemma_built_findings_count(pre, defs, evs, dead_flags(defs, r, mode), r, mode, completeness);
    vstd::seq_lib::to_multiset_len(pre);
    vstd::seq_lib::to_multiset_len(sorted);
}
} // verus!
