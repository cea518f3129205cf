//! Findings, dead clusters, identifiers and candidates on a small hand-built project:
//!
//! ```python
//! def _a(): ...      # 0, calls _b
//! def _b(): ...      # 1
//! def _c(): ...      # 2, isolated
//! def _d(): ...      # 3, calls itself
//! def main(): ...    # 4, a production root, calls _a
//! ```
use std::collections::{BTreeMap, BTreeSet};

use cull::candidates::candidates_from_check;
use cull::clusters::dead_cluster_members;
use cull::findings::ReachabilityAnalysis;
use cull::fingerprint::{
    candidate_fingerprint, dedupe_candidate_ids, dedupe_finding_ids, sort_findings,
    subject_fingerprint,
};
use cull::ids::{BindingId, ContextId, DefId, DefinitionEffectSetId, FileId, ModuleId, ScopeId};
use cull::ir::DefinitionKind;
use cull::output::{
    CandidateStatus, CheckAnalysis, CheckOutput, CheckSummary, EvidenceKind, Finding,
    FindingBlockerKind, FindingConfidence, FindingDefinition, FindingRule, FindingType,
    ProjectCompleteness, ProjectMode, RootCoverage, SecondaryCondition,
};
use cull::present::text_report;
use cull::report::{build_findings, finding_for, DefinitionEvidence, ModuleText};
use cull::semantic::{DefinitionRole, OriginDomain, RemovalRisk, SemanticDefinition};
use cull::source::{PythonVersion, TextRange};

const SOURCE: &str = "def _a(): _b()\ndef _b(): pass\ndef _c(): pass\ndef _d(): _d()\ndef main(): _a()\n";

fn definition(id: u32, name: &str) -> SemanticDefinition {
    let start = id * 15;
    SemanticDefinition {
        id: DefId::new(id),
        module: ModuleId::new(0),
        binding: BindingId::new(id),
        scope: ScopeId::new(0),
        context: ContextId::new(10 + id),
        kind: DefinitionKind::Function,
        name: name.to_owned(),
        qualified_name: format!("pkg.app::{name}"),
        range: TextRange::new(start, start + 14),
        name_range: TextRange::new(start + 4, start + 4 + name.len() as u32),
        reportable: true,
        is_async: false,
        origin_domain: OriginDomain::Production,
        role: DefinitionRole::Ordinary,
        overload_group: None,
        definition_effects: DefinitionEffectSetId::new(0),
        removal_risk: RemovalRisk::NoKnownDefinitionEffects,
    }
}

fn definitions() -> Vec<SemanticDefinition> {
    vec![
        definition(0, "_a"),
        definition(1, "_b"),
        definition(2, "_c"),
        definition(3, "_d"),
        definition(4, "main"),
    ]
}

fn reachability(coverage: RootCoverage) -> ReachabilityAnalysis {
    let mut edges = BTreeMap::new();
    edges.insert(0, vec![1]);
    edges.insert(3, vec![3]);
    edges.insert(4, vec![0]);
    ReachabilityAnalysis {
        root_coverage: coverage,
        roots: Vec::new(),
        production_values: BTreeSet::new(),
        production_contexts: [14].into_iter().collect(),
        test_values: BTreeSet::new(),
        test_contexts: BTreeSet::new(),
        external_values: BTreeSet::new(),
        external_contexts: BTreeSet::new(),
        graph_edges: edges,
        dynamic_class_construction: BTreeSet::new(),
    }
}

fn evidence(inbound: usize) -> DefinitionEvidence {
    DefinitionEvidence {
        selected: true,
        same_module_reference_count: inbound,
        inbound_references: Vec::new(),
        cross_reference_count: 0,
        exports: Vec::new(),
        module_uncertainty: Vec::new(),
        dynamic_class_construction: false,
        module_name: "pkg.app".to_owned(),
        source: Some(ModuleText {
            display_path: "src/pkg/app.py".to_owned(),
            source_text: SOURCE.to_owned(),
        }),
        effects: Vec::new(),
    }
}

fn all_evidence() -> Vec<DefinitionEvidence> {
    vec![evidence(1), evidence(1), evidence(0), evidence(1), evidence(0)]
}

fn complete() -> ProjectCompleteness {
    ProjectCompleteness::complete()
}

#[test]
fn dead_clusters_are_linked_groups_of_reportable_definitions() {
    let members = dead_cluster_members(&definitions(), &reachability(RootCoverage::Complete), ProjectMode::Application);
    assert_eq!(members, vec![true, true, false, true, false]);
}

#[test]
fn dead_clusters_ignore_reachable_definitions() {
    let mut reach = reachability(RootCoverage::Complete);
    reach.production_contexts.insert(10);
    let members = dead_cluster_members(&definitions(), &reach, ProjectMode::Application);
    assert_eq!(members, vec![false, false, false, true, false]);
}

#[test]
fn findings_follow_clusters_references_and_roots() {
    let findings = build_findings(
        &definitions(),
        &all_evidence(),
        &reachability(RootCoverage::Complete),
        ProjectMode::Application,
        &complete(),
    );
    let names: Vec<&str> = findings.iter().map(|f| f.definition.name.as_str()).collect();
    assert_eq!(names, vec!["_a", "_b", "_c", "_d"]);
    let rules: Vec<FindingRule> = findings.iter().map(|f| f.rule_id).collect();
    assert_eq!(
        rules,
        vec![FindingRule::Cull003, FindingRule::Cull003, FindingRule::Cull001, FindingRule::Cull003]
    );
    for finding in &findings {
        assert_eq!(finding.confidence, FindingConfidence::High);
        assert!(finding.blockers.is_empty());
        assert_eq!(finding.id, finding.finding_id);
        assert_eq!(finding.finding_id, candidate_fingerprint(finding.rule_id, &finding.definition));
        assert_eq!(finding.evidence.last().unwrap().kind, EvidenceKind::RemovalRisk);
    }
    assert_eq!(findings[0].evidence[0].kind, EvidenceKind::ReachabilitySummary);
    assert_eq!(findings[2].evidence[0].kind, EvidenceKind::NoInboundReferences);
    assert_eq!(findings[0].secondary_conditions, vec![SecondaryCondition::AlsoUnreferenced]);
    assert_eq!(findings[2].secondary_conditions, vec![SecondaryCondition::AlsoRootUnreachable]);
    assert_eq!((findings[1].definition.line, findings[1].definition.column), (2, 5));
    assert_eq!(findings[0].definition.file, "src/pkg/app.py");
    assert_eq!(findings[0].definition.module, "pkg.app");
}

#[test]
fn absent_root_coverage_reports_only_unreferenced_definitions() {
    let findings = build_findings(
        &definitions(),
        &all_evidence(),
        &reachability(RootCoverage::Absent),
        ProjectMode::Application,
        &complete(),
    );
    let names: Vec<&str> = findings.iter().map(|f| f.definition.name.as_str()).collect();
    assert_eq!(names, vec!["_c"]);
    assert_eq!(findings[0].finding_type, FindingType::Unreferenced);
    assert!(findings[0].secondary_conditions.is_empty());
}

#[test]
fn partial_analysis_caps_confidence_and_adds_a_blocker() {
    let defs = definitions();
    let partial = ProjectCompleteness::partial(Vec::new());
    let finding = finding_for(
        &defs[2],
        &all_evidence()[2],
        false,
        &reachability(RootCoverage::Complete),
        ProjectMode::Application,
        &partial,
    )
    .unwrap();
    assert_eq!(finding.confidence, FindingConfidence::Review);
    assert_eq!(finding.mode_effect.reason, "partial project analysis caps confidence at Review");
    assert_eq!(finding.blockers.len(), 1);
    assert_eq!(finding.blockers[0].kind, FindingBlockerKind::PartialProjectAnalysis);
}

#[test]
fn unselected_or_unparsed_definitions_get_no_finding() {
    let defs = definitions();
    let reach = reachability(RootCoverage::Complete);
    let mut ev = evidence(0);
    ev.selected = false;
    assert!(finding_for(&defs[2], &ev, false, &reach, ProjectMode::Application, &complete()).is_none());
    let mut ev = evidence(0);
    ev.source = None;
    assert!(finding_for(&defs[2], &ev, false, &reach, ProjectMode::Application, &complete()).is_none());
    let mut getattr = definition(2, "__getattr__");
    getattr.reportable = true;
    assert!(finding_for(&getattr, &evidence(0), false, &reach, ProjectMode::Application, &complete()).is_none());
}

#[test]
fn public_definitions_are_review_outside_application_mode() {
    let defs = definitions();
    let finding = finding_for(
        &definition(2, "helper"),
        &evidence(0),
        false,
        &reachability(RootCoverage::Complete),
        ProjectMode::Auto,
        &complete(),
    )
    .unwrap();
    assert_eq!(finding.confidence, FindingConfidence::Review);
    assert_eq!(finding.blockers[0].kind, FindingBlockerKind::PublicSurfacePolicy);
    assert_eq!(defs.len(), 5);
}

fn sample_definition() -> FindingDefinition {
    FindingDefinition {
        kind: DefinitionKind::Class,
        name: "Second".to_owned(),
        qualified_name: "pkg.mod::Second".to_owned(),
        module: "pkg.mod".to_owned(),
        file: "src/pkg/mod.py".to_owned(),
        range: TextRange::new(22, 48),
        line: 4,
        column: 7,
    }
}

#[test]
fn candidate_fingerprint_hashes_the_rule_and_subject() {
    let d = sample_definition();
    let input = "CULL002\0src/pkg/mod.py\022:48\0Class\0pkg.mod::Second\0pkg.mod";
    let digest = blake3::hash(input.as_bytes());
    let expected = format!(
        "CULL002-{}",
        data_encoding::BASE32_NOPAD.encode(&digest.as_bytes()[..16])
    );
    assert_eq!(candidate_fingerprint(FindingRule::Cull002, &d), expected);
    assert_eq!(candidate_fingerprint(FindingRule::Cull002, &d).len(), "CULL002-".len() + 26);
}

#[test]
fn subject_fingerprint_hashes_the_subject() {
    let d = sample_definition();
    let input = "src/pkg/mod.py\022:48\0Class\0pkg.mod::Second\0pkg.mod";
    let digest = blake3::hash(input.as_bytes());
    let expected = format!("SUBJECT-{}", data_encoding::BASE32_NOPAD.encode(&digest.as_bytes()[..16]));
    assert_eq!(subject_fingerprint(&d), expected);
}

#[test]
fn fingerprints_ignore_line_and_column() {
    let d = sample_definition();
    let mut moved = sample_definition();
    moved.line = 9;
    moved.column = 1;
    moved.name = "Other".to_owned();
    assert_eq!(candidate_fingerprint(FindingRule::Cull004, &d), candidate_fingerprint(FindingRule::Cull004, &moved));
    assert_ne!(candidate_fingerprint(FindingRule::Cull004, &d), candidate_fingerprint(FindingRule::Cull002, &d));
}

fn findings() -> Vec<Finding> {
    build_findings(
        &definitions(),
        &all_evidence(),
        &reachability(RootCoverage::Complete),
        ProjectMode::Application,
        &complete(),
    )
}

#[test]
fn repeated_finding_ids_are_numbered_in_order() {
    let mut list = findings();
    let base = list[0].finding_id.clone();
    list[1].finding_id = base.clone();
    list[1].id = base.clone();
    list[3].finding_id = base.clone();
    dedupe_finding_ids(&mut list);
    assert_eq!(list[0].finding_id, base);
    assert_eq!(list[1].finding_id, format!("{base}-2"));
    assert_eq!(list[1].id, format!("{base}-2"));
    assert_eq!(list[3].finding_id, format!("{base}-3"));
    assert_eq!(list[3].id, list[3].id.clone());
}

#[test]
fn distinct_ids_are_left_alone() {
    let mut list = findings();
    let before: Vec<String> = list.iter().map(|f| f.finding_id.clone()).collect();
    dedupe_finding_ids(&mut list);
    let after: Vec<String> = list.iter().map(|f| f.finding_id.clone()).collect();
    assert_eq!(before, after);
}

#[test]
fn findings_sort_by_file_offset_rule_and_id() {
    let mut list = findings();
    list.reverse();
    list[0].definition.file = "a.py".to_owned();
    sort_findings(&mut list);
    let names: Vec<&str> = list.iter().map(|f| f.definition.name.as_str()).collect();
    assert_eq!(names, vec!["_d", "_a", "_b", "_c"]);
}

#[test]
fn finding_order_does_not_depend_on_input_order() {
    let mut forward = findings();
    let mut backward = findings();
    backward.reverse();
    sort_findings(&mut forward);
    sort_findings(&mut backward);
    assert_eq!(forward, backward);
}

fn output(findings: Vec<Finding>) -> CheckOutput {
    CheckOutput {
        schema_version: 2,
        analysis: CheckAnalysis {
            mode: ProjectMode::Application,
            target_python: PythonVersion::py312(),
            root_coverage: RootCoverage::Complete,
        },
        project_completeness: complete(),
        target_python: PythonVersion::py312(),
        project_root: "/repo".to_owned(),
        source_roots: Vec::new(),
        mode: ProjectMode::Application,
        root_coverage: RootCoverage::Complete,
        roots: Vec::new(),
        findings,
        summary: CheckSummary::default(),
        diagnostics: Vec::new(),
    }
}

#[test]
fn candidates_include_suppressed_rule_alternatives() {
    let out = output(findings());
    let candidates = candidates_from_check(&out);
    assert_eq!(candidates.len(), 8);
    let reported: Vec<_> = candidates.iter().filter(|c| c.status == CandidateStatus::Reported).collect();
    let suppressed: Vec<_> = candidates.iter().filter(|c| c.status == CandidateStatus::Suppressed).collect();
    assert_eq!(reported.len(), 4);
    assert_eq!(suppressed.len(), 4);
    for candidate in &suppressed {
        assert_eq!(candidate.suppression_reasons.len(), 1);
        assert!(candidate.confidence.is_none());
        assert!(candidate.candidate_id.starts_with("CULL"));
        assert_eq!(
            candidate.explanation,
            vec!["another rule alternative was selected as the public primary finding".to_owned()]
        );
    }
    for finding in &out.findings {
        assert!(candidates.iter().any(|c| c.candidate_id == finding.finding_id && c.status == CandidateStatus::Reported));
        assert!(candidates.iter().all(|c| c.definition != finding.definition || c.subject_id == subject_fingerprint(&finding.definition)));
    }
    let ids: BTreeSet<&str> = candidates.iter().map(|c| c.candidate_id.as_str()).collect();
    assert_eq!(ids.len(), candidates.len());
}

#[test]
fn candidate_ids_are_stable_across_calls() {
    let out = output(findings());
    let first: Vec<String> = candidates_from_check(&out).into_iter().map(|c| c.candidate_id).collect();
    let second: Vec<String> = candidates_from_check(&out).into_iter().map(|c| c.candidate_id).collect();
    assert_eq!(first, second);
}

#[test]
fn repeated_candidate_ids_are_numbered() {
    let out = output(findings());
    let mut candidates = candidates_from_check(&out);
    let base = candidates[0].candidate_id.clone();
    candidates[2].candidate_id = base.clone();
    dedupe_candidate_ids(&mut candidates);
    assert_eq!(candidates[2].candidate_id, format!("{base}-2"));
    let _ = FileId::new(0);
}

#[test]
fn text_report_lists_high_findings_with_their_evidence() {
    let mut out = output(findings());
    out.findings[1].confidence = FindingConfidence::Review;
    let lines = text_report(&out, false);
    let headers: Vec<&String> = lines.iter().filter(|l| l.starts_with("src/")).collect();
    assert_eq!(headers.len(), 3);
    assert_eq!(lines[0], format!("src/pkg/app.py:1:5 CULL003 unreachable-function"));
    assert_eq!(lines[1], "Function `_a` has no runtime path from Cull's recognized roots.");
    assert_eq!(lines[2], "");
    assert_eq!(lines[3], "Confidence: high");
    assert_eq!(lines[5], "Evidence:");
    assert!(lines[6].starts_with("- "));
    let all = text_report(&out, true);
    assert_eq!(all.iter().filter(|l| l.starts_with("src/")).count(), 4);
    assert!(all.contains(&"Confidence: review".to_owned()));
}

#[test]
fn summary_counts_cover_every_finding() {
    let mut list = findings();
    list[1].confidence = FindingConfidence::Review;
    let summary = cull::findings::summarize_findings(&list);
    assert_eq!(summary.high_confidence + summary.review, list.len());
    assert_eq!(summary.review, list.iter().filter(|f| f.confidence == FindingConfidence::Review).count());
    let suppressed = candidates_from_check(&output(list.clone()))
        .into_iter()
        .filter(|c| c.status == CandidateStatus::Suppressed)
        .count();
    assert_eq!(summary.suppressed, suppressed);
}

/// Base32 as RFC 4648 states it: five bits per symbol, most significant first, the last
/// group filled with zero bits, no padding.
fn rfc4648_base32(bytes: &[u8]) -> String {
    let alphabet = b"ABCDEFGHIJKLMNOPQRSTUVWXYZ234567";
    let bit = |i: usize| if i < 8 * bytes.len() { (bytes[i / 8] >> (7 - i % 8)) & 1 } else { 0 };
    (0..(8 * bytes.len() + 4) / 5)
        .map(|k| {
            let v = (0..5).fold(0usize, |acc, j| acc * 2 + bit(5 * k + j) as usize);
            alphabet[v] as char
        })
        .collect()
}

#[test]
fn fingerprints_use_rfc4648_base32() {
    assert_eq!(rfc4648_base32(b"f"), "MY");
    assert_eq!(rfc4648_base32(b"foobar"), "MZXW6YTBOI");
    let d = sample_definition();
    let input = "src/pkg/mod.py\022:48\0Class\0pkg.mod::Second\0pkg.mod";
    let digest = blake3::hash(input.as_bytes());
    assert_eq!(subject_fingerprint(&d), format!("SUBJECT-{}", rfc4648_base32(&digest.as_bytes()[..16])));
}
