use cull::diagnostic::{Diagnostic, DiagnosticSeverity};
use cull::ids::DefId;
use cull::ir::DefinitionKind;
use cull::output::{
    Candidate, CandidateStatus, CheckSummary, EvidenceKind, EvidenceRecord, ExplainOutput,
    ExplainResult, FindingBlocker, FindingBlockerKind, FindingConfidence, FindingDefinition,
    FindingRemovalRisk, FindingRule, FindingType, ProjectCompleteness, SuppressionReason,
    SuppressionReasonKind,
};
use cull::present::{
    candidate_summary, check_exit_code, confidence_label, definition_label, error_check_output,
    error_explain_output, explain_result, explain_text, finding_type_summary, format_diagnostic,
    has_error_diagnostic,
};
use cull::source::TextRange;

fn candidate(id: &str, name: &str, module: &str, status: CandidateStatus) -> Candidate {
    Candidate {
        candidate_id: id.to_owned(),
        subject_id: format!("SUBJECT-{name}"),
        rule_id: FindingRule::Cull001,
        finding_type: FindingType::Unreferenced,
        definition: FindingDefinition {
            kind: DefinitionKind::Function,
            name: name.to_owned(),
            qualified_name: format!("{module}::{name}"),
            module: module.to_owned(),
            file: format!("src/{}.py", module.replace('.', "/")),
            range: TextRange::new(0, 10),
            line: 3,
            column: 5,
        },
        status,
        confidence: if status == CandidateStatus::Reported { Some(FindingConfidence::High) } else { None },
        confidence_ceiling: FindingConfidence::High,
        blockers: Vec::new(),
        suppression_reasons: Vec::new(),
        uncertainty: Vec::new(),
        evidence: vec![EvidenceRecord {
            kind: EvidenceKind::RemovalRisk,
            summary: "no known definition-time effects were recorded".to_owned(),
        }],
        removal_risk: FindingRemovalRisk::NoKnownDefinitionEffects,
        secondary_conditions: Vec::new(),
        explanation: Vec::new(),
    }
}

#[test]
fn labels_name_kinds_and_confidences() {
    assert_eq!(definition_label(DefinitionKind::Function), "Function");
    assert_eq!(definition_label(DefinitionKind::Class), "Class");
    assert_eq!(confidence_label(FindingConfidence::High), "high");
    assert_eq!(confidence_label(FindingConfidence::Review), "review");
}

#[test]
fn diagnostics_format_with_their_location() {
    let d = Diagnostic::error("CULL_P0201", "invalid syntax");
    assert_eq!(format_diagnostic(&d), "<project> CULL_P0201 Error: invalid syntax");
    let d = d.with_path("src/a.py".to_owned());
    assert_eq!(format_diagnostic(&d), "src/a.py CULL_P0201 Error: invalid syntax");
    let d = d.with_range(TextRange::new(4, 9));
    assert_eq!(format_diagnostic(&d), "src/a.py:4:9 CULL_P0201 Error: invalid syntax");
    let w = Diagnostic::warning("CULL_P0005", "dup").with_range(TextRange::new(1, 2));
    assert_eq!(format_diagnostic(&w), "1:2 CULL_P0005 Warning: dup");
}

#[test]
fn exit_codes_follow_errors_then_high_findings() {
    let mut output = error_check_output(Diagnostic::error("CULL_P0000", "missing"));
    assert_eq!(check_exit_code(&output), 2);
    output.diagnostics[0].severity = DiagnosticSeverity::Warning;
    assert!(!has_error_diagnostic(&output.diagnostics));
    assert_eq!(check_exit_code(&output), 0);
    output.summary = CheckSummary { high_confidence: 2, review: 0, suppressed: 0 };
    assert_eq!(check_exit_code(&output), 1);
    assert_eq!(output.project_root, ".");
    assert!(output.findings.is_empty());
}

#[test]
fn selectors_pick_by_id_then_by_name() {
    let candidates = vec![
        candidate("CULL001-AAA", "helper", "pkg.a", CandidateStatus::Reported),
        candidate("CULL003-BBB", "helper", "pkg.a", CandidateStatus::Suppressed),
        candidate("CULL001-CCC", "other", "pkg.b", CandidateStatus::Reported),
    ];
    match explain_result(&candidates, "CULL003-BBB") {
        ExplainResult::Found { candidate } => assert_eq!(candidate.candidate_id, "CULL003-BBB"),
        other => panic!("unexpected {other:?}"),
    }
    match explain_result(&candidates, "pkg.b::other") {
        ExplainResult::Found { candidate } => assert_eq!(candidate.candidate_id, "CULL001-CCC"),
        other => panic!("unexpected {other:?}"),
    }
    match explain_result(&candidates, "helper") {
        ExplainResult::Ambiguous { candidates: found } => {
            assert_eq!(found.len(), 2);
            assert_eq!(found[0], candidate_summary(&candidates[0]));
            assert_eq!(found[1].candidate_id, "CULL003-BBB");
        },
        other => panic!("unexpected {other:?}"),
    }
    assert_eq!(explain_result(&candidates, "missing"), ExplainResult::NotFound);
}

#[test]
fn explanations_list_status_blockers_suppression_and_evidence() {
    let mut c = candidate("CULL003-BBB", "helper", "pkg.a", CandidateStatus::Suppressed);
    c.blockers.push(FindingBlocker { kind: FindingBlockerKind::RootCoverage, detail: "partial roots".to_owned() });
    c.suppression_reasons.push(SuppressionReason {
        kind: SuppressionReasonKind::NonPrimaryRuleAlternative,
        detail: "another rule".to_owned(),
    });
    let mut output = error_explain_output(Diagnostic::error("X", "y"));
    output.selector = "helper".to_owned();
    output.result = ExplainResult::Found { candidate: Box::new(c.clone()) };
    let lines = explain_text(&output);
    assert_eq!(
        lines,
        vec![
            "src/pkg/a.py:3:5 CULL001 unreferenced-function",
            "Function `helper` has no resolved inbound references under Cull's static model.",
            "",
            "Candidate ID: CULL003-BBB",
            "Status: Suppressed",
            "",
            "Blockers:",
            "- RootCoverage: partial roots",
            "",
            "Suppression:",
            "- NonPrimaryRuleAlternative: another rule",
            "",
            "Evidence:",
            "- RemovalRisk: no known definition-time effects were recorded",
        ]
    );
    assert_eq!(
        finding_type_summary(&c),
        "Function `helper` has no resolved inbound references under Cull's static model."
    );
    output.result = ExplainResult::NotFound;
    assert_eq!(explain_text(&output), vec!["selector `helper` did not match any candidate"]);
    output.result = ExplainResult::Ambiguous { candidates: vec![candidate_summary(&c)] };
    assert_eq!(
        explain_text(&output),
        vec![
            "selector `helper` is ambiguous",
            "",
            "CULL003-BBB CULL001 Suppressed pkg.a::helper src/pkg/a.py:3:5",
        ]
    );
    let _ = (ExplainOutput::clone(&output), ProjectCompleteness::complete(), DefId::new(0));
}
