//! How results are presented: diagnostic lines, exit codes, the text report of a check, and
//! the explanation of one candidate chosen by a selector.
use vstd::prelude::*;

use vstd::string::StringExecFns;

use crate::candidates::{copy_candidate, same_candidate};
use crate::diagnostic::{Diagnostic, DiagnosticSeverity};
use crate::ir::DefinitionKind;
use crate::output::{
    rule_code, rule_text_name, string_views, Candidate, CandidateStatus, CandidateSummary,
    CheckAnalysis, CheckOutput, CheckSummary, DebugModule, EvidenceKind, EvidenceRecord, ExplainOutput,
    ExplainResult, Finding, FindingBlocker, FindingBlockerKind, FindingConfidence, FindingRule,
    FindingType, FindingUncertainty, ProjectCompleteness, ProjectMode, RootCoverage,
    SuppressionReason, SuppressionReasonKind,
};
use crate::source::{decimal_spec, decimal_string, PythonVersion};
use crate::order::{
    compare_strs, lemma_lex_concat, lemma_opt_num_key_separated, lemma_opt_str_key_separated,
    lemma_str_key_separated, lex_lt, opt_num_key, opt_str_key, str_key, SortKey,
};
use crate::text::str_eq;

verus! {

// ----- labels -----

/// How a definition kind is named in reports.
pub open spec fn definition_label_spec(kind: DefinitionKind) -> Seq<char> {
    match kind {
        DefinitionKind::Function => "Function"@,
        DefinitionKind::Class => "Class"@,
    }
}

/// How a definition kind is named in reports.
pub fn definition_label(kind: DefinitionKind) -> (s: &'static str)
    ensures
        s@ == definition_label_spec(kind),
{
    match kind {
        DefinitionKind::Function => "Function",
        DefinitionKind::Class => "Class",
    }
}

/// How a confidence is named in the text report.
pub open spec fn confidence_label_spec(c: FindingConfidence) -> Seq<char> {
    match c {
        FindingConfidence::High => "high"@,
        FindingConfidence::Review => "review"@,
    }
}

/// How a confidence is named in the text report.
pub fn confidence_label(confidence: FindingConfidence) -> (s: &'static str)
    ensures
        s@ == confidence_label_spec(confidence),
{
    match confidence {
        FindingConfidence::High => "high",
        FindingConfidence::Review => "review",
    }
}

/// The name of a severity.
pub open spec fn severity_name(s: DiagnosticSeverity) -> Seq<char> {
    match s {
        DiagnosticSeverity::Error => "Error"@,
        DiagnosticSeverity::Warning => "Warning"@,
    }
}

fn severity_str(s: DiagnosticSeverity) -> (out: &'static str)
    ensures
        out@ == severity_name(s),
{
    match s {
        DiagnosticSeverity::Error => "Error",
        DiagnosticSeverity::Warning => "Warning",
    }
}

/// The name of a candidate status.
pub open spec fn status_name(s: CandidateStatus) -> Seq<char> {
    match s {
        CandidateStatus::Reported => "Reported"@,
        CandidateStatus::Suppressed => "Suppressed"@,
    }
}

fn status_str(s: CandidateStatus) -> (out: &'static str)
    ensures
        out@ == status_name(s),
{
    match s {
        CandidateStatus::Reported => "Reported",
        CandidateStatus::Suppressed => "Suppressed",
    }
}

/// The name of a confidence.
pub open spec fn confidence_name(c: FindingConfidence) -> Seq<char> {
    match c {
        FindingConfidence::High => "High"@,
        FindingConfidence::Review => "Review"@,
    }
}

fn confidence_str(c: FindingConfidence) -> (out: &'static str)
    ensures
        out@ == confidence_name(c),
{
    match c {
        FindingConfidence::High => "High",
        FindingConfidence::Review => "Review",
    }
}

// ----- one-line summaries -----

/// The sentence that states a finding's claim about definition `name` of kind `kind`.
pub open spec fn claim_sentence(finding_type: FindingType, kind: DefinitionKind, name: Seq<char>) -> Seq<char> {
    definition_label_spec(kind) + " `"@ + name + (match finding_type {
        FindingType::Unreferenced => "` has no resolved inbound references under Cull's static model."@,
        FindingType::RootUnreachable => "` has no runtime path from Cull's recognized roots."@,
    })
}

fn claim_text(finding_type: FindingType, kind: DefinitionKind, name: &str) -> (s: String)
    ensures
        s@ == claim_sentence(finding_type, kind, name@),
{
    let mut s = <String as StringExecFns>::from_str(definition_label(kind));
    s.append(" `");
    s.append(name);
    match finding_type {
        FindingType::Unreferenced => s.append("` has no resolved inbound references under Cull's static model."),
        FindingType::RootUnreachable => s.append("` has no runtime path from Cull's recognized roots."),
    }
    s
}

/// The sentence that states a finding's claim.
pub fn finding_summary(finding: &Finding) -> (s: String)
    ensures
        s@ == claim_sentence(finding.finding_type, finding.definition.kind, finding.definition.name@),
{
    claim_text(finding.finding_type, finding.definition.kind, finding.definition.name.as_str())
}

/// The sentence that states a candidate's claim.
pub fn finding_type_summary(candidate: &Candidate) -> (s: String)
    ensures
        s@ == claim_sentence(candidate.finding_type, candidate.definition.kind, candidate.definition.name@),
{
    claim_text(candidate.finding_type, candidate.definition.kind, candidate.definition.name.as_str())
}

// ----- diagnostics -----

/// Where a diagnostic points: `path:start:end`, the path, the range, or `<project>`.
pub open spec fn diagnostic_location(d: Diagnostic) -> Seq<char> {
    match (d.path, d.range) {
        (Some(path), Some(range)) => path@ + seq![':'] + decimal_spec(range.start as nat) + seq![':']
            + decimal_spec(range.end as nat),
        (Some(path), None) => path@,
        (None, Some(range)) => decimal_spec(range.start as nat) + seq![':'] + decimal_spec(range.end as nat),
        (None, None) => "<project>"@,
    }
}

/// A diagnostic as one line: location, code, severity and message.
pub open spec fn diagnostic_line(d: Diagnostic) -> Seq<char> {
    diagnostic_location(d) + seq![' '] + d.code@ + seq![' '] + severity_name(d.severity) + ": "@ + d.message@
}

fn append_range(s: &mut String, start: u32, end: u32)
    ensures
        final(s)@ == old(s)@ + decimal_spec(start as nat) + seq![':'] + decimal_spec(end as nat),
{
    let a = decimal_string(start as u64);
    s.append(a.as_str());
    crate::text::push_char(s, ':');
    let b = decimal_string(end as u64);
    s.append(b.as_str());
    proof {
        assert(final(s)@ =~= old(s)@ + decimal_spec(start as nat) + seq![':'] + decimal_spec(end as nat));
    }
}

/// A diagnostic as one line of text.
pub fn format_diagnostic(diagnostic: &Diagnostic) -> (s: String)
    ensures
        s@ == diagnostic_line(*diagnostic),
{
    let mut s = String::new();
    match (&diagnostic.path, &diagnostic.range) {
        (Some(path), Some(range)) => {
            s.append(path.as_str());
            crate::text::push_char(&mut s, ':');
            append_range(&mut s, range.start, range.end);
        },
        (Some(path), None) => {
            s.append(path.as_str());
        },
        (None, Some(range)) => {
            append_range(&mut s, range.start, range.end);
        },
        (None, None) => {
            s.append("<project>");
        },
    }
    let ghost location = s@;
    proof {
        assert(location =~= diagnostic_location(*diagnostic));
    }
    crate::text::push_char(&mut s, ' ');
    s.append(diagnostic.code.as_str());
    crate::text::push_char(&mut s, ' ');
    s.append(severity_str(diagnostic.severity));
    s.append(": ");
    s.append(diagnostic.message.as_str());
    proof {
        assert(s@ =~= diagnostic_line(*diagnostic));
    }
    s
}

/// Some diagnostic is an error.
pub open spec fn has_error(ds: Seq<Diagnostic>) -> bool {
    exists|k: int| 0 <= k < ds.len() && (#[trigger] ds[k]).severity == DiagnosticSeverity::Error
}

/// Whether some diagnostic is an error.
pub fn has_error_diagnostic(diagnostics: &Vec<Diagnostic>) -> (yes: bool)
    ensures
        yes == has_error(diagnostics@),
{
    let mut k: usize = 0;
    while k < diagnostics.len()
        invariant
            0 <= k <= diagnostics@.len(),
            forall|j: int| 0 <= j < k ==> (#[trigger] diagnostics@[j]).severity != DiagnosticSeverity::Error,
        decreases diagnostics@.len() - k,
    {
        if diagnostics[k].severity == DiagnosticSeverity::Error {
            return true;
        }
        k = k + 1;
    }
    false
}

/// The exit code of a check: 2 when a diagnostic is an error, 1 when some finding is
/// high-confidence, 0 otherwise.
pub fn check_exit_code(output: &CheckOutput) -> (code: u8)
    ensures
        code == (if has_error(output.diagnostics@) {
            2u8
        } else if output.summary.high_confidence > 0 {
            1u8
        } else {
            0u8
        }),
{
    if has_error_diagnostic(&output.diagnostics) {
        2
    } else if output.summary.high_confidence > 0 {
        1
    } else {
        0
    }
}

// ----- outputs for a failed analysis -----

/// The check output reported when the analysis itself failed with `diagnostic`.
pub fn error_check_output(diagnostic: Diagnostic) -> (out: CheckOutput)
    ensures
        out.schema_version == 2,
        out.analysis.mode == ProjectMode::Auto,
        out.analysis.root_coverage == RootCoverage::Absent,
        out.project_root@ == "."@,
        out.source_roots@.len() == 0,
        out.mode == ProjectMode::Auto,
        out.root_coverage == RootCoverage::Absent,
        out.roots@.len() == 0,
        out.findings@.len() == 0,
        out.summary.high_confidence == 0 && out.summary.review == 0 && out.summary.suppressed == 0,
        out.diagnostics@ == seq![diagnostic],
        out.project_completeness.skipped_files@.len() == 0,
{
    let mut diagnostics: Vec<Diagnostic> = Vec::new();
    diagnostics.push(diagnostic);
    CheckOutput {
        schema_version: 2,
        analysis: CheckAnalysis {
            mode: ProjectMode::Auto,
            target_python: PythonVersion::default_version(),
            root_coverage: RootCoverage::Absent,
        },
        project_completeness: ProjectCompleteness::complete(),
        target_python: PythonVersion::default_version(),
        project_root: <String as StringExecFns>::from_str("."),
        source_roots: Vec::new(),
        mode: ProjectMode::Auto,
        root_coverage: RootCoverage::Absent,
        roots: Vec::new(),
        findings: Vec::new(),
        summary: CheckSummary { high_confidence: 0, review: 0, suppressed: 0 },
        diagnostics,
    }
}

/// The explain output reported when the analysis itself failed with `diagnostic`.
pub fn error_explain_output(diagnostic: Diagnostic) -> (out: ExplainOutput)
    ensures
        out.schema_version == 2,
        out.selector@.len() == 0,
        out.analysis.mode == ProjectMode::Auto,
        out.analysis.root_coverage == RootCoverage::Absent,
        out.project_root@ == "."@,
        out.result is NotFound,
        out.diagnostics@ == seq![diagnostic],
        out.project_completeness.skipped_files@.len() == 0,
{
    let mut diagnostics: Vec<Diagnostic> = Vec::new();
    diagnostics.push(diagnostic);
    ExplainOutput {
        schema_version: 2,
        selector: String::new(),
        analysis: CheckAnalysis {
            mode: ProjectMode::Auto,
            target_python: PythonVersion::default_version(),
            root_coverage: RootCoverage::Absent,
        },
        project_root: <String as StringExecFns>::from_str("."),
        project_completeness: ProjectCompleteness::complete(),
        result: ExplainResult::NotFound,
        diagnostics,
    }
}

// ----- explaining a selector -----

/// The candidate is named by the selector: its qualified name, its name, or `module::name`.
pub open spec fn named_by(c: Candidate, selector: Seq<char>) -> bool {
    c.definition.qualified_name@ == selector || c.definition.name@ == selector || c.definition.module@ + "::"@
        + c.definition.name@ == selector
}

/// The candidates named by the selector, in order.
pub open spec fn named_candidates(cs: Seq<Candidate>, selector: Seq<char>) -> Seq<Candidate>
    decreases cs.len(),
{
    if cs.len() == 0 {
        Seq::empty()
    } else {
        let prev = named_candidates(cs.drop_last(), selector);
        if named_by(cs.last(), selector) {
            prev.push(cs.last())
        } else {
            prev
        }
    }
}

/// `k` is the first candidate with identifier `id`.
pub open spec fn first_with_id(cs: Seq<Candidate>, id: Seq<char>, k: int) -> bool {
    &&& 0 <= k < cs.len()
    &&& cs[k].candidate_id@ == id
    &&& forall|j: int| 0 <= j < k ==> (#[trigger] cs[j]).candidate_id@ != id
}

/// Some candidate has identifier `id`.
pub open spec fn has_id(cs: Seq<Candidate>, id: Seq<char>) -> bool {
    exists|k: int| 0 <= k < cs.len() && (#[trigger] cs[k]).candidate_id@ == id
}

/// `s` summarizes candidate `c`.
pub open spec fn summarizes(s: CandidateSummary, c: Candidate) -> bool {
    &&& s.candidate_id == c.candidate_id
    &&& s.rule_id == c.rule_id
    &&& s.status == c.status
    &&& s.confidence == c.confidence
    &&& s.qualified_name == c.definition.qualified_name
    &&& s.file == c.definition.file
    &&& s.line == c.definition.line
    &&& s.column == c.definition.column
}

/// The summary of a candidate listed for an ambiguous selector.
pub fn candidate_summary(candidate: &Candidate) -> (s: CandidateSummary)
    ensures
        summarizes(s, *candidate),
{
    CandidateSummary {
        candidate_id: candidate.candidate_id.clone(),
        rule_id: candidate.rule_id,
        status: candidate.status,
        confidence: candidate.confidence,
        qualified_name: candidate.definition.qualified_name.clone(),
        file: candidate.definition.file.clone(),
        line: candidate.definition.line,
        column: candidate.definition.column,
    }
}

/// `r` is what a selector picks among the candidates: the first candidate whose identifier
/// it is; else the only candidate it names (the first with that one's identifier); else,
/// when it names several, their summaries; else nothing.
pub open spec fn explained(cs: Seq<Candidate>, selector: Seq<char>, r: ExplainResult) -> bool {
    let named = named_candidates(cs, selector);
    if has_id(cs, selector) {
        r matches ExplainResult::Found { candidate } && exists|k: int|
            first_with_id(cs, selector, k) && same_candidate(*candidate, #[trigger] cs[k])
    } else if named.len() == 1 {
        r matches ExplainResult::Found { candidate } && exists|k: int|
            first_with_id(cs, named[0].candidate_id@, k) && same_candidate(*candidate, #[trigger] cs[k])
    } else if named.len() == 0 {
        r is NotFound
    } else {
        r matches ExplainResult::Ambiguous { candidates } && candidates@.len() == named.len() && forall|i: int|
            0 <= i < named.len() ==> summarizes(#[trigger] candidates@[i], named[i])
    }
}

/// The first candidate with identifier `id`, if any.
fn find_by_id(candidates: &Vec<Candidate>, id: &str) -> (k: Option<usize>)
    ensures
        match k {
            Some(k) => first_with_id(candidates@, id@, k as int),
            None => !has_id(candidates@, id@),
        },
{
    let mut k: usize = 0;
    while k < candidates.len()
        invariant
            0 <= k <= candidates@.len(),
            forall|j: int| 0 <= j < k ==> (#[trigger] candidates@[j]).candidate_id@ != id@,
        decreases candidates@.len() - k,
    {
        if str_eq(candidates[k].candidate_id.as_str(), id) {
            return Some(k);
        }
        k = k + 1;
    }
    None
}

fn is_named_by(candidate: &Candidate, selector: &str) -> (yes: bool)
    ensures
        yes == named_by(*candidate, selector@),
{
    if str_eq(candidate.definition.qualified_name.as_str(), selector) || str_eq(candidate.definition.name.as_str(), selector) {
        return true;
    }
    let mut full = candidate.definition.module.clone();
    full.append("::");
    full.append(candidate.definition.name.as_str());
    str_eq(full.as_str(), selector)
}

/// What a selector picks among the candidates.
pub fn explain_result(candidates: &Vec<Candidate>, selector: &str) -> (r: ExplainResult)
    ensures
        explained(candidates@, selector@, r),
{
    if let Some(k) = find_by_id(candidates, selector) {
        return ExplainResult::Found { candidate: Box::new(copy_candidate(&candidates[k])) };
    }
    let ghost cs = candidates@;
    let mut matches: Vec<CandidateSummary> = Vec::new();
    let mut first: Option<usize> = None;
    let mut i: usize = 0;
    while i < candidates.len()
        invariant
            cs == candidates@,
            0 <= i <= cs.len(),
            matches@.len() == named_candidates(cs.take(i as int), selector@).len(),
            forall|t: int|
                0 <= t < matches@.len() ==> summarizes(#[trigger] matches@[t], named_candidates(cs.take(i as int), selector@)[t]),
            match first {
                Some(f) => f < i && named_candidates(cs.take(i as int), selector@).len() > 0
                    && named_candidates(cs.take(i as int), selector@)[0] == cs[f as int],
                None => named_candidates(cs.take(i as int), selector@).len() == 0,
            },
        decreases cs.len() - i,
    {
        let ghost before = named_candidates(cs.take(i as int), selector@);
        proof {
            assert(cs.take(i + 1).drop_last() =~= cs.take(i as int));
            assert(cs.take(i + 1).last() == cs[i as int]);
        }
        if is_named_by(&candidates[i], selector) {
            let ghost m0 = matches@;
            matches.push(candidate_summary(&candidates[i]));
            if first.is_none() {
                first = Some(i);
            }
            proof {
                let after = named_candidates(cs.take(i + 1), selector@);
                assert(after == before.push(cs[i as int]));
                assert forall|t: int| 0 <= t < matches@.len() implies summarizes(#[trigger] matches@[t], after[t]) by {
                    if t < m0.len() {
                        assert(matches@[t] == m0[t]);
                    }
                }
            }
        }
        i = i + 1;
    }
    proof {
        assert(cs.take(cs.len() as int) =~= cs);
    }
    if matches.len() == 0 {
        return ExplainResult::NotFound;
    }
    if matches.len() == 1 {
        let f = match first {
            Some(f) => f,
            None => {
                return ExplainResult::NotFound;
            },
        };
        return match find_by_id(candidates, candidates[f].candidate_id.as_str()) {
            Some(k) => ExplainResult::Found { candidate: Box::new(copy_candidate(&candidates[k])) },
            None => ExplainResult::NotFound,
        };
    }
    ExplainResult::Ambiguous { candidates: matches }
}

// ----- the text report of a check -----

/// `file:line:column CODE name`: where a finding is, and its rule.
pub open spec fn location_header(file: Seq<char>, line: u32, column: u32, rule: FindingRule) -> Seq<char> {
    file + seq![':'] + decimal_spec(line as nat) + seq![':'] + decimal_spec(column as nat) + seq![' '] + rule_code(rule)
        + seq![' '] + rule_text_name(rule)
}

/// The lines of one finding in the text report: where it is, its claim, its confidence, and
/// its explanation and uncertainty as evidence.
pub open spec fn finding_block(f: Finding) -> Seq<Seq<char>> {
    seq![
        location_header(f.definition.file@, f.definition.line, f.definition.column, f.rule_id),
        claim_sentence(f.finding_type, f.definition.kind, f.definition.name@),
        Seq::empty(),
        "Confidence: "@ + confidence_label_spec(f.confidence),
        Seq::empty(),
        "Evidence:"@,
    ] + f.explanation@.map_values(|e: String| "- "@ + e@) + f.uncertainty@.map_values(
        |u: FindingUncertainty| "- uncertainty: "@ + u.detail@,
    )
}

/// The finding is listed: every finding with `show_review`, else only high-confidence ones.
pub open spec fn listed(f: Finding, show_review: bool) -> bool {
    show_review || f.confidence == FindingConfidence::High
}

/// The text report: the blocks of the listed findings, separated by empty lines.
pub open spec fn report_lines(fs: Seq<Finding>, show_review: bool) -> Seq<Seq<char>>
    decreases fs.len(),
{
    if fs.len() == 0 {
        Seq::empty()
    } else {
        let prev = report_lines(fs.drop_last(), show_review);
        if listed(fs.last(), show_review) {
            if prev.len() > 0 {
                prev.push(Seq::empty()) + finding_block(fs.last())
            } else {
                finding_block(fs.last())
            }
        } else {
            prev
        }
    }
}

fn push_line(lines: &mut Vec<String>, line: String)
    ensures
        string_views(final(lines)@) == string_views(old(lines)@).push(line@),
{
    lines.push(line);
    proof {
        assert(string_views(lines@) =~= string_views(old(lines)@).push(line@));
    }
}

fn location_text(file: &str, line: u32, column: u32, rule: FindingRule) -> (s: String)
    ensures
        s@ == location_header(file@, line, column, rule),
{
    let mut s = <String as StringExecFns>::from_str(file);
    crate::text::push_char(&mut s, ':');
    let l = decimal_string(line as u64);
    s.append(l.as_str());
    crate::text::push_char(&mut s, ':');
    let c = decimal_string(column as u64);
    s.append(c.as_str());
    crate::text::push_char(&mut s, ' ');
    s.append(rule.code());
    crate::text::push_char(&mut s, ' ');
    s.append(rule.text_name());
    proof {
        assert(s@ =~= location_header(file@, line, column, rule));
    }
    s
}

fn prefixed(prefix: &str, text: &str) -> (s: String)
    ensures
        s@ == prefix@ + text@,
{
    let mut s = <String as StringExecFns>::from_str(prefix);
    s.append(text);
    s
}

fn append_finding_block(lines: &mut Vec<String>, f: &Finding)
    ensures
        string_views(final(lines)@) == string_views(old(lines)@) + finding_block(*f),
{
    let ghost start = string_views(lines@);
    push_line(lines, location_text(f.definition.file.as_str(), f.definition.line, f.definition.column, f.rule_id));
    push_line(lines, finding_summary(f));
    push_line(lines, String::new());
    push_line(lines, prefixed("Confidence: ", confidence_label(f.confidence)));
    push_line(lines, String::new());
    push_line(lines, <String as StringExecFns>::from_str("Evidence:"));
    let ghost head = string_views(lines@);
    proof {
        assert(head =~= start + seq![
            location_header(f.definition.file@, f.definition.line, f.definition.column, f.rule_id),
            claim_sentence(f.finding_type, f.definition.kind, f.definition.name@),
            Seq::empty(),
            "Confidence: "@ + confidence_label_spec(f.confidence),
            Seq::empty(),
            "Evidence:"@,
        ]);
    }
    let ghost expl = f.explanation@.map_values(|e: String| "- "@ + e@);
    let mut k: usize = 0;
    while k < f.explanation.len()
        invariant
            0 <= k <= f.explanation@.len(),
            expl == f.explanation@.map_values(|e: String| "- "@ + e@),
            string_views(lines@) == head + expl.take(k as int),
        decreases f.explanation@.len() - k,
    {
        push_line(lines, prefixed("- ", f.explanation[k].as_str()));
        k = k + 1;
        proof {
            assert(expl.take(k as int) =~= expl.take(k - 1).push(expl[k - 1]));
        }
    }
    proof {
        assert(expl.take(expl.len() as int) =~= expl);
    }
    let ghost mid = string_views(lines@);
    let ghost unc = f.uncertainty@.map_values(|u: FindingUncertainty| "- uncertainty: "@ + u.detail@);
    let mut j: usize = 0;
    while j < f.uncertainty.len()
        invariant
            0 <= j <= f.uncertainty@.len(),
            unc == f.uncertainty@.map_values(|u: FindingUncertainty| "- uncertainty: "@ + u.detail@),
            string_views(lines@) == mid + unc.take(j as int),
        decreases f.uncertainty@.len() - j,
    {
        push_line(lines, prefixed("- uncertainty: ", f.uncertainty[j].detail.as_str()));
        j = j + 1;
        proof {
            assert(unc.take(j as int) =~= unc.take(j - 1).push(unc[j - 1]));
        }
    }
    proof {
        assert(unc.take(unc.len() as int) =~= unc);
        assert(string_views(lines@) =~= string_views(old(lines)@) + finding_block(*f));
    }
}

/// The text report of a check, line by line.
pub fn text_report(output: &CheckOutput, show_review: bool) -> (lines: Vec<String>)
    ensures
        string_views(lines@) == report_lines(output.findings@, show_review),
{
    let ghost fs = output.findings@;
    let mut lines: Vec<String> = Vec::new();
    let mut first = true;
    let mut k: usize = 0;
    proof {
        assert(string_views(lines@) =~= Seq::<Seq<char>>::empty());
        assert(fs.take(0) =~= Seq::<Finding>::empty());
    }
    while k < output.findings.len()
        invariant
            fs == output.findings@,
            0 <= k <= fs.len(),
            string_views(lines@) == report_lines(fs.take(k as int), show_review),
            first <==> report_lines(fs.take(k as int), show_review).len() == 0,
        decreases fs.len() - k,
    {
        let f = &output.findings[k];
        proof {
            assert(fs.take(k + 1).drop_last() =~= fs.take(k as int));
            assert(fs.take(k + 1).last() == fs[k as int]);
        }
        if show_review || f.confidence == FindingConfidence::High {
            if !first {
                push_line(&mut lines, String::new());
            }
            append_finding_block(&mut lines, f);
            first = false;
        }
        k = k + 1;
    }
    proof {
        assert(fs.take(fs.len() as int) =~= fs);
    }
    lines
}

// ----- the text of an explanation -----

/// The name of a blocker kind.
pub open spec fn blocker_kind_name(k: FindingBlockerKind) -> Seq<char> {
    match k {
        FindingBlockerKind::AnalysisUncertainty => "AnalysisUncertainty"@,
        FindingBlockerKind::PartialProjectAnalysis => "PartialProjectAnalysis"@,
        FindingBlockerKind::PublicSurfacePolicy => "PublicSurfacePolicy"@,
        FindingBlockerKind::RemovalRisk => "RemovalRisk"@,
        FindingBlockerKind::RootCoverage => "RootCoverage"@,
    }
}

fn blocker_kind_str(k: FindingBlockerKind) -> (s: &'static str)
    ensures
        s@ == blocker_kind_name(k),
{
    match k {
        FindingBlockerKind::AnalysisUncertainty => "AnalysisUncertainty",
        FindingBlockerKind::PartialProjectAnalysis => "PartialProjectAnalysis",
        FindingBlockerKind::PublicSurfacePolicy => "PublicSurfacePolicy",
        FindingBlockerKind::RemovalRisk => "RemovalRisk",
        FindingBlockerKind::RootCoverage => "RootCoverage",
    }
}

/// The name of a suppression reason kind.
pub open spec fn suppression_kind_name(k: SuppressionReasonKind) -> Seq<char> {
    match k {
        SuppressionReasonKind::NonPrimaryRuleAlternative => "NonPrimaryRuleAlternative"@,
        SuppressionReasonKind::CandidateConstructionInvalidated => "CandidateConstructionInvalidated"@,
        SuppressionReasonKind::UnsupportedFlow => "UnsupportedFlow"@,
        SuppressionReasonKind::UnboundedDynamicBehavior => "UnboundedDynamicBehavior"@,
    }
}

fn suppression_kind_str(k: SuppressionReasonKind) -> (s: &'static str)
    ensures
        s@ == suppression_kind_name(k),
{
    match k {
        SuppressionReasonKind::NonPrimaryRuleAlternative => "NonPrimaryRuleAlternative",
        SuppressionReasonKind::CandidateConstructionInvalidated => "CandidateConstructionInvalidated",
        SuppressionReasonKind::UnsupportedFlow => "UnsupportedFlow",
        SuppressionReasonKind::UnboundedDynamicBehavior => "UnboundedDynamicBehavior",
    }
}

/// The name of an evidence kind.
pub open spec fn evidence_kind_name(k: EvidenceKind) -> Seq<char> {
    match k {
        EvidenceKind::NoInboundReferences => "NoInboundReferences"@,
        EvidenceKind::InboundReferenceSummary => "InboundReferenceSummary"@,
        EvidenceKind::ExportStatus => "ExportStatus"@,
        EvidenceKind::ModePolicy => "ModePolicy"@,
        EvidenceKind::RootCoverage => "RootCoverage"@,
        EvidenceKind::ReachabilitySummary => "ReachabilitySummary"@,
        EvidenceKind::DeadClusterMembership => "DeadClusterMembership"@,
        EvidenceKind::OriginSummary => "OriginSummary"@,
        EvidenceKind::DefinitionEffect => "DefinitionEffect"@,
        EvidenceKind::RemovalRisk => "RemovalRisk"@,
        EvidenceKind::ProjectCompleteness => "ProjectCompleteness"@,
        EvidenceKind::ConfidenceBlocker => "ConfidenceBlocker"@,
        EvidenceKind::Uncertainty => "Uncertainty"@,
        EvidenceKind::SecondaryCondition => "SecondaryCondition"@,
    }
}

fn evidence_kind_str(k: EvidenceKind) -> (s: &'static str)
    ensures
        s@ == evidence_kind_name(k),
{
    match k {
        EvidenceKind::NoInboundReferences => "NoInboundReferences",
        EvidenceKind::InboundReferenceSummary => "InboundReferenceSummary",
        EvidenceKind::ExportStatus => "ExportStatus",
        EvidenceKind::ModePolicy => "ModePolicy",
        EvidenceKind::RootCoverage => "RootCoverage",
        EvidenceKind::ReachabilitySummary => "ReachabilitySummary",
        EvidenceKind::DeadClusterMembership => "DeadClusterMembership",
        EvidenceKind::OriginSummary => "OriginSummary",
        EvidenceKind::DefinitionEffect => "DefinitionEffect",
        EvidenceKind::RemovalRisk => "RemovalRisk",
        EvidenceKind::ProjectCompleteness => "ProjectCompleteness",
        EvidenceKind::ConfidenceBlocker => "ConfidenceBlocker",
        EvidenceKind::Uncertainty => "Uncertainty",
        EvidenceKind::SecondaryCondition => "SecondaryCondition",
    }
}

/// `- name: detail`.
pub open spec fn item_line(name: Seq<char>, detail: Seq<char>) -> Seq<char> {
    "- "@ + name + ": "@ + detail
}

fn item_text(name: &str, detail: &str) -> (s: String)
    ensures
        s@ == item_line(name@, detail@),
{
    let mut s = <String as StringExecFns>::from_str("- ");
    s.append(name);
    s.append(": ");
    s.append(detail);
    s
}

/// The lines explaining one candidate.
pub open spec fn candidate_lines(c: Candidate) -> Seq<Seq<char>> {
    seq![
        location_header(c.definition.file@, c.definition.line, c.definition.column, c.rule_id),
        claim_sentence(c.finding_type, c.definition.kind, c.definition.name@),
        Seq::empty(),
        "Candidate ID: "@ + c.candidate_id@,
        "Status: "@ + status_name(c.status),
    ] + (match c.confidence {
        Some(conf) => seq!["Confidence: "@ + confidence_name(conf)],
        None => Seq::empty(),
    }) + (if c.blockers@.len() > 0 {
        seq![Seq::empty(), "Blockers:"@] + c.blockers@.map_values(
            |b: FindingBlocker| item_line(blocker_kind_name(b.kind), b.detail@),
        )
    } else {
        Seq::empty()
    }) + (if c.suppression_reasons@.len() > 0 {
        seq![Seq::empty(), "Suppression:"@] + c.suppression_reasons@.map_values(
            |r: SuppressionReason| item_line(suppression_kind_name(r.kind), r.detail@),
        )
    } else {
        Seq::empty()
    }) + seq![Seq::empty(), "Evidence:"@] + c.evidence@.map_values(
        |e: EvidenceRecord| item_line(evidence_kind_name(e.kind), e.summary@),
    )
}

/// One line per candidate an ambiguous selector named.
pub open spec fn summary_line(s: CandidateSummary) -> Seq<char> {
    s.candidate_id@ + seq![' '] + rule_code(s.rule_id) + seq![' '] + status_name(s.status) + seq![' ']
        + s.qualified_name@ + seq![' '] + s.file@ + seq![':'] + decimal_spec(s.line as nat) + seq![':']
        + decimal_spec(s.column as nat)
}

/// The text of an explanation.
pub open spec fn explain_lines(out: ExplainOutput) -> Seq<Seq<char>> {
    match out.result {
        ExplainResult::Found { candidate } => candidate_lines(*candidate),
        ExplainResult::Ambiguous { candidates } => seq![
            "selector `"@ + out.selector@ + "` is ambiguous"@,
            Seq::empty(),
        ] + candidates@.map_values(|s: CandidateSummary| summary_line(s)),
        ExplainResult::NotFound => seq!["selector `"@ + out.selector@ + "` did not match any candidate"@],
    }
}

fn candidate_text_lines(c: &Candidate) -> (lines: Vec<String>)
    ensures
        string_views(lines@) == candidate_lines(*c),
{
    let mut lines: Vec<String> = Vec::new();
    push_line(&mut lines, location_text(c.definition.file.as_str(), c.definition.line, c.definition.column, c.rule_id));
    push_line(&mut lines, finding_type_summary(c));
    push_line(&mut lines, String::new());
    push_line(&mut lines, prefixed("Candidate ID: ", c.candidate_id.as_str()));
    push_line(&mut lines, prefixed("Status: ", status_str(c.status)));
    match c.confidence {
        Some(conf) => push_line(&mut lines, prefixed("Confidence: ", confidence_str(conf))),
        None => {},
    }
    let ghost after_head = string_views(lines@);
    if c.blockers.len() > 0 {
        push_line(&mut lines, String::new());
        push_line(&mut lines, <String as StringExecFns>::from_str("Blockers:"));
        let ghost base = string_views(lines@);
        let ghost items = c.blockers@.map_values(|b: FindingBlocker| item_line(blocker_kind_name(b.kind), b.detail@));
        let mut k: usize = 0;
        while k < c.blockers.len()
            invariant
                0 <= k <= c.blockers@.len(),
                items == c.blockers@.map_values(|b: FindingBlocker| item_line(blocker_kind_name(b.kind), b.detail@)),
                string_views(lines@) == base + items.take(k as int),
            decreases c.blockers@.len() - k,
        {
            push_line(&mut lines, item_text(blocker_kind_str(c.blockers[k].kind), c.blockers[k].detail.as_str()));
            k = k + 1;
            proof {
                assert(items.take(k as int) =~= items.take(k - 1).push(items[k - 1]));
            }
        }
        proof {
            assert(items.take(items.len() as int) =~= items);
        }
    }
    let ghost after_blockers = string_views(lines@);
    if c.suppression_reasons.len() > 0 {
        push_line(&mut lines, String::new());
        push_line(&mut lines, <String as StringExecFns>::from_str("Suppression:"));
        let ghost base = string_views(lines@);
        let ghost items = c.suppression_reasons@.map_values(
            |r: SuppressionReason| item_line(suppression_kind_name(r.kind), r.detail@),
        );
        let mut k: usize = 0;
        while k < c.suppression_reasons.len()
            invariant
                0 <= k <= c.suppression_reasons@.len(),
                items == c.suppression_reasons@.map_values(
                    |r: SuppressionReason| item_line(suppression_kind_name(r.kind), r.detail@),
                ),
                string_views(lines@) == base + items.take(k as int),
            decreases c.suppression_reasons@.len() - k,
        {
            push_line(
                &mut lines,
                item_text(suppression_kind_str(c.suppression_reasons[k].kind), c.suppression_reasons[k].detail.as_str()),
            );
            k = k + 1;
            proof {
                assert(items.take(k as int) =~= items.take(k - 1).push(items[k - 1]));
            }
        }
        proof {
            assert(items.take(items.len() as int) =~= items);
        }
    }
    let ghost after_suppression = string_views(lines@);
    push_line(&mut lines, String::new());
    push_line(&mut lines, <String as StringExecFns>::from_str("Evidence:"));
    let ghost base = string_views(lines@);
    let ghost items = c.evidence@.map_values(|e: EvidenceRecord| item_line(evidence_kind_name(e.kind), e.summary@));
    let mut k: usize = 0;
    while k < c.evidence.len()
        invariant
            0 <= k <= c.evidence@.len(),
            items == c.evidence@.map_values(|e: EvidenceRecord| item_line(evidence_kind_name(e.kind), e.summary@)),
            string_views(lines@) == base + items.take(k as int),
        decreases c.evidence@.len() - k,
    {
        push_line(&mut lines, item_text(evidence_kind_str(c.evidence[k].kind), c.evidence[k].summary.as_str()));
        k = k + 1;
        proof {
            assert(items.take(k as int) =~= items.take(k - 1).push(items[k - 1]));
        }
    }
    proof {
        assert(items.take(items.len() as int) =~= items);
        assert(string_views(lines@) =~= candidate_lines(*c));
    }
    lines
}

fn summary_text(s: &CandidateSummary) -> (out: String)
    ensures
        out@ == summary_line(*s),
{
    let mut out = s.candidate_id.clone();
    crate::text::push_char(&mut out, ' ');
    out.append(s.rule_id.code());
    crate::text::push_char(&mut out, ' ');
    out.append(status_str(s.status));
    crate::text::push_char(&mut out, ' ');
    out.append(s.qualified_name.as_str());
    crate::text::push_char(&mut out, ' ');
    out.append(s.file.as_str());
    crate::text::push_char(&mut out, ':');
    let l = decimal_string(s.line as u64);
    out.append(l.as_str());
    crate::text::push_char(&mut out, ':');
    let c = decimal_string(s.column as u64);
    out.append(c.as_str());
    proof {
        assert(out@ =~= summary_line(*s));
    }
    out
}

/// The text of an explanation, line by line.
pub fn explain_text(output: &ExplainOutput) -> (lines: Vec<String>)
    ensures
        string_views(lines@) == explain_lines(*output),
{
    match &output.result {
        ExplainResult::Found { candidate } => candidate_text_lines(candidate),
        ExplainResult::Ambiguous { candidates } => {
            let mut lines: Vec<String> = Vec::new();
            let mut head = <String as StringExecFns>::from_str("selector `");
            head.append(output.selector.as_str());
            head.append("` is ambiguous");
            push_line(&mut lines, head);
            push_line(&mut lines, String::new());
            let ghost base = string_views(lines@);
            let ghost items = candidates@.map_values(|s: CandidateSummary| summary_line(s));
            let mut k: usize = 0;
            while k < candidates.len()
                invariant
                    0 <= k <= candidates@.len(),
                    items == candidates@.map_values(|s: CandidateSummary| summary_line(s)),
                    string_views(lines@) == base + items.take(k as int),
                decreases candidates@.len() - k,
            {
                push_line(&mut lines, summary_text(&candidates[k]));
                k = k + 1;
                proof {
                    assert(items.take(k as int) =~= items.take(k - 1).push(items[k - 1]));
                }
            }
            proof {
                assert(items.take(items.len() as int) =~= items);
                assert(string_views(lines@) =~= explain_lines(*output));
            }
            lines
        },
        ExplainResult::NotFound => {
            let mut lines: Vec<String> = Vec::new();
            let mut line = <String as StringExecFns>::from_str("selector `");
            line.append(output.selector.as_str());
            line.append("` did not match any candidate");
            push_line(&mut lines, line);
            proof {
                assert(string_views(lines@) =~= explain_lines(*output));
            }
            lines
        },
    }
}

// ----- report order of diagnostics and modules -----

/// A diagnostic's path, as characters.
pub open spec fn diagnostic_path(d: Diagnostic) -> Option<Seq<char>> {
    match d.path {
        Some(p) => Some(p@),
        None => None,
    }
}

/// A diagnostic's start offset.
pub open spec fn diagnostic_start(d: Diagnostic) -> Option<int> {
    match d.range {
        Some(r) => Some(r.start as int),
        None => None,
    }
}

impl SortKey for Diagnostic {
    /// Diagnostics are listed by path (none first), start offset (none first), code, message.
    open spec fn sort_key(&self) -> Seq<int> {
        opt_str_key(diagnostic_path(*self)) + (opt_num_key(diagnostic_start(*self)) + (str_key(self.code@)
            + str_key(self.message@)))
    }

    fn key_less(&self, other: &Self) -> (less: bool) {
        let ghost p1 = diagnostic_path(*self);
        let ghost p2 = diagnostic_path(*other);
        let ghost r1 = diagnostic_start(*self);
        let ghost r2 = diagnostic_start(*other);
        let ghost t1 = str_key(self.code@) + str_key(self.message@);
        let ghost t2 = str_key(other.code@) + str_key(other.message@);
        proof {
            lemma_opt_str_key_separated(p1, p2);
            lemma_lex_concat(opt_str_key(p1), opt_num_key(r1) + t1, opt_str_key(p2), opt_num_key(r2) + t2);
            lemma_opt_num_key_separated(r1, r2);
            lemma_lex_concat(opt_num_key(r1), t1, opt_num_key(r2), t2);
            lemma_str_key_separated(self.code@, other.code@);
            lemma_lex_concat(str_key(self.code@), str_key(self.message@), str_key(other.code@), str_key(other.message@));
        }
        let by_path: i8 = match (&self.path, &other.path) {
            (None, None) => 0,
            (None, Some(_)) => -1,
            (Some(_), None) => 1,
            (Some(a), Some(b)) => {
                proof {
                    lemma_lex_concat(seq![1int], str_key(a@), seq![1int], str_key(b@));
                }
                compare_strs(a.as_str(), b.as_str())
            },
        };
        proof {
            if by_path == 0 {
                assert(opt_str_key(p1) == opt_str_key(p2));
            }
        }
        if by_path != 0 {
            return by_path == -1;
        }
        let by_start: i8 = match (&self.range, &other.range) {
            (None, None) => 0,
            (None, Some(_)) => -1,
            (Some(_), None) => 1,
            (Some(a), Some(b)) => if a.start < b.start {
                -1
            } else if a.start > b.start {
                1
            } else {
                0
            },
        };
        proof {
            if by_start == 0 {
                assert(opt_num_key(r1) =~= opt_num_key(r2));
            }
            if let (Some(a), Some(b)) = (self.range, other.range) {
                assert(opt_num_key(r1)[0] == opt_num_key(r2)[0]);
                assert(opt_num_key(r1).drop_first() =~= seq![a.start as int]);
                assert(opt_num_key(r2).drop_first() =~= seq![b.start as int]);
                assert(seq![a.start as int].drop_first() =~= Seq::<int>::empty());
                assert(seq![b.start as int].drop_first() =~= Seq::<int>::empty());
                assert(!lex_lt(Seq::<int>::empty(), Seq::<int>::empty()));
                if a.start < b.start {
                    assert(lex_lt(seq![a.start as int], seq![b.start as int]));
                } else if a.start > b.start {
                    assert(!lex_lt(seq![a.start as int], seq![b.start as int]));
                } else {
                    assert(!lex_lt(seq![a.start as int], seq![b.start as int]));
                }
                assert(lex_lt(opt_num_key(r1), opt_num_key(r2)) == lex_lt(seq![a.start as int], seq![b.start as int]));
            }
            if self.range is None && other.range is Some {
                assert(opt_num_key(r1)[0] == 0 && opt_num_key(r2)[0] == 1);
            }
            if self.range is Some && other.range is None {
                assert(opt_num_key(r1)[0] == 1 && opt_num_key(r2)[0] == 0);
            }
        }
        if by_start != 0 {
            return by_start == -1;
        }
        let by_code = compare_strs(self.code.as_str(), other.code.as_str());
        if by_code != 0 {
            return by_code == -1;
        }
        compare_strs(self.message.as_str(), other.message.as_str()) == -1
    }
}

/// Puts diagnostics in report order: by path, start offset, code, then message.
pub fn sort_diagnostics(diagnostics: Vec<Diagnostic>) -> (out: Vec<Diagnostic>)
    ensures
        out@.to_multiset() == diagnostics@.to_multiset(),
        out@.len() == diagnostics@.len(),
        crate::order::sorted_by_key(out@),
{
    crate::order::sort_by_key(diagnostics)
}

impl SortKey for DebugModule {
    /// Modules are listed by name, then path.
    open spec fn sort_key(&self) -> Seq<int> {
        str_key(self.name@) + str_key(self.path@)
    }

    fn key_less(&self, other: &Self) -> (less: bool) {
        proof {
            lemma_str_key_separated(self.name@, other.name@);
            lemma_lex_concat(str_key(self.name@), str_key(self.path@), str_key(other.name@), str_key(other.path@));
        }
        let by_name = compare_strs(self.name.as_str(), other.name.as_str());
        if by_name != 0 {
            by_name == -1
        } else {
            compare_strs(self.path.as_str(), other.path.as_str()) == -1
        }
    }
}

/// Puts the modules of a definitions report in order: by name, then path.
pub fn sort_debug_modules(modules: Vec<DebugModule>) -> (out: Vec<DebugModule>)
    ensures
        out@.to_multiset() == modules@.to_multiset(),
        out@.len() == modules@.len(),
        crate::order::sorted_by_key(out@),
{
    crate::order::sort_by_key(modules)
}

} // verus!
