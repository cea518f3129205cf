//! The candidate list of a check: every reported finding, and beside it one suppressed
//! candidate for each other rule whose condition also holds of the same definition.
use vstd::prelude::*;

use vstd::string::StringExecFns;

use crate::findings::{
    count_secondary, lemma_confidence_counts_cover, secondary_rule_for, secondary_rule_of, summary_of,
};
use crate::fingerprint::{
    candidate_fingerprint, candidate_fingerprint_spec, candidate_ids, candidate_renumbered,
    dedupe_candidate_ids, sort_candidates, subject_fingerprint, subject_fingerprint_spec,
};
use crate::order::sorted_by_key;
use crate::output::{
    Candidate, CandidateStatus, CheckOutput, CheckSummary, EvidenceKind, EvidenceRecord, Finding, FindingBlocker,
    FindingDefinition, FindingRemovalRisk, FindingUncertainty, SecondaryCondition,
    SuppressionReason, SuppressionReasonKind, UncertaintyRegion,
};

verus! {

broadcast use vstd::seq_lib::group_to_multiset_ensures;

// ----- copies -----

/// Two uncertainty records say the same.
pub open spec fn same_uncertainty(a: FindingUncertainty, b: FindingUncertainty) -> bool {
    &&& a.kind == b.kind
    &&& a.affected_region == b.affected_region
    &&& a.effects@ == b.effects@
    &&& a.detail == b.detail
}

/// Two lists of uncertainty records say the same, entry by entry.
pub open spec fn same_uncertainties(a: Seq<FindingUncertainty>, b: Seq<FindingUncertainty>) -> bool {
    &&& a.len() == b.len()
    &&& forall|i: int| 0 <= i < a.len() ==> same_uncertainty(#[trigger] a[i], b[i])
}

/// Two removal risks say the same.
pub open spec fn same_risk(a: FindingRemovalRisk, b: FindingRemovalRisk) -> bool {
    match (a, b) {
        (FindingRemovalRisk::NoKnownDefinitionEffects, FindingRemovalRisk::NoKnownDefinitionEffects) => true,
        (FindingRemovalRisk::Unknown, FindingRemovalRisk::Unknown) => true,
        (FindingRemovalRisk::Review { effects: x }, FindingRemovalRisk::Review { effects: y }) => x@ == y@,
        _ => false,
    }
}

pub(crate) fn copy_definition(d: &FindingDefinition) -> (r: FindingDefinition)
    ensures
        r == *d,
{
    FindingDefinition {
        kind: d.kind,
        name: d.name.clone(),
        qualified_name: d.qualified_name.clone(),
        module: d.module.clone(),
        file: d.file.clone(),
        range: d.range,
        line: d.line,
        column: d.column,
    }
}

pub(crate) fn copy_values<T: Copy>(v: &Vec<T>) -> (r: Vec<T>)
    ensures
        r@ == v@,
{
    let mut r: Vec<T> = Vec::new();
    let mut i: usize = 0;
    while i < v.len()
        invariant
            0 <= i <= v@.len(),
            r@ == v@.take(i as int),
        decreases v@.len() - i,
    {
        r.push(v[i]);
        i = i + 1;
        proof {
            assert(r@ =~= v@.take(i as int));
        }
    }
    proof {
        assert(v@.take(v@.len() as int) =~= v@);
    }
    r
}

pub(crate) fn copy_strings(v: &Vec<String>) -> (r: Vec<String>)
    ensures
        r@ == v@,
{
    let mut r: Vec<String> = Vec::new();
    let mut i: usize = 0;
    while i < v.len()
        invariant
            0 <= i <= v@.len(),
            r@ == v@.take(i as int),
        decreases v@.len() - i,
    {
        r.push(v[i].clone());
        i = i + 1;
        proof {
            assert(r@ =~= v@.take(i as int));
        }
    }
    proof {
        assert(v@.take(v@.len() as int) =~= v@);
    }
    r
}

pub(crate) fn copy_blockers(v: &Vec<FindingBlocker>) -> (r: Vec<FindingBlocker>)
    ensures
        r@ == v@,
{
    let mut r: Vec<FindingBlocker> = Vec::new();
    let mut i: usize = 0;
    while i < v.len()
        invariant
            0 <= i <= v@.len(),
            r@ == v@.take(i as int),
        decreases v@.len() - i,
    {
        r.push(FindingBlocker { kind: v[i].kind, detail: v[i].detail.clone() });
        i = i + 1;
        proof {
            assert(r@ =~= v@.take(i as int));
        }
    }
    proof {
        assert(v@.take(v@.len() as int) =~= v@);
    }
    r
}

pub(crate) fn copy_evidence(v: &Vec<EvidenceRecord>) -> (r: Vec<EvidenceRecord>)
    ensures
        r@ == v@,
{
    let mut r: Vec<EvidenceRecord> = Vec::new();
    let mut i: usize = 0;
    while i < v.len()
        invariant
            0 <= i <= v@.len(),
            r@ == v@.take(i as int),
        decreases v@.len() - i,
    {
        r.push(EvidenceRecord { kind: v[i].kind, summary: v[i].summary.clone() });
        i = i + 1;
        proof {
            assert(r@ =~= v@.take(i as int));
        }
    }
    proof {
        assert(v@.take(v@.len() as int) =~= v@);
    }
    r
}

pub(crate) fn copy_uncertainty(v: &Vec<FindingUncertainty>) -> (r: Vec<FindingUncertainty>)
    ensures
        same_uncertainties(r@, v@),
{
    let mut r: Vec<FindingUncertainty> = Vec::new();
    let mut i: usize = 0;
    while i < v.len()
        invariant
            0 <= i <= v@.len(),
            r@.len() == i,
            forall|t: int| 0 <= t < i ==> same_uncertainty(#[trigger] r@[t], v@[t]),
        decreases v@.len() - i,
    {
        let u = &v[i];
        let region = UncertaintyRegion {
            kind: u.affected_region.kind,
            target: u.affected_region.target.clone(),
        };
        r.push(
            FindingUncertainty {
                kind: u.kind,
                affected_region: region,
                effects: copy_values(&u.effects),
                detail: u.detail.clone(),
            },
        );
        i = i + 1;
    }
    r
}

pub(crate) fn copy_risk(risk: &FindingRemovalRisk) -> (r: FindingRemovalRisk)
    ensures
        same_risk(r, *risk),
{
    match risk {
        FindingRemovalRisk::NoKnownDefinitionEffects => FindingRemovalRisk::NoKnownDefinitionEffects,
        FindingRemovalRisk::Review { effects } => FindingRemovalRisk::Review {
            effects: copy_values(effects),
        },
        FindingRemovalRisk::Unknown => FindingRemovalRisk::Unknown,
    }
}

// ----- candidates of one finding -----

/// Why a secondary rule alternative is not reported.
pub open spec fn alternative_note() -> Seq<char> {
    "another rule alternative was selected as the public primary finding"@
}

/// The evidence recorded on a suppressed rule alternative.
pub open spec fn alternative_evidence() -> Seq<char> {
    "suppressed because this rule is a non-primary alternative for the same definition"@
}

/// `c` is the reported candidate of finding `f`: the finding itself, under its identifier.
pub open spec fn primary_candidate(c: Candidate, f: Finding) -> bool {
    &&& c.candidate_id == f.finding_id
    &&& c.subject_id@ == subject_fingerprint_spec(f.definition)
    &&& c.rule_id == f.rule_id
    &&& c.finding_type == f.finding_type
    &&& c.definition == f.definition
    &&& c.status == CandidateStatus::Reported
    &&& c.confidence == Some(f.confidence)
    &&& c.confidence_ceiling == f.confidence_ceiling
    &&& c.blockers@ == f.blockers@
    &&& c.suppression_reasons@.len() == 0
    &&& same_uncertainties(c.uncertainty@, f.uncertainty@)
    &&& c.evidence@ == f.evidence@
    &&& same_risk(c.removal_risk, f.removal_risk)
    &&& c.secondary_conditions@ == f.secondary_conditions@
    &&& c.explanation@ == f.explanation@
}

/// `c` is the suppressed candidate of the rule that `condition` stands for on finding `f`.
pub open spec fn secondary_candidate(c: Candidate, f: Finding, condition: SecondaryCondition) -> bool {
    let rule = secondary_rule_of(condition, f.definition.kind);
    &&& c.candidate_id@ == candidate_fingerprint_spec(rule.0, f.definition)
    &&& c.subject_id@ == subject_fingerprint_spec(f.definition)
    &&& c.rule_id == rule.0
    &&& c.finding_type == rule.1
    &&& c.definition == f.definition
    &&& c.status == CandidateStatus::Suppressed
    &&& c.confidence is None
    &&& c.confidence_ceiling == f.confidence
    &&& c.blockers@ == f.blockers@
    &&& c.suppression_reasons@.len() == 1
    &&& c.suppression_reasons@[0].kind == SuppressionReasonKind::NonPrimaryRuleAlternative
    &&& c.suppression_reasons@[0].detail@ == alternative_note()
    &&& same_uncertainties(c.uncertainty@, f.uncertainty@)
    &&& c.evidence@.len() == 1
    &&& c.evidence@[0].kind == EvidenceKind::SecondaryCondition
    &&& c.evidence@[0].summary@ == alternative_evidence()
    &&& same_risk(c.removal_risk, f.removal_risk)
    &&& c.secondary_conditions@.len() == 0
    &&& c.explanation@.len() == 1
    &&& c.explanation@[0]@ == alternative_note()
}

/// The candidates of finding `f`, in order: its reported candidate, then one suppressed
/// candidate per secondary condition.
pub open spec fn candidate_group(g: Seq<Candidate>, f: Finding) -> bool {
    &&& g.len() == 1 + f.secondary_conditions@.len()
    &&& primary_candidate(g[0], f)
    &&& forall|j: int|
        1 <= j < g.len() ==> secondary_candidate(#[trigger] g[j], f, f.secondary_conditions@[j - 1])
}

/// `pre` holds the candidate groups of the findings `fs`, one after another.
pub open spec fn expanded_candidates(pre: Seq<Candidate>, fs: Seq<Finding>) -> bool
    decreases fs.len(),
{
    if fs.len() == 0 {
        pre.len() == 0
    } else {
        let m = 1 + fs.last().secondary_conditions@.len();
        &&& pre.len() >= m
        &&& expanded_candidates(pre.take(pre.len() - m), fs.drop_last())
        &&& candidate_group(pre.skip(pre.len() - m), fs.last())
    }
}

fn primary_candidate_of(finding: &Finding, subject_id: String) -> (c: Candidate)
    requires
        subject_id@ == subject_fingerprint_spec(finding.definition),
    ensures
        primary_candidate(c, *finding),
{
    Candidate {
        candidate_id: finding.finding_id.clone(),
        subject_id,
        rule_id: finding.rule_id,
        finding_type: finding.finding_type,
        definition: copy_definition(&finding.definition),
        status: CandidateStatus::Reported,
        confidence: Some(finding.confidence),
        confidence_ceiling: finding.confidence_ceiling,
        blockers: copy_blockers(&finding.blockers),
        suppression_reasons: Vec::new(),
        uncertainty: copy_uncertainty(&finding.uncertainty),
        evidence: copy_evidence(&finding.evidence),
        removal_risk: copy_risk(&finding.removal_risk),
        secondary_conditions: copy_values(&finding.secondary_conditions),
        explanation: copy_strings(&finding.explanation),
    }
}

fn secondary_candidate_of(finding: &Finding, condition: SecondaryCondition, subject_id: String) -> (c: Candidate)
    requires
        subject_id@ == subject_fingerprint_spec(finding.definition),
    ensures
        secondary_candidate(c, *finding, condition),
{
    let (rule_id, finding_type) = secondary_rule_for(condition, finding.definition.kind);
    let candidate_id = candidate_fingerprint(rule_id, &finding.definition);
    let mut suppression_reasons: Vec<SuppressionReason> = Vec::new();
    suppression_reasons.push(
        SuppressionReason {
            kind: SuppressionReasonKind::NonPrimaryRuleAlternative,
            detail: <String as StringExecFns>::from_str(
                "another rule alternative was selected as the public primary finding",
            ),
        },
    );
    let mut evidence: Vec<EvidenceRecord> = Vec::new();
    evidence.push(
        EvidenceRecord {
            kind: EvidenceKind::SecondaryCondition,
            summary: <String as StringExecFns>::from_str(
                "suppressed because this rule is a non-primary alternative for the same definition",
            ),
        },
    );
    let mut explanation: Vec<String> = Vec::new();
    explanation.push(
        <String as StringExecFns>::from_str(
            "another rule alternative was selected as the public primary finding",
        ),
    );
    Candidate {
        candidate_id,
        subject_id,
        rule_id,
        finding_type,
        definition: copy_definition(&finding.definition),
        status: CandidateStatus::Suppressed,
        confidence: None,
        confidence_ceiling: finding.confidence,
        blockers: copy_blockers(&finding.blockers),
        suppression_reasons,
        uncertainty: copy_uncertainty(&finding.uncertainty),
        evidence,
        removal_risk: copy_risk(&finding.removal_risk),
        secondary_conditions: Vec::new(),
        explanation,
    }
}

fn push_candidate_group(out: &mut Vec<Candidate>, finding: &Finding)
    requires
        old(out)@.len() + 1 + finding.secondary_conditions@.len() <= usize::MAX,
    ensures
        final(out)@.len() == old(out)@.len() + 1 + finding.secondary_conditions@.len(),
        final(out)@.take(old(out)@.len() as int) == old(out)@,
        candidate_group(final(out)@.skip(old(out)@.len() as int), *finding),
{
    let ghost start = out@.len();
    let ghost before = out@;
    let subject_id = subject_fingerprint(&finding.definition);
    out.push(primary_candidate_of(finding, subject_id.clone()));
    let mut j: usize = 0;
    while j < finding.secondary_conditions.len()
        invariant
            0 <= j <= finding.secondary_conditions@.len(),
            out@.len() == start + 1 + j,
            out@.take(start as int) == before,
            subject_id@ == subject_fingerprint_spec(finding.definition),
            primary_candidate(out@[start as int], *finding),
            forall|t: int|
                start + 1 <= t < out@.len() ==> secondary_candidate(
                    #[trigger] out@[t],
                    *finding,
                    finding.secondary_conditions@[t - start - 1],
                ),
        decreases finding.secondary_conditions@.len() - j,
    {
        let condition = finding.secondary_conditions[j];
        let ghost out0 = out@;
        out.push(secondary_candidate_of(finding, condition, subject_id.clone()));
        proof {
            assert(out@.take(start as int) =~= out0.take(start as int));
            assert forall|t: int| start + 1 <= t < out@.len() implies secondary_candidate(
                #[trigger] out@[t],
                *finding,
                finding.secondary_conditions@[t - start - 1],
            ) by {
                if t < out0.len() {
                    assert(out@[t] == out0[t]);
                }
            }
        }
        j = j + 1;
    }
    proof {
        let g = out@.skip(start as int);
        assert(g[0] == out@[start as int]);
        assert forall|t: int| 1 <= t < g.len() implies secondary_candidate(
            #[trigger] g[t],
            *finding,
            finding.secondary_conditions@[t - 1],
        ) by {
            assert(g[t] == out@[start + t]);
        }
    }
}

/// `out` is the candidate list of a check with findings `fs`: the candidate groups of the
/// findings, sorted by key, with repeated identifiers numbered.
pub open spec fn candidates_of_check(fs: Seq<Finding>, out: Seq<Candidate>) -> bool {
    exists|pre: Seq<Candidate>, sorted: Seq<Candidate>|
        #![trigger expanded_candidates(pre, fs), sorted_by_key(sorted)]
        {
            &&& expanded_candidates(pre, fs)
            &&& sorted.to_multiset() == pre.to_multiset()
            &&& sorted_by_key(sorted)
            &&& out.len() == sorted.len()
            &&& forall|i: int|
                0 <= i < sorted.len() ==> candidate_renumbered(
                    sorted[i],
                    #[trigger] out[i],
                    candidate_ids(sorted),
                    i,
                )
        }
}

/// Every candidate that a check considered, in report order: for each finding, its reported
/// candidate and one suppressed candidate for each other rule whose condition also held;
/// then sorted by file, offset, rule and identifier, with repeated identifiers numbered. It
/// holds as many suppressed candidates as the findings have secondary conditions, which is the
/// suppressed count `summarize_findings` reports for the same findings.
pub fn candidates_from_check(output: &CheckOutput) -> (out: Vec<Candidate>)
    requires
        candidate_count(output.findings@) <= usize::MAX,
    ensures
        candidates_of_check(output.findings@, out@),
        count_suppressed(out@) == count_secondary(output.findings@),
{
    let mut candidates: Vec<Candidate> = Vec::new();
    let mut k: usize = 0;
    let ghost fs = output.findings@;
    proof {
        assert(fs.take(0) =~= Seq::<Finding>::empty());
    }
    while k < output.findings.len()
        invariant
            fs == output.findings@,
            candidate_count(fs) <= usize::MAX,
            0 <= k <= fs.len(),
            candidates@.len() == candidate_count(fs.take(k as int)),
            expanded_candidates(candidates@, fs.take(k as int)),
        decreases fs.len() - k,
    {
        let finding = &output.findings[k];
        let ghost before = candidates@;
        proof {
            lemma_candidate_count_prefix(fs, k as int + 1);
            assert(fs.take(k as int + 1).drop_last() =~= fs.take(k as int));
        }
        push_candidate_group(&mut candidates, finding);
        proof {
            let m = 1 + fs[k as int].secondary_conditions@.len();
            let next = fs.take(k as int + 1);
            assert(next.last() == fs[k as int]);
            assert(next.drop_last() =~= fs.take(k as int));
            assert(candidates@.take(candidates@.len() - m) =~= candidates@.take(before.len() as int));
        }
        k = k + 1;
    }
    proof {
        assert(fs.take(fs.len() as int) =~= fs);
    }
    let ghost pre = candidates@;
    sort_candidates(&mut candidates);
    let ghost sorted = candidates@;
    dedupe_candidate_ids(&mut candidates);
    proof {
        assert(expanded_candidates(pre, output.findings@));
        assert(sorted_by_key(sorted));
        assert(candidates_of_check(output.findings@, candidates@));
        lemma_suppressed_candidates_counted(output.findings@, candidates@);
    }
    candidates
}

/// How many candidates the findings `fs` give: one per finding and one per secondary
/// condition.
pub open spec fn candidate_count(fs: Seq<Finding>) -> nat
    decreases fs.len(),
{
    if fs.len() == 0 {
        0
    } else {
        candidate_count(fs.drop_last()) + 1 + fs.last().secondary_conditions@.len()
    }
}

proof fn lemma_candidate_count_prefix(fs: Seq<Finding>, k: int)
    requires
        0 <= k <= fs.len(),
    ensures
        candidate_count(fs.take(k)) <= candidate_count(fs),
    decreases fs.len() - k,
{
    if k < fs.len() {
        lemma_candidate_count_prefix(fs, k + 1);
        assert(fs.take(k + 1).drop_last() =~= fs.take(k));
    } else {
        assert(fs.take(k) =~= fs);
    }
}


/// Two candidates say the same.
pub open spec fn same_candidate(a: Candidate, b: Candidate) -> bool {
    &&& a.candidate_id == b.candidate_id
    &&& a.subject_id == b.subject_id
    &&& a.rule_id == b.rule_id
    &&& a.finding_type == b.finding_type
    &&& a.definition == b.definition
    &&& a.status == b.status
    &&& a.confidence == b.confidence
    &&& a.confidence_ceiling == b.confidence_ceiling
    &&& a.blockers@ == b.blockers@
    &&& a.suppression_reasons@ == b.suppression_reasons@
    &&& same_uncertainties(a.uncertainty@, b.uncertainty@)
    &&& a.evidence@ == b.evidence@
    &&& same_risk(a.removal_risk, b.removal_risk)
    &&& a.secondary_conditions@ == b.secondary_conditions@
    &&& a.explanation@ == b.explanation@
}

fn copy_reasons(v: &Vec<SuppressionReason>) -> (r: Vec<SuppressionReason>)
    ensures
        r@ == v@,
{
    let mut r: Vec<SuppressionReason> = Vec::new();
    let mut i: usize = 0;
    while i < v.len()
        invariant
            0 <= i <= v@.len(),
            r@ == v@.take(i as int),
        decreases v@.len() - i,
    {
        r.push(SuppressionReason { kind: v[i].kind, detail: v[i].detail.clone() });
        i = i + 1;
        proof {
            assert(r@ =~= v@.take(i as int));
        }
    }
    proof {
        assert(v@.take(v@.len() as int) =~= v@);
    }
    r
}

/// A copy of a candidate.
pub fn copy_candidate(c: &Candidate) -> (r: Candidate)
    ensures
        same_candidate(r, *c),
{
    Candidate {
        candidate_id: c.candidate_id.clone(),
        subject_id: c.subject_id.clone(),
        rule_id: c.rule_id,
        finding_type: c.finding_type,
        definition: copy_definition(&c.definition),
        status: c.status,
        confidence: c.confidence,
        confidence_ceiling: c.confidence_ceiling,
        blockers: copy_blockers(&c.blockers),
        suppression_reasons: copy_reasons(&c.suppression_reasons),
        uncertainty: copy_uncertainty(&c.uncertainty),
        evidence: copy_evidence(&c.evidence),
        removal_risk: copy_risk(&c.removal_risk),
        secondary_conditions: copy_values(&c.secondary_conditions),
        explanation: copy_strings(&c.explanation),
    }
}

// ----- laws -----

/// In the candidates of a finding, exactly the first is reported, and every suppressed one
/// says why it was suppressed.
pub proof fn lemma_group_statuses(g: Seq<Candidate>, f: Finding, k: int)
    requires
        candidate_group(g, f),
        0 <= k < g.len(),
    ensures
        (g[k].status == CandidateStatus::Reported) <==> k == 0,
        g[k].status == CandidateStatus::Suppressed ==> g[k].suppression_reasons@.len() > 0,
{
    if k > 0 {
        assert(secondary_candidate(g[k], f, f.secondary_conditions@[k - 1]));
    }
}


// ----- suppressed candidates -----

/// The number of suppressed candidates in `s`.
pub open spec fn count_suppressed(s: Seq<Candidate>) -> nat
    decreases s.len(),
{
    if s.len() == 0 {
        0
    } else {
        count_suppressed(s.drop_last()) + if s.last().status == CandidateStatus::Suppressed {
            1nat
        } else {
            0nat
        }
    }
}

proof fn lemma_count_suppressed_split(s: Seq<Candidate>, k: int)
    requires
        0 <= k <= s.len(),
    ensures
        count_suppressed(s) == count_suppressed(s.take(k)) + count_suppressed(s.skip(k)),
    decreases s.len(),
{
    if k == s.len() {
        assert(s.take(k) =~= s);
        assert(s.skip(k) =~= Seq::<Candidate>::empty());
    } else {
        let d = s.drop_last();
        lemma_count_suppressed_split(d, k);
        assert(d.take(k) =~= s.take(k));
        assert(s.skip(k).drop_last() =~= d.skip(k));
        assert(s.skip(k).last() == s.last());
    }
}

proof fn lemma_count_suppressed_all(s: Seq<Candidate>)
    requires
        forall|i: int| 0 <= i < s.len() ==> (#[trigger] s[i]).status == CandidateStatus::Suppressed,
    ensures
        count_suppressed(s) == s.len(),
    decreases s.len(),
{
    if s.len() > 0 {
        lemma_count_suppressed_all(s.drop_last());
    }
}

proof fn lemma_count_suppressed_group(g: Seq<Candidate>, f: Finding)
    requires
        candidate_group(g, f),
    ensures
        count_suppressed(g) == f.secondary_conditions@.len(),
{
    lemma_count_suppressed_split(g, 1);
    let head = g.take(1);
    assert(head.drop_last() =~= Seq::<Candidate>::empty());
    assert(head.last() == g[0]);
    assert(count_suppressed(Seq::<Candidate>::empty()) == 0);
    assert(g[0].status == CandidateStatus::Reported);
    assert(count_suppressed(head) == 0);
    let rest = g.skip(1);
    assert forall|i: int| 0 <= i < rest.len() implies (#[trigger] rest[i]).status == CandidateStatus::Suppressed by {
        assert(rest[i] == g[i + 1]);
        assert(secondary_candidate(g[i + 1], f, f.secondary_conditions@[i]));
    }
    lemma_count_suppressed_all(rest);
}

proof fn lemma_count_suppressed_expanded(pre: Seq<Candidate>, fs: Seq<Finding>)
    requires
        expanded_candidates(pre, fs),
    ensures
        count_suppressed(pre) == count_secondary(fs),
    decreases fs.len(),
{
    if fs.len() == 0 {
        assert(pre =~= Seq::<Candidate>::empty());
    } else {
        let m = 1 + fs.last().secondary_conditions@.len();
        let cut = pre.len() - m;
        lemma_count_suppressed_split(pre, cut);
        lemma_count_suppressed_expanded(pre.take(cut), fs.drop_last());
        lemma_count_suppressed_group(pre.skip(cut), fs.last());
    }
}

proof fn lemma_count_suppressed_remove(s: Seq<Candidate>, i: int)
    requires
        0 <= i < s.len(),
    ensures
        count_suppressed(s) == count_suppressed(s.remove(i)) + if s[i].status == CandidateStatus::Suppressed {
            1nat
        } else {
            0nat
        },
{
    lemma_count_suppressed_split(s, i);
    let tail = s.skip(i);
    lemma_count_suppressed_split(tail, 1);
    assert(tail.take(1).drop_last() =~= Seq::<Candidate>::empty());
    assert(tail.take(1).last() == s[i]);
    assert(count_suppressed(Seq::<Candidate>::empty()) == 0);
    assert(count_suppressed(tail.take(1)) == if s[i].status == CandidateStatus::Suppressed {
        1nat
    } else {
        0nat
    });
    assert(tail.skip(1) =~= s.skip(i + 1));
    let r = s.remove(i);
    lemma_count_suppressed_split(r, i);
    assert(r.take(i) =~= s.take(i));
    assert(r.skip(i) =~= s.skip(i + 1));
}

proof fn lemma_count_suppressed_permutation(a: Seq<Candidate>, b: Seq<Candidate>)
    requires
        a.to_multiset() == b.to_multiset(),
    ensures
        count_suppressed(a) == count_suppressed(b),
    decreases a.len(),
{
    broadcast use vstd::seq_lib::group_to_multiset_ensures;

    vstd::seq_lib::to_multiset_len(a);
    vstd::seq_lib::to_multiset_len(b);
    if a.len() == 0 {
        assert(b =~= Seq::<Candidate>::empty());
    } else {
        let x = a.last();
        let d = a.drop_last();
        assert(d.push(x) =~= a);
        assert(a.to_multiset() == d.to_multiset().insert(x));
        assert(b.to_multiset().count(x) > 0);
        assert(b.contains(x));
        let i = choose|i: int| 0 <= i < b.len() && b[i] == x;
        assert(b.remove(i).to_multiset() == b.to_multiset().remove(x));
        assert(d.to_multiset() =~= b.remove(i).to_multiset());
        lemma_count_suppressed_permutation(d, b.remove(i));
        lemma_count_suppressed_remove(b, i);
    }
}

proof fn lemma_count_suppressed_same_status(a: Seq<Candidate>, b: Seq<Candidate>)
    requires
        a.len() == b.len(),
        forall|i: int| 0 <= i < a.len() ==> (#[trigger] a[i]).status == b[i].status,
    ensures
        count_suppressed(a) == count_suppressed(b),
    decreases a.len(),
{
    if a.len() > 0 {
        lemma_count_suppressed_same_status(a.drop_last(), b.drop_last());
    }
}

/// A check reports one suppressed candidate for each secondary condition of its findings, so
/// the candidate list of a check holds as many suppressed candidates as its summary counts.
pub proof fn lemma_suppressed_candidates_counted(fs: Seq<Finding>, out: Seq<Candidate>)
    requires
        candidates_of_check(fs, out),
    ensures
        count_suppressed(out) == count_secondary(fs),
{
    let (pre, sorted) = choose|pre: Seq<Candidate>, sorted: Seq<Candidate>|
        {
            &&& expanded_candidates(pre, fs)
            &&& sorted.to_multiset() == pre.to_multiset()
            &&& sorted_by_key(sorted)
            &&& out.len() == sorted.len()
            &&& forall|i: int|
                0 <= i < sorted.len() ==> candidate_renumbered(
                    sorted[i],
                    #[trigger] out[i],
                    candidate_ids(sorted),
                    i,
                )
        };
    lemma_count_suppressed_expanded(pre, fs);
    lemma_count_suppressed_permutation(sorted, pre);
    assert forall|i: int| 0 <= i < sorted.len() implies (#[trigger] sorted[i]).status == out[i].status by {
        assert(candidate_renumbered(sorted[i], out[i], candidate_ids(sorted), i));
    }
    lemma_count_suppressed_same_status(sorted, out);
}


/// The summary of a check and its candidate list agree: the summary's suppressed count is the
/// number of suppressed candidates that `candidates_from_check` yields for the same findings,
/// and its high-confidence and review counts add up to the number of findings.
pub proof fn lemma_summary_matches_candidates(fs: Seq<Finding>, out: Seq<Candidate>, s: CheckSummary)
    requires
        summary_of(fs, s),
        candidates_of_check(fs, out),
    ensures
        s.suppressed == count_suppressed(out),
        s.high_confidence + s.review == fs.len(),
{
    lemma_suppressed_candidates_counted(fs, out);
    lemma_confidence_counts_cover(fs);
}

} // verus!
