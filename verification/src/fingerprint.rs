//! Stable identifiers of findings and candidates: content fingerprints, the order in which
//! findings are reported, and the suffixes that keep repeated identifiers apart.
use vstd::prelude::*;

use vstd::string::StringExecFns;

use crate::ir::DefinitionKind;
use crate::order::{
    compare_strs, lemma_lex_concat, lemma_num_key_separated, lemma_str_key_separated, lex_lt,
    num_key, sort_by_key, sorted_by_key, str_key, SortKey,
};
use crate::output::{rule_code, string_views, Candidate, Finding, FindingDefinition, FindingRule};
use crate::source::{decimal_spec, decimal_string};
use crate::text::{push_char, str_eq};
use vstd::arithmetic::power2::pow2;

verus! {

/// The 32-byte BLAKE3 digest of a byte string.
pub uninterp spec fn blake3_digest(input: Seq<u8>) -> Seq<u8>;

/// Bit `i` of a byte string, most significant bit of each byte first; zero past the end.
pub open spec fn input_bit(input: Seq<u8>, i: nat) -> nat {
    if i < 8 * input.len() {
        (input[(i / 8) as int] as nat / pow2((7 - i % 8) as nat)) % 2
    } else {
        0
    }
}

/// The `k`-th group of five bits of a byte string, as a number below 32.
pub open spec fn input_quintet(input: Seq<u8>, k: nat) -> nat {
    16 * input_bit(input, 5 * k) + 8 * input_bit(input, 5 * k + 1) + 4 * input_bit(input, 5 * k + 2)
        + 2 * input_bit(input, 5 * k + 3) + input_bit(input, 5 * k + 4)
}

/// The RFC 4648 base32 symbol of a number below 32: `A` to `Z`, then `2` to `7`.
pub open spec fn base32_symbol(v: nat) -> char {
    if v < 26 {
        (65 + v) as char
    } else {
        (50 + v - 26) as char
    }
}

/// The unpadded RFC 4648 base32 text of a byte string: one symbol per group of five bits,
/// the last group filled with zero bits, and no `=` padding.
pub open spec fn base32_nopad(input: Seq<u8>) -> Seq<char> {
    Seq::new(((8 * input.len() + 4) / 5) as nat, |k: int| base32_symbol(input_quintet(input, k as nat)))
}

/// Calls `blake3::hash` and returns the bytes of the digest (`Hash::as_bytes`). The digest
/// is named, not stated; what is stated is that it depends on the input alone and has the
/// 32 bytes of a BLAKE3 `Hash`.
#[verifier::external_body]
fn blake3_hash(input: &[u8]) -> (digest: Vec<u8>)
    ensures
        digest@ == blake3_digest(input@),
        digest@.len() == 32,
{
    blake3::hash(input).as_bytes().to_vec()
}

/// Calls `data_encoding::BASE32_NOPAD.encode`, which the crate documents as the encoding with
/// the symbols `A`-`Z`, `2`-`7`, most significant bit first and no padding; `encode_len`
/// asserts that the input is at most `usize::MAX / 512` bytes.
#[verifier::external_body]
fn base32_encode(input: &[u8]) -> (encoded: String)
    requires
        input@.len() <= usize::MAX / 512,
    ensures
        encoded@ == base32_nopad(input@),
{
    data_encoding::BASE32_NOPAD.encode(input)
}

/// How a definition kind is spelled inside a fingerprint.
pub open spec fn kind_text(kind: DefinitionKind) -> Seq<char> {
    match kind {
        DefinitionKind::Function => "Function"@,
        DefinitionKind::Class => "Class"@,
    }
}

/// The text that identifies the subject of a finding: file, byte range, kind, qualified name
/// and module, separated by NUL characters.
pub open spec fn subject_text(d: FindingDefinition) -> Seq<char> {
    d.file@ + seq!['\0'] + decimal_spec(d.range.start as nat) + seq![':'] + decimal_spec(
        d.range.end as nat,
    ) + seq!['\0'] + kind_text(d.kind) + seq!['\0'] + d.qualified_name@ + seq!['\0'] + d.module@
}

/// The text that identifies a finding of one rule on a definition.
pub open spec fn candidate_text(rule: FindingRule, d: FindingDefinition) -> Seq<char> {
    rule_code(rule) + seq!['\0'] + subject_text(d)
}

/// Base32 of the first 16 bytes of the BLAKE3 digest of the UTF-8 text.
pub open spec fn digest_text(text: Seq<char>) -> Seq<char> {
    base32_nopad(blake3_digest(vstd::utf8::encode_utf8(text)).subrange(0, 16))
}

/// A finding's identifier: the rule code, a hyphen and the digest of the candidate text.
pub open spec fn candidate_fingerprint_spec(rule: FindingRule, d: FindingDefinition) -> Seq<char> {
    rule_code(rule) + seq!['-'] + digest_text(candidate_text(rule, d))
}

/// A subject's identifier: `SUBJECT-` and the digest of the subject text.
pub open spec fn subject_fingerprint_spec(d: FindingDefinition) -> Seq<char> {
    "SUBJECT-"@ + digest_text(subject_text(d))
}

fn kind_str(kind: DefinitionKind) -> (s: &'static str)
    ensures
        s@ == kind_text(kind),
{
    match kind {
        DefinitionKind::Function => "Function",
        DefinitionKind::Class => "Class",
    }
}

fn append_subject_text(s: &mut String, d: &FindingDefinition)
    ensures
        final(s)@ == old(s)@ + subject_text(*d),
{
    s.append(d.file.as_str());
    push_char(s, '\0');
    let start = decimal_string(d.range.start as u64);
    s.append(start.as_str());
    push_char(s, ':');
    let end = decimal_string(d.range.end as u64);
    s.append(end.as_str());
    push_char(s, '\0');
    s.append(kind_str(d.kind));
    push_char(s, '\0');
    s.append(d.qualified_name.as_str());
    push_char(s, '\0');
    s.append(d.module.as_str());
    proof {
        assert(final(s)@ =~= old(s)@ + subject_text(*d));
    }
}

/// Base32 of the first 16 bytes of the digest of `text`.
fn digest_of(text: &str) -> (encoded: String)
    ensures
        encoded@ == digest_text(text@),
{
    let digest = blake3_hash(text.as_bytes());
    let mut head: Vec<u8> = Vec::new();
    let mut i: usize = 0;
    while i < 16
        invariant
            digest@.len() == 32,
            0 <= i <= 16,
            head@ == digest@.subrange(0, i as int),
        decreases 16 - i,
    {
        head.push(digest[i]);
        i = i + 1;
        proof {
            assert(head@ =~= digest@.subrange(0, i as int));
        }
    }
    base32_encode(head.as_slice())
}

/// The identifier of a finding of `rule_id` on `definition`.
pub fn candidate_fingerprint(rule_id: FindingRule, definition: &FindingDefinition) -> (id: String)
    ensures
        id@ == candidate_fingerprint_spec(rule_id, *definition),
{
    let mut text = <String as StringExecFns>::from_str(rule_id.code());
    push_char(&mut text, '\0');
    append_subject_text(&mut text, definition);
    proof {
        assert(text@ =~= candidate_text(rule_id, *definition));
    }
    let encoded = digest_of(text.as_str());
    let mut id = <String as StringExecFns>::from_str(rule_id.code());
    push_char(&mut id, '-');
    id.append(encoded.as_str());
    proof {
        assert(id@ =~= candidate_fingerprint_spec(rule_id, *definition));
    }
    id
}

/// The identifier of the definition that findings and candidates are about.
pub fn subject_fingerprint(definition: &FindingDefinition) -> (id: String)
    ensures
        id@ == subject_fingerprint_spec(*definition),
{
    let mut text = String::new();
    append_subject_text(&mut text, definition);
    proof {
        assert(text@ =~= subject_text(*definition));
    }
    let encoded = digest_of(text.as_str());
    let mut id = <String as StringExecFns>::from_str("SUBJECT-");
    id.append(encoded.as_str());
    id
}

// ----- repeated identifiers -----

/// How many entries of `ids` equal `x`.
pub open spec fn count_equal(ids: Seq<Seq<char>>, x: Seq<char>) -> nat
    decreases ids.len(),
{
    if ids.len() == 0 {
        0
    } else {
        count_equal(ids.drop_last(), x) + if ids.last() == x {
            1nat
        } else {
            0nat
        }
    }
}

/// Which occurrence of its value entry `i` is: 1 for the first, 2 for the second, ...
pub open spec fn occurrence(ids: Seq<Seq<char>>, i: int) -> nat {
    count_equal(ids.take(i + 1), ids[i])
}

/// Entry `i` kept apart from earlier equal entries: the second and later occurrences of a
/// value get a hyphen and their occurrence number.
pub open spec fn unique_id(ids: Seq<Seq<char>>, i: int) -> Seq<char> {
    if occurrence(ids, i) > 1 {
        ids[i] + seq!['-'] + decimal_spec(occurrence(ids, i))
    } else {
        ids[i]
    }
}

proof fn lemma_count_equal_step(ids: Seq<Seq<char>>, x: Seq<char>, j: int)
    requires
        0 <= j < ids.len(),
    ensures
        count_equal(ids.take(j + 1), x) == count_equal(ids.take(j), x) + if ids[j] == x {
            1nat
        } else {
            0nat
        },
{
    assert(ids.take(j + 1).drop_last() =~= ids.take(j));
}

proof fn lemma_count_equal_bound(ids: Seq<Seq<char>>, x: Seq<char>)
    ensures
        count_equal(ids, x) <= ids.len(),
    decreases ids.len(),
{
    if ids.len() > 0 {
        lemma_count_equal_bound(ids.drop_last(), x);
    }
}

/// Which occurrence of its value `ids[i]` is.
fn occurrence_count(ids: &Vec<String>, i: usize) -> (c: usize)
    requires
        i < ids@.len(),
    ensures
        c == occurrence(string_views(ids@), i as int),
        c >= 1,
{
    let ghost v = string_views(ids@);
    let n = ids.len();
    let stop = i + 1;
    let mut c: usize = 0;
    let mut j: usize = 0;
    while j < stop
        invariant
            i < ids@.len(),
            n == ids@.len(),
            stop == i + 1,
            v == string_views(ids@),
            0 <= j <= i + 1,
            c == count_equal(v.take(j as int), v[i as int]),
            c <= j,
        decreases i + 1 - j,
    {
        proof {
            lemma_count_equal_step(v, v[i as int], j as int);
        }
        if str_eq(ids[j].as_str(), ids[i].as_str()) {
            c = c + 1;
        }
        j = j + 1;
    }
    proof {
        lemma_count_equal_step(v, v[i as int], i as int);
        assert(count_equal(v.take(i as int), v[i as int]) >= 0);
    }
    c
}

/// `base`, a hyphen and `n`.
fn numbered(base: &str, n: usize) -> (s: String)
    ensures
        s@ == base@ + seq!['-'] + decimal_spec(n as nat),
{
    let mut s = <String as StringExecFns>::from_str(base);
    push_char(&mut s, '-');
    let digits = decimal_string(n as u64);
    s.append(digits.as_str());
    s
}

/// The `finding_id` of each finding.
pub open spec fn finding_ids(s: Seq<Finding>) -> Seq<Seq<char>> {
    s.map_values(|f: Finding| f.finding_id@)
}

/// The `candidate_id` of each candidate.
pub open spec fn candidate_ids(s: Seq<Candidate>) -> Seq<Seq<char>> {
    s.map_values(|c: Candidate| c.candidate_id@)
}

/// `after` is finding `i` of a list whose identifiers are `ids`, made unique: a repeated
/// identifier is numbered in both `finding_id` and `id`; nothing else changes.
pub open spec fn finding_renumbered(before: Finding, after: Finding, ids: Seq<Seq<char>>, i: int) -> bool {
    &&& after.finding_id@ == unique_id(ids, i)
    &&& if occurrence(ids, i) > 1 {
        after.id@ == unique_id(ids, i)
    } else {
        after.id == before.id && after.finding_id == before.finding_id
    }
    &&& after == (Finding { finding_id: after.finding_id, id: after.id, ..before })
}

/// `after` is candidate `i` of a list whose identifiers are `ids`, made unique.
pub open spec fn candidate_renumbered(before: Candidate, after: Candidate, ids: Seq<Seq<char>>, i: int) -> bool {
    &&& after.candidate_id@ == unique_id(ids, i)
    &&& occurrence(ids, i) <= 1 ==> after.candidate_id == before.candidate_id
    &&& after == (Candidate { candidate_id: after.candidate_id, ..before })
}

/// Numbers the second and later findings that share a `finding_id`, in list order.
pub fn dedupe_finding_ids(findings: &mut Vec<Finding>)
    ensures
        final(findings)@.len() == old(findings)@.len(),
        forall|i: int|
            0 <= i < old(findings)@.len() ==> finding_renumbered(
                old(findings)@[i],
                #[trigger] final(findings)@[i],
                finding_ids(old(findings)@),
                i,
            ),
{
    let ghost orig = findings@;
    let ghost ids = finding_ids(orig);
    let mut bases: Vec<String> = Vec::new();
    let mut k: usize = 0;
    while k < findings.len()
        invariant
            findings@ == orig,
            0 <= k <= orig.len(),
            bases@.len() == k,
            forall|t: int| 0 <= t < k ==> (#[trigger] bases@[t])@ == orig[t].finding_id@,
        decreases orig.len() - k,
    {
        bases.push(findings[k].finding_id.clone());
        k = k + 1;
    }
    proof {
        assert(string_views(bases@) =~= ids);
    }
    let mut rest: Vec<Finding> = Vec::new();
    std::mem::swap(&mut rest, findings);
    let mut i: usize = 0;
    while i < bases.len()
        invariant
            bases@.len() == orig.len(),
            string_views(bases@) == ids,
            ids == finding_ids(orig),
            0 <= i <= orig.len(),
            rest@ == orig.skip(i as int),
            findings@.len() == i,
            forall|t: int|
                0 <= t < i ==> finding_renumbered(orig[t], #[trigger] findings@[t], ids, t),
        decreases orig.len() - i,
    {
        let ghost rest0 = rest@;
        let mut f = rest.remove(0);
        proof {
            assert(f == orig[i as int]);
            assert(rest@ =~= orig.skip(i as int + 1));
        }
        let c = occurrence_count(&bases, i);
        if c > 1 {
            let label = numbered(bases[i].as_str(), c);
            f.id = label.clone();
            f.finding_id = label;
        }
        proof {
            assert(ids[i as int] == orig[i as int].finding_id@);
            assert(finding_renumbered(orig[i as int], f, ids, i as int));
        }
        findings.push(f);
        i = i + 1;
    }
}

/// Numbers the second and later candidates that share a `candidate_id`, in list order.
pub fn dedupe_candidate_ids(candidates: &mut Vec<Candidate>)
    ensures
        final(candidates)@.len() == old(candidates)@.len(),
        forall|i: int|
            0 <= i < old(candidates)@.len() ==> candidate_renumbered(
                old(candidates)@[i],
                #[trigger] final(candidates)@[i],
                candidate_ids(old(candidates)@),
                i,
            ),
{
    let ghost orig = candidates@;
    let ghost ids = candidate_ids(orig);
    let mut bases: Vec<String> = Vec::new();
    let mut k: usize = 0;
    while k < candidates.len()
        invariant
            candidates@ == orig,
            0 <= k <= orig.len(),
            bases@.len() == k,
            forall|t: int| 0 <= t < k ==> (#[trigger] bases@[t])@ == orig[t].candidate_id@,
        decreases orig.len() - k,
    {
        bases.push(candidates[k].candidate_id.clone());
        k = k + 1;
    }
    proof {
        assert(string_views(bases@) =~= ids);
    }
    let mut rest: Vec<Candidate> = Vec::new();
    std::mem::swap(&mut rest, candidates);
    let mut i: usize = 0;
    while i < bases.len()
        invariant
            bases@.len() == orig.len(),
            string_views(bases@) == ids,
            ids == candidate_ids(orig),
            0 <= i <= orig.len(),
            rest@ == orig.skip(i as int),
            candidates@.len() == i,
            forall|t: int|
                0 <= t < i ==> candidate_renumbered(orig[t], #[trigger] candidates@[t], ids, t),
        decreases orig.len() - i,
    {
        let mut c = rest.remove(0);
        proof {
            assert(c == orig[i as int]);
            assert(rest@ =~= orig.skip(i as int + 1));
        }
        let n = occurrence_count(&bases, i);
        if n > 1 {
            c.candidate_id = numbered(bases[i].as_str(), n);
        }
        proof {
            assert(ids[i as int] == orig[i as int].candidate_id@);
            assert(candidate_renumbered(orig[i as int], c, ids, i as int));
        }
        candidates.push(c);
        i = i + 1;
    }
}

// ----- report order -----

/// Rules in the order of their codes.
pub open spec fn rule_rank(rule: FindingRule) -> int {
    match rule {
        FindingRule::Cull001 => 0,
        FindingRule::Cull002 => 1,
        FindingRule::Cull003 => 2,
        FindingRule::Cull004 => 3,
    }
}

fn rule_rank_exec(rule: FindingRule) -> (r: u8)
    ensures
        r == rule_rank(rule),
{
    match rule {
        FindingRule::Cull001 => 0,
        FindingRule::Cull002 => 1,
        FindingRule::Cull003 => 2,
        FindingRule::Cull004 => 3,
    }
}

/// Report order: by file, then start offset, then rule, then identifier.
pub open spec fn report_key(file: Seq<char>, start: int, rule: FindingRule, id: Seq<char>) -> Seq<int> {
    str_key(file) + (num_key(start) + (num_key(rule_rank(rule)) + str_key(id)))
}

fn report_key_less(
    file1: &str,
    start1: u32,
    rule1: FindingRule,
    id1: &str,
    file2: &str,
    start2: u32,
    rule2: FindingRule,
    id2: &str,
) -> (less: bool)
    ensures
        less == lex_lt(
            report_key(file1@, start1 as int, rule1, id1@),
            report_key(file2@, start2 as int, rule2, id2@),
        ),
{
    let ghost tail1 = num_key(rule_rank(rule1)) + str_key(id1@);
    let ghost tail2 = num_key(rule_rank(rule2)) + str_key(id2@);
    proof {
        lemma_str_key_separated(file1@, file2@);
        lemma_lex_concat(str_key(file1@), num_key(start1 as int) + tail1, str_key(file2@), num_key(start2 as int) + tail2);
        lemma_num_key_separated(start1 as int, start2 as int);
        lemma_lex_concat(num_key(start1 as int), tail1, num_key(start2 as int), tail2);
        lemma_num_key_separated(rule_rank(rule1), rule_rank(rule2));
        lemma_lex_concat(num_key(rule_rank(rule1)), str_key(id1@), num_key(rule_rank(rule2)), str_key(id2@));
    }
    let by_file = compare_strs(file1, file2);
    if by_file != 0 {
        return by_file == -1;
    }
    if start1 != start2 {
        assert(num_key(start1 as int)[0] == start1);
        return start1 < start2;
    }
    assert(num_key(start1 as int) =~= num_key(start2 as int));
    let r1 = rule_rank_exec(rule1);
    let r2 = rule_rank_exec(rule2);
    if r1 != r2 {
        assert(num_key(rule_rank(rule1))[0] == r1);
        return r1 < r2;
    }
    assert(num_key(rule_rank(rule1)) =~= num_key(rule_rank(rule2)));
    compare_strs(id1, id2) == -1
}

impl SortKey for Finding {
    open spec fn sort_key(&self) -> Seq<int> {
        report_key(self.definition.file@, self.definition.range.start as int, self.rule_id, self.id@)
    }

    fn key_less(&self, other: &Self) -> (less: bool) {
        report_key_less(
            self.definition.file.as_str(),
            self.definition.range.start,
            self.rule_id,
            self.id.as_str(),
            other.definition.file.as_str(),
            other.definition.range.start,
            other.rule_id,
            other.id.as_str(),
        )
    }
}

impl SortKey for Candidate {
    open spec fn sort_key(&self) -> Seq<int> {
        report_key(
            self.definition.file@,
            self.definition.range.start as int,
            self.rule_id,
            self.candidate_id@,
        )
    }

    fn key_less(&self, other: &Self) -> (less: bool) {
        report_key_less(
            self.definition.file.as_str(),
            self.definition.range.start,
            self.rule_id,
            self.candidate_id.as_str(),
            other.definition.file.as_str(),
            other.definition.range.start,
            other.rule_id,
            other.candidate_id.as_str(),
        )
    }
}

/// Puts findings in report order: by file, start offset, rule, then identifier.
pub fn sort_findings(findings: &mut Vec<Finding>)
    ensures
        final(findings)@.to_multiset() == old(findings)@.to_multiset(),
        final(findings)@.len() == old(findings)@.len(),
        sorted_by_key(final(findings)@),
{
    let mut items: Vec<Finding> = Vec::new();
    std::mem::swap(&mut items, findings);
    let sorted = sort_by_key(items);
    *findings = sorted;
}

/// Puts candidates in report order: by file, start offset, rule, then identifier.
pub fn sort_candidates(candidates: &mut Vec<Candidate>)
    ensures
        final(candidates)@.to_multiset() == old(candidates)@.to_multiset(),
        final(candidates)@.len() == old(candidates)@.len(),
        sorted_by_key(final(candidates)@),
{
    let mut items: Vec<Candidate> = Vec::new();
    std::mem::swap(&mut items, candidates);
    let sorted = sort_by_key(items);
    *candidates = sorted;
}

// ----- laws -----

/// A finding's identifier depends only on its rule and on the file, byte range, kind,
/// qualified name and module of its definition; the reported line, column and short name
/// do not change it.
pub proof fn lemma_fingerprint_depends_on_subject(rule: FindingRule, d1: FindingDefinition, d2: FindingDefinition)
    requires
        d1.file@ == d2.file@,
        d1.range == d2.range,
        d1.kind == d2.kind,
        d1.qualified_name@ == d2.qualified_name@,
        d1.module@ == d2.module@,
    ensures
        candidate_fingerprint_spec(rule, d1) == candidate_fingerprint_spec(rule, d2),
        subject_fingerprint_spec(d1) == subject_fingerprint_spec(d2),
{
    assert(subject_text(d1) =~= subject_text(d2));
    assert(candidate_text(rule, d1) =~= candidate_text(rule, d2));
}

/// Identifiers that are already distinct are left as they are.
pub proof fn lemma_distinct_ids_unchanged(ids: Seq<Seq<char>>, i: int)
    requires
        0 <= i < ids.len(),
        forall|a: int, b: int| 0 <= a < b < ids.len() ==> ids[a] != ids[b],
    ensures
        unique_id(ids, i) == ids[i],
{
    lemma_count_single(ids.take(i + 1), ids[i]);
}

/// In a sequence whose last entry occurs nowhere else, that entry occurs once.
proof fn lemma_count_single(s: Seq<Seq<char>>, x: Seq<char>)
    requires
        s.len() > 0,
        s.last() == x,
        forall|a: int, b: int| 0 <= a < b < s.len() ==> s[a] != s[b],
    ensures
        count_equal(s, x) == 1,
{
    lemma_count_absent(s.drop_last(), x);
}

proof fn lemma_count_absent(s: Seq<Seq<char>>, x: Seq<char>)
    requires
        !s.contains(x),
    ensures
        count_equal(s, x) == 0,
    decreases s.len(),
{
    if s.len() > 0 {
        assert(!s.drop_last().contains(x)) by {
            if s.drop_last().contains(x) {
                let k = choose|k: int| 0 <= k < s.drop_last().len() && s.drop_last()[k] == x;
                assert(s[k] == x);
            }
        }
        lemma_count_absent(s.drop_last(), x);
        assert(s.last() != x) by {
            assert(s[s.len() - 1] == s.last());
        }
    }
}

/// Finding and candidate identifiers start with `CULL`, also once numbered.
pub proof fn lemma_identifier_prefix(rule: FindingRule, d: FindingDefinition, ids: Seq<Seq<char>>, i: int)
    requires
        0 <= i < ids.len(),
        ids[i] == candidate_fingerprint_spec(rule, d),
    ensures
        "CULL"@.is_prefix_of(candidate_fingerprint_spec(rule, d)),
        "CULL"@.is_prefix_of(unique_id(ids, i)),
{
    reveal_strlit("CULL");
    reveal_strlit("CULL001");
    reveal_strlit("CULL002");
    reveal_strlit("CULL003");
    reveal_strlit("CULL004");
    let id = candidate_fingerprint_spec(rule, d);
    assert(id.subrange(0, 4) =~= "CULL"@);
    if occurrence(ids, i) > 1 {
        assert(unique_id(ids, i).subrange(0, 4) =~= "CULL"@);
    }
}

} // verus!
