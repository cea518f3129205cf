//! The frontend built on the Ruff Python parser: parser problems become diagnostics and the
//! top-level `def` and `class` statements become IR definitions.
use vstd::prelude::*;
use vstd::utf8::encode_utf8;

use ruff_python_ast::{Mod, ModModule, PythonVersion as RuffPythonVersion, Stmt};
use ruff_python_parser::{parse_unchecked, Mode, ParseOptions};

use crate::diagnostic::{Diagnostic, DiagnosticSeverity};
use crate::frontend::{ParseInput, ParsedModule, PythonFrontend};
use crate::ids::DefId;
use crate::ir::{DefinitionIr, DefinitionKey, DefinitionKind, ModuleIr};
use crate::source::TextRange;
use crate::text::str_eq;

verus! {

#[verifier::external_type_specification]
#[verifier::external_body]
pub struct ExModModule(ModModule);

/// One problem the parser reported, with its byte range.
#[derive(Clone, Debug, PartialEq, Eq)]
pub struct ParseIssue {
    pub message: String,
    pub start: u32,
    pub end: u32,
}

/// What the lowering reads of a top-level `def` or `class` statement.
#[derive(Clone, Debug, PartialEq, Eq)]
pub struct DefinitionSyntax {
    pub kind: DefinitionKind,
    pub name: String,
    pub name_range: TextRange,
    pub range: TextRange,
    pub is_async: bool,
    pub decorator_count: usize,
    pub type_parameter_count: usize,
}

/// What the lowering reads of a top-level `from ... import ...` statement.
#[derive(Clone, Debug, PartialEq, Eq)]
pub struct ImportFromSyntax {
    pub level: u32,
    pub module: Option<String>,
    pub names: Vec<String>,
}

/// A top-level statement, as far as the lowering distinguishes statements.
#[derive(Clone, Debug, PartialEq, Eq)]
pub enum TopStatement {
    Definition(DefinitionSyntax),
    ImportFrom(ImportFromSyntax),
    Other,
}

/// The Ruff frontend.
#[derive(Default)]
pub struct RuffFrontend;

/// A module parsed by Ruff, with the text and target version it was parsed from.
pub struct RuffModule {
    module: ModModule,
    count: usize,
    source: Ghost<Seq<char>>,
    major: u8,
    minor: u8,
}

/// The syntax errors and the unsupported-syntax errors Ruff reports for `text` parsed as a
/// module for Python `major.minor`.
pub uninterp spec fn ruff_parse_issues(text: Seq<char>, major: u8, minor: u8) -> (
    Seq<ParseIssue>,
    Seq<ParseIssue>,
);

/// The number of top-level statements Ruff parses from `text`, or `None` when the parser does
/// not return a module.
pub uninterp spec fn ruff_statement_count(text: Seq<char>, major: u8, minor: u8) -> Option<nat>;

/// The definition syntax of the top-level statement at `index`, when it is a `def`.
pub uninterp spec fn ruff_function_def_at(text: Seq<char>, major: u8, minor: u8, index: int) -> Option<
    DefinitionSyntax,
>;

/// The definition syntax of the top-level statement at `index`, when it is a `class`.
pub uninterp spec fn ruff_class_def_at(text: Seq<char>, major: u8, minor: u8, index: int) -> Option<
    DefinitionSyntax,
>;

/// The import syntax of the top-level statement at `index`, when it is `from ... import ...`.
pub uninterp spec fn ruff_import_from_at(text: Seq<char>, major: u8, minor: u8, index: int) -> Option<
    ImportFromSyntax,
>;

/// Calls `ruff_python_parser::parse_unchecked` in module mode for Python `major.minor` and
/// returns, converted to plain values, the errors of `Parsed::errors` (their `ParseErrorType`
/// text and location) and of `Parsed::unsupported_syntax_errors` (their text and range).
/// The contract names the result; it claims nothing about its contents. Ruff's lexer asserts
/// that the text is at most 4 GiB of UTF-8, so longer text is left out.
#[verifier::external_body]
fn ruff_issues(text: &str, major: u8, minor: u8) -> (r: (Vec<ParseIssue>, Vec<ParseIssue>))
    requires
        vstd::utf8::encode_utf8(text@).len() <= u32::MAX,
    ensures
        (r.0@, r.1@) == ruff_parse_issues(text@, major, minor),
{
    let options = ParseOptions::from(Mode::Module).with_target_version(RuffPythonVersion { major, minor });
    let parsed = parse_unchecked(text, options);
    let errors = parsed.errors().iter().map(|e| ParseIssue { message: e.error.to_string(),
        start: e.location.start().to_u32(), end: e.location.end().to_u32() }).collect();
    let unsupported = parsed.unsupported_syntax_errors().iter().map(|e| ParseIssue {
        message: e.to_string(), start: e.range.start().to_u32(), end: e.range.end().to_u32() }).collect();
    (errors, unsupported)
}

/// Calls `ruff_python_parser::parse_unchecked` in module mode and keeps the `ModModule` that
/// `Parsed::into_syntax` returns (`None` for any other `Mod`), with its statement count. The
/// text is at most 4 GiB of UTF-8, as Ruff's lexer asserts.
#[verifier::external_body]
fn ruff_parse_module(text: &str, major: u8, minor: u8) -> (r: Option<RuffModule>)
    requires
        vstd::utf8::encode_utf8(text@).len() <= u32::MAX,
    ensures
        r is Some <==> ruff_statement_count(text@, major, minor) is Some,
        r matches Some(m) ==> m.source@ == text@ && m.major == major && m.minor == minor
            && ruff_statement_count(text@, major, minor) == Some(m.count as nat),
{
    let options = ParseOptions::from(Mode::Module).with_target_version(RuffPythonVersion { major, minor });
    match parse_unchecked(text, options).into_syntax() {
        Mod::Module(module) => Some(RuffModule { count: module.body.len(), module, source: Ghost(text@), major, minor }),
        Mod::Expression(_) => None,
    }
}

/// Reads the statement at `index` of a parsed module: a `StmtFunctionDef` becomes its name,
/// name range, statement range, `is_async`, decorator count and type-parameter count; any
/// other statement becomes `None`.
#[verifier::external_body]
fn ruff_function_def(m: &RuffModule, index: usize) -> (r: Option<DefinitionSyntax>)
    requires
        index < m.count,
    ensures
        r == ruff_function_def_at(m.source@, m.major, m.minor, index as int),
{
    let Stmt::FunctionDef(f) = &m.module.body[index] else { return None };
    Some(DefinitionSyntax { kind: DefinitionKind::Function, name: f.name.id.to_string(),
        name_range: TextRange { start: f.name.range.start().to_u32(), end: f.name.range.end().to_u32() },
        range: TextRange { start: f.range.start().to_u32(), end: f.range.end().to_u32() },
        is_async: f.is_async, decorator_count: f.decorator_list.len(),
        type_parameter_count: f.type_params.as_ref().map_or(0, |p| p.type_params.len()) })
}

/// Reads the statement at `index` of a parsed module: a `StmtClassDef` becomes its name, name
/// range, statement range, decorator count and type-parameter count (a class is never
/// `async`); any other statement becomes `None`.
#[verifier::external_body]
fn ruff_class_def(m: &RuffModule, index: usize) -> (r: Option<DefinitionSyntax>)
    requires
        index < m.count,
    ensures
        r == ruff_class_def_at(m.source@, m.major, m.minor, index as int),
{
    let Stmt::ClassDef(c) = &m.module.body[index] else { return None };
    Some(DefinitionSyntax { kind: DefinitionKind::Class, name: c.name.id.to_string(),
        name_range: TextRange { start: c.name.range.start().to_u32(), end: c.name.range.end().to_u32() },
        range: TextRange { start: c.range.start().to_u32(), end: c.range.end().to_u32() },
        is_async: false, decorator_count: c.decorator_list.len(),
        type_parameter_count: c.type_params.as_ref().map_or(0, |p| p.type_params.len()) })
}

/// Reads the statement at `index` of a parsed module: a `StmtImportFrom` becomes its level,
/// module name and imported names; any other statement becomes `None`.
#[verifier::external_body]
fn ruff_import_from(m: &RuffModule, index: usize) -> (r: Option<ImportFromSyntax>)
    requires
        index < m.count,
    ensures
        r == ruff_import_from_at(m.source@, m.major, m.minor, index as int),
{
    match &m.module.body[index] {
        Stmt::ImportFrom(i) => Some(ImportFromSyntax { level: i.level, module: i.module.as_ref().map(|n| n.id.to_string()),
            names: i.names.iter().map(|a| a.name.id.to_string()).collect() }),
        _ => None,
    }
}

/// The top-level statement at `index` as the lowering sees it.
pub open spec fn ruff_statement_at(text: Seq<char>, major: u8, minor: u8, index: int) -> TopStatement {
    match ruff_function_def_at(text, major, minor, index) {
        Some(d) => TopStatement::Definition(d),
        None => match ruff_class_def_at(text, major, minor, index) {
            Some(d) => TopStatement::Definition(d),
            None => match ruff_import_from_at(text, major, minor, index) {
                Some(i) => TopStatement::ImportFrom(i),
                None => TopStatement::Other,
            },
        },
    }
}

/// The first `count` top-level statements of `text`.
pub open spec fn ruff_statements(text: Seq<char>, major: u8, minor: u8, count: nat) -> Seq<TopStatement> {
    Seq::new(count, |k: int| ruff_statement_at(text, major, minor, k))
}

/// The statements of a parsed module, in order.
fn module_statements(m: &RuffModule) -> (r: Vec<TopStatement>)
    ensures
        r@ == ruff_statements(m.source@, m.major, m.minor, m.count as nat),
{
    let mut out: Vec<TopStatement> = Vec::new();
    let mut i: usize = 0;
    while i < m.count
        invariant
            0 <= i <= m.count,
            out@ == ruff_statements(m.source@, m.major, m.minor, i as nat),
        decreases m.count - i,
    {
        let statement = match ruff_function_def(m, i) {
            Some(d) => TopStatement::Definition(d),
            None => match ruff_class_def(m, i) {
                Some(d) => TopStatement::Definition(d),
                None => match ruff_import_from(m, i) {
                    Some(f) => TopStatement::ImportFrom(f),
                    None => TopStatement::Other,
                },
            },
        };
        out.push(statement);
        proof {
            assert(out@ =~= ruff_statements(m.source@, m.major, m.minor, (i + 1) as nat));
        }
        i = i + 1;
    }
    out
}

// ----- diagnostics -----

/// `d` reports `issue` under `code` for the file `path`.
pub open spec fn issue_diagnostic(d: Diagnostic, issue: ParseIssue, code: Seq<char>, path: Seq<char>) -> bool {
    &&& d.code@ == code
    &&& d.severity == DiagnosticSeverity::Error
    &&& d.message@ == issue.message@
    &&& (d.path matches Some(p) && p@ == path)
    &&& d.range == Some(TextRange { start: issue.start, end: issue.end })
}

/// `ds` reports the syntax errors, then the unsupported-syntax errors, in order.
pub open spec fn issue_diagnostics(
    ds: Seq<Diagnostic>,
    errors: Seq<ParseIssue>,
    unsupported: Seq<ParseIssue>,
    path: Seq<char>,
) -> bool {
    &&& ds.len() == errors.len() + unsupported.len()
    &&& forall|k: int| 0 <= k < errors.len() ==> issue_diagnostic(#[trigger] ds[k], errors[k], "CULL_P0201"@, path)
    &&& forall|k: int| errors.len() <= k < ds.len() ==> issue_diagnostic(#[trigger] ds[k], unsupported[k - errors.len()], "CULL_P0202"@, path)
}

fn issue_to_diagnostic(issue: &ParseIssue, code: &str, path: &str) -> (d: Diagnostic)
    ensures
        issue_diagnostic(d, *issue, code@, path@),
{
    Diagnostic::error(code, issue.message.as_str())
        .with_path(path.to_owned())
        .with_range(TextRange::new(issue.start, issue.end))
}

/// Parser problems as diagnostics: `CULL_P0201` for each syntax error, then `CULL_P0202` for
/// each construct the target version does not support, all attached to `path`.
pub fn parser_diagnostics(path: &str, errors: &[ParseIssue], unsupported: &[ParseIssue]) -> (ds: Vec<Diagnostic>)
    ensures
        issue_diagnostics(ds@, errors@, unsupported@, path@),
{
    let mut ds: Vec<Diagnostic> = Vec::new();
    let mut i: usize = 0;
    while i < errors.len()
        invariant
            0 <= i <= errors@.len(),
            ds@.len() == i,
            forall|k: int| 0 <= k < i ==> issue_diagnostic(#[trigger] ds@[k], errors@[k], "CULL_P0201"@, path@),
        decreases errors@.len() - i,
    {
        let d = issue_to_diagnostic(&errors[i], "CULL_P0201", path);
        ds.push(d);
        i = i + 1;
    }
    let mut j: usize = 0;
    while j < unsupported.len()
        invariant
            0 <= j <= unsupported@.len(),
            ds@.len() == errors@.len() + j,
            forall|k: int| 0 <= k < errors@.len() ==> issue_diagnostic(#[trigger] ds@[k], errors@[k], "CULL_P0201"@, path@),
            forall|k: int| errors@.len() <= k < ds@.len() ==> issue_diagnostic(#[trigger] ds@[k], unsupported@[k - errors@.len()], "CULL_P0202"@, path@),
        decreases unsupported@.len() - j,
    {
        let d = issue_to_diagnostic(&unsupported[j], "CULL_P0202", path);
        ds.push(d);
        j = j + 1;
    }
    ds
}

// ----- statement ranges -----

/// The position just after the last newline before `end`, or `0` without one.
pub open spec fn line_start_before(b: Seq<u8>, end: int) -> int
    decreases end,
{
    if end <= 0 {
        0
    } else if b[end - 1] == 10u8 {
        end
    } else {
        line_start_before(b, end - 1)
    }
}

/// The first position at or after `from` where `kw` occurs in `h`.
pub open spec fn find_bytes_from(h: Seq<u8>, kw: Seq<u8>, from: int) -> Option<int>
    decreases h.len() + 1 - from,
{
    if from < 0 || from + kw.len() > h.len() {
        None
    } else if h.subrange(from, from + kw.len()) == kw {
        Some(from)
    } else {
        find_bytes_from(h, kw, from + 1)
    }
}

/// The keyword that opens a definition statement: `async def`, `def` or `class`.
pub open spec fn definition_keyword(kind: DefinitionKind, is_async: bool) -> Seq<u8> {
    match kind {
        DefinitionKind::Function => if is_async {
            seq![97u8, 115u8, 121u8, 110u8, 99u8, 32u8, 100u8, 101u8, 102u8]
        } else {
            seq![100u8, 101u8, 102u8]
        },
        DefinitionKind::Class => seq![99u8, 108u8, 97u8, 115u8, 115u8],
    }
}

/// The range of a definition statement: from its keyword on the line of its name (so that
/// decorators are left out) to the end of the statement, or `fallback` without a keyword.
pub open spec fn statement_range(
    b: Seq<u8>,
    fallback: TextRange,
    name_range: TextRange,
    is_async: bool,
    kind: DefinitionKind,
) -> TextRange {
    let ls = line_start_before(b, name_range.start as int);
    let header = b.subrange(ls, name_range.start as int);
    match find_bytes_from(header, definition_keyword(kind, is_async), 0) {
        Some(o) => TextRange { start: (ls + o) as u32, end: fallback.end },
        None => TextRange { start: fallback.start, end: fallback.end },
    }
}

proof fn lemma_line_start_bounds(b: Seq<u8>, end: int)
    ensures
        end >= 0 ==> 0 <= line_start_before(b, end) <= end,
    decreases end,
{
    if end > 0 && b[end - 1] != 10u8 {
        lemma_line_start_bounds(b, end - 1);
    }
}

proof fn lemma_find_bounds(h: Seq<u8>, kw: Seq<u8>, from: int)
    ensures
        find_bytes_from(h, kw, from) matches Some(o) ==> from <= o && o + kw.len() <= h.len(),
    decreases h.len() + 1 - from,
{
    if from >= 0 && from + kw.len() <= h.len() && h.subrange(from, from + kw.len()) != kw {
        lemma_find_bounds(h, kw, from + 1);
    }
}

fn definition_keyword_bytes(kind: DefinitionKind, is_async: bool) -> (k: Vec<u8>)
    ensures
        k@ == definition_keyword(kind, is_async),
{
    let k = match kind {
        DefinitionKind::Function => if is_async {
            vec![97u8, 115u8, 121u8, 110u8, 99u8, 32u8, 100u8, 101u8, 102u8]
        } else {
            vec![100u8, 101u8, 102u8]
        },
        DefinitionKind::Class => vec![99u8, 108u8, 97u8, 115u8, 115u8],
    };
    assert(k@ =~= definition_keyword(kind, is_async));
    k
}

/// Whether `kw` occurs in `b` at `at`.
fn bytes_at(b: &[u8], at: usize, kw: &[u8]) -> (yes: bool)
    requires
        at + kw@.len() <= b@.len(),
    ensures
        yes == (b@.subrange(at as int, at + kw@.len()) == kw@),
{
    let n = b.len();
    let mut i: usize = 0;
    while i < kw.len()
        invariant
            n == b@.len(),
            at + kw@.len() <= b@.len(),
            0 <= i <= kw@.len(),
            forall|j: int| 0 <= j < i ==> b@[at + j] == kw@[j],
        decreases kw@.len() - i,
    {
        if b[at + i] != kw[i] {
            assert(b@.subrange(at as int, at + kw@.len())[i as int] != kw@[i as int]);
            return false;
        }
        i = i + 1;
    }
    assert(b@.subrange(at as int, at + kw@.len()) =~= kw@);
    true
}

/// The range of a definition statement, starting at its `def`, `async def` or `class` keyword
/// on the line of its name; `fallback` gives the end, and the start when no keyword is there.
pub fn definition_statement_range(
    source: &str,
    fallback: TextRange,
    name_range: TextRange,
    is_async: bool,
    kind: DefinitionKind,
) -> (r: TextRange)
    requires
        name_range.start <= encode_utf8(source@).len(),
    ensures
        r == statement_range(encode_utf8(source@), fallback, name_range, is_async, kind),
{
    let b = source.as_bytes();
    let ghost bs = b@;
    assert(bs == encode_utf8(source@));
    let ns = name_range.start as usize;
    let mut ls: usize = ns;
    while ls > 0 && b[ls - 1] != 10u8
        invariant
            ls <= ns <= bs.len(),
            b@ == bs,
            line_start_before(bs, ns as int) == line_start_before(bs, ls as int),
        decreases ls,
    {
        ls = ls - 1;
    }
    let kw = definition_keyword_bytes(kind, is_async);
    let ghost header = bs.subrange(ls as int, ns as int);
    let mut o: usize = 0;
    let mut found = false;
    while !found && kw.len() <= ns - ls - o
        invariant
            ls <= ns <= bs.len(),
            o <= ns - ls,
            kw@.len() > 0,
            kw@ == definition_keyword(kind, is_async),
            b@ == bs,
            header == bs.subrange(ls as int, ns as int),
            find_bytes_from(header, kw@, 0) == if found { Some(o as int) } else { find_bytes_from(header, kw@, o as int) },
            found ==> o + kw@.len() <= ns - ls,
        decreases ns - ls - o + (if found { 0int } else { 1int }),
    {
        if bytes_at(b, ls + o, &kw) {
            assert(header.subrange(o as int, o + kw@.len()) =~= bs.subrange(ls + o, ls + o + kw@.len()));
            found = true;
        } else {
            assert(header.subrange(o as int, o + kw@.len()) =~= bs.subrange(ls + o, ls + o + kw@.len()));
            o = o + 1;
        }
    }
    if found {
        TextRange::new((ls + o) as u32, fallback.end)
    } else {
        TextRange::new(fallback.start, fallback.end)
    }
}

// ----- lowering -----

/// The UTF-8 bytes of the module's text.
pub open spec fn input_bytes(input: ParseInput) -> Seq<u8> {
    encode_utf8(input.source.text@)
}

/// The statement range a lowered definition gets: computed from the source when the name
/// lies within it, otherwise the parser's own range.
pub open spec fn lowered_range(b: Seq<u8>, d: DefinitionSyntax) -> TextRange {
    if d.name_range.start <= b.len() {
        statement_range(b, d.range, d.name_range, d.is_async, d.kind)
    } else {
        d.range
    }
}

/// `ir` is the lowering of `d`, the definition at position `index`, in module `module`.
pub open spec fn lowered_from(ir: DefinitionIr, d: DefinitionSyntax, module: Seq<char>, b: Seq<u8>, index: int) -> bool {
    let range = lowered_range(b, d);
    &&& ir.id == DefId(index as u32)
    &&& ir.key.module@ == module
    &&& ir.key.kind == d.kind
    &&& ir.key.lexical_parent is None
    &&& ir.key.name@ == d.name@
    &&& ir.key.range == range
    &&& ir.kind == d.kind
    &&& ir.name@ == d.name@
    &&& ir.range == range
    &&& ir.name_range == d.name_range
    &&& ir.is_async == d.is_async
    &&& ir.decorator_count == d.decorator_count
    &&& ir.type_parameter_count == d.type_parameter_count
}

/// The definitions among the statements, in order.
pub open spec fn definition_syntaxes(s: Seq<TopStatement>) -> Seq<DefinitionSyntax>
    decreases s.len(),
{
    if s.len() == 0 {
        Seq::empty()
    } else {
        let rest = definition_syntaxes(s.drop_last());
        match s.last() {
            TopStatement::Definition(d) => rest.push(d),
            _ => rest,
        }
    }
}

/// `s` is `from __future__ import annotations` (possibly among other names).
pub open spec fn imports_future_annotations(s: TopStatement) -> bool {
    match s {
        TopStatement::ImportFrom(i) => {
            &&& i.level == 0
            &&& (i.module matches Some(m) && m@ == "__future__"@)
            &&& exists|k: int| 0 <= k < i.names@.len() && #[trigger] i.names@[k]@ == "annotations"@
        },
        _ => false,
    }
}

/// `m` is the IR of the module given by `input` with top-level statements `s`.
pub open spec fn module_lowered(m: ModuleIr, input: ParseInput, s: Seq<TopStatement>) -> bool {
    let defs = definition_syntaxes(s);
    &&& m.id == input.module_id
    &&& m.file == input.file_id
    &&& m.name@ == input.module_name@
    &&& m.path@ == input.display_path@
    &&& m.future_annotations == exists|k: int| 0 <= k < s.len() && imports_future_annotations(#[trigger] s[k])
    &&& m.definitions@.len() == defs.len()
    &&& forall|k: int| 0 <= k < defs.len() ==> lowered_from(#[trigger] m.definitions@[k], defs[k], input.module_name@, input_bytes(input), k)
}

/// Whether `target` is one of `names`.
pub fn contains_string(names: &Vec<String>, target: &str) -> (yes: bool)
    ensures
        yes == exists|k: int| 0 <= k < names@.len() && #[trigger] names@[k]@ == target@,
{
    let mut j: usize = 0;
    while j < names.len()
        invariant
            0 <= j <= names@.len(),
            forall|k: int| 0 <= k < j ==> #[trigger] names@[k]@ != target@,
        decreases names@.len() - j,
    {
        if str_eq(names[j].as_str(), target) {
            return true;
        }
        j = j + 1;
    }
    false
}

/// Whether the statements import `annotations` from `__future__`.
pub fn has_future_annotations(statements: &[TopStatement]) -> (yes: bool)
    ensures
        yes == exists|k: int| 0 <= k < statements@.len() && imports_future_annotations(#[trigger] statements@[k]),
{
    let mut i: usize = 0;
    while i < statements.len()
        invariant
            0 <= i <= statements@.len(),
            forall|k: int| 0 <= k < i ==> !imports_future_annotations(#[trigger] statements@[k]),
        decreases statements@.len() - i,
    {
        if let TopStatement::ImportFrom(import) = &statements[i] {
            if import.level == 0 {
                let from_future = match &import.module {
                    Some(m) => str_eq(m.as_str(), "__future__"),
                    None => false,
                };
                if from_future && contains_string(&import.names, "annotations") {
                    return true;
                }
            }
        }
        i = i + 1;
    }
    false
}

/// The IR of one `def` or `class` statement; other statements have none.
pub fn lower_definition(statement: &TopStatement, input: ParseInput<'_>) -> (r: Option<DefinitionIr>)
    ensures
        statement is Definition <==> r is Some,
        r matches Some(ir) ==> lowered_from(ir, statement->Definition_0, input.module_name@, input_bytes(input), 0),
{
    match statement {
        TopStatement::Definition(d) => {
            let text = input.source.text.as_str();
            let range = if (d.name_range.start as usize) <= text.as_bytes().len() {
                definition_statement_range(text, d.range, d.name_range, d.is_async, d.kind)
            } else {
                d.range
            };
            Some(DefinitionIr {
                id: DefId::new(0),
                key: DefinitionKey {
                    module: input.module_name.to_owned(),
                    kind: d.kind,
                    lexical_parent: None,
                    name: d.name.clone(),
                    range,
                },
                kind: d.kind,
                name: d.name.clone(),
                range,
                name_range: d.name_range,
                is_async: d.is_async,
                decorator_count: d.decorator_count,
                type_parameter_count: d.type_parameter_count,
            })
        },
        _ => None,
    }
}

/// The IR of a module from its top-level statements: its definitions numbered in order, and
/// whether it imports `annotations` from `__future__`.
pub fn lower_module(input: ParseInput<'_>, statements: &[TopStatement]) -> (m: ModuleIr)
    ensures
        module_lowered(m, input, statements@),
{
    let future_annotations = has_future_annotations(statements);
    let mut definitions: Vec<DefinitionIr> = Vec::new();
    let mut i: usize = 0;
    while i < statements.len()
        invariant
            0 <= i <= statements@.len(),
            definitions@.len() == definition_syntaxes(statements@.take(i as int)).len(),
            forall|k: int| 0 <= k < definitions@.len() ==> lowered_from(#[trigger] definitions@[k],
                definition_syntaxes(statements@.take(i as int))[k], input.module_name@, input_bytes(input), k),
        decreases statements@.len() - i,
    {
        proof {
            assert(statements@.take(i + 1).drop_last() =~= statements@.take(i as int));
            assert(statements@.take(i + 1).last() == statements@[i as int]);
        }
        match lower_definition(&statements[i], input) {
            Some(mut definition) => {
                definition.id = DefId::new(definitions.len() as u32);
                definitions.push(definition);
            },
            None => {},
        }
        i = i + 1;
    }
    proof {
        assert(statements@.take(statements@.len() as int) =~= statements@);
    }
    ModuleIr {
        id: input.module_id,
        file: input.file_id,
        name: input.module_name.to_owned(),
        path: input.display_path.to_owned(),
        future_annotations,
        definitions,
    }
}

/// `ds` is the single error that the parser returned no module for `path`.
pub open spec fn no_module_diagnostics(ds: Seq<Diagnostic>, path: Seq<char>) -> bool {
    &&& ds.len() == 1
    &&& ds[0].code@ == "CULL_P0200"@
    &&& ds[0].severity == DiagnosticSeverity::Error
    &&& (ds[0].path matches Some(p) && p@ == path)
}

/// What `RuffFrontend::parse_module` gives for `input`: the parser's problems as diagnostics
/// when it reports any; `CULL_P0200` when it returns no module; otherwise the lowered module.
pub open spec fn ruff_parse_result(input: ParseInput, r: Result<ParsedModule, Vec<Diagnostic>>) -> bool {
    let text = input.source.text@;
    let major = input.target_python.major;
    let minor = input.target_python.minor;
    let issues = ruff_parse_issues(text, major, minor);
    if issues.0.len() + issues.1.len() > 0 {
        r matches Err(ds) && issue_diagnostics(ds@, issues.0, issues.1, input.display_path@)
    } else {
        match ruff_statement_count(text, major, minor) {
            None => r matches Err(ds) && no_module_diagnostics(ds@, input.display_path@),
            Some(n) => r matches Ok(p) && p.diagnostics@.len() == 0
                && module_lowered(p.module, input, ruff_statements(text, major, minor, n)),
        }
    }
}

impl PythonFrontend for RuffFrontend {
    fn parse_module(&self, input: ParseInput<'_>) -> (r: Result<ParsedModule, Vec<Diagnostic>>)
        ensures
            ruff_parse_result(input, r),
    {
        let text = input.source.text.as_str();
        let major = input.target_python.major;
        let minor = input.target_python.minor;
        let (errors, unsupported) = ruff_issues(text, major, minor);
        let diagnostics = parser_diagnostics(input.display_path, &errors, &unsupported);
        if diagnostics.len() > 0 {
            return Err(diagnostics);
        }
        match ruff_parse_module(text, major, minor) {
            None => {
                let d = Diagnostic::error("CULL_P0200", "parser did not return a module").with_path(
                    input.display_path.to_owned(),
                );
                Err(vec![d])
            },
            Some(m) => {
                let statements = module_statements(&m);
                Ok(ParsedModule { module: lower_module(input, &statements), diagnostics: Vec::new() })
            },
        }
    }
}

} // verus!
