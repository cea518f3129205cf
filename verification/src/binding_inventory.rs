//! The binding inventory of a module: the scopes, symbols, bindings and definitions that its
//! statements introduce. Walking the statements gives a list of steps (bind a name, enter a
//! definition's scope, leave it); the steps are then recorded in the semantic graph.
use vstd::prelude::*;

use crate::frontend::ParseInput;
use crate::ir::DefinitionKind;
use crate::ruff_frontend::{definition_statement_range, statement_range};
use crate::builder::{graph_well_formed, module_binding_count, SemanticGraphBuilder};
use crate::ids::{BindingId, ContextId, ModuleId, ScopeId};
use crate::semantic::{
    BindingFact, BindingInput, BindingKind, ContextFact, ContextKind, DefinitionInput, OriginDomain, ScopeContextInput,
    ScopeFact, ScopeKind, SemanticDefinition, SemanticGraph, SemanticModule, OriginEvidence,
};
use crate::source::TextRange;
use crate::syntax::{AliasSyntax, HandlerSyntax, ParameterSyntax, StmtSyntax, TargetSyntax};
use crate::text::{contains_seq, find_char, first_index_of, push_char, slice_chars, str_chars, str_contains, str_eq, string_from_chars};
use vstd::string::StringExecFns;
use vstd::utf8::encode_utf8;

verus! {

/// One step of the walk over a module's statements.
#[derive(Clone, Debug, PartialEq, Eq)]
pub enum InventoryStep {
    /// Bind `name` in the current scope.
    Bind { kind: BindingKind, name: String, range: TextRange, name_range: TextRange },
    /// Bind the name of a `def` or `class` in the current scope, add its scope and definition,
    /// and make that scope current.
    Enter {
        kind: DefinitionKind,
        name: String,
        qualified_name: String,
        range: TextRange,
        name_range: TextRange,
        is_async: bool,
        reportable: bool,
    },
    /// Return to the scope that was current before the matching `Enter`.
    Leave,
}

/// A step as plain values.
pub enum StepView {
    Bind(BindingKind, Seq<char>, TextRange, TextRange),
    Enter(DefinitionKind, Seq<char>, Seq<char>, TextRange, TextRange, bool, bool),
    Leave,
}

pub open spec fn step_view(s: InventoryStep) -> StepView {
    match s {
        InventoryStep::Bind { kind, name, range, name_range } => StepView::Bind(kind, name@, range, name_range),
        InventoryStep::Enter { kind, name, qualified_name, range, name_range, is_async, reportable } => StepView::Enter(
            kind,
            name@,
            qualified_name@,
            range,
            name_range,
            is_async,
            reportable,
        ),
        InventoryStep::Leave => StepView::Leave,
    }
}

pub open spec fn steps_view(s: Seq<InventoryStep>) -> Seq<StepView> {
    s.map_values(|x: InventoryStep| step_view(x))
}

/// The qualified name of `name` defined in the scope named `parent`: `parent::name` in a
/// module, `parent.name` deeper down.
pub open spec fn child_qualified(parent: Seq<char>, name: Seq<char>) -> Seq<char> {
    if contains_seq(parent, seq![':', ':']) {
        parent + seq!['.'] + name
    } else {
        parent + seq![':', ':'] + name
    }
}

/// The name an `import a.b.c` binds: `a`.
pub open spec fn import_root(name: Seq<char>) -> Seq<char> {
    match first_index_of(name, '.') {
        Some(k) => name.take(k),
        None => name,
    }
}

/// The range recorded for a definition: from its keyword to its end (see
/// `statement_range`), or the statement's own range when the name lies outside the source.
pub open spec fn definition_range(src: Seq<u8>, range: TextRange, name_range: TextRange, is_async: bool, kind: DefinitionKind) -> TextRange {
    if name_range.start <= src.len() {
        statement_range(src, range, name_range, is_async, kind)
    } else {
        range
    }
}

/// The names a target binds: a stored name, the elements of a stored tuple or list, what a
/// starred target holds; nothing else.
pub open spec fn target_steps(t: TargetSyntax, kind: BindingKind) -> Seq<StepView>
    decreases t, 0nat,
{
    match t {
        TargetSyntax::Name { id, range, store } => if store {
            seq![StepView::Bind(kind, id@, range, range)]
        } else {
            Seq::empty()
        },
        TargetSyntax::Tuple { elts, store } => if store {
            targets_steps(elts@, kind)
        } else {
            Seq::empty()
        },
        TargetSyntax::List { elts, store } => if store {
            targets_steps(elts@, kind)
        } else {
            Seq::empty()
        },
        TargetSyntax::Starred { value } => target_steps(*value, kind),
        TargetSyntax::Other => Seq::empty(),
    }
}

pub open spec fn targets_steps(ts: Seq<TargetSyntax>, kind: BindingKind) -> Seq<StepView>
    decreases ts, 1nat,
{
    if ts.len() == 0 {
        Seq::empty()
    } else {
        targets_steps(ts.drop_last(), kind) + target_steps(ts.last(), kind)
    }
}

/// Each parameter binds its name, in source order.
pub open spec fn parameter_steps(ps: Seq<ParameterSyntax>) -> Seq<StepView>
    decreases ps.len(),
{
    if ps.len() == 0 {
        Seq::empty()
    } else {
        let p = ps.last();
        parameter_steps(ps.drop_last()).push(StepView::Bind(BindingKind::Parameter, p.name@, p.range, p.name_range))
    }
}

/// The name an alias binds and its range: the `as` name, else `bound` of the imported name.
pub open spec fn alias_step(a: AliasSyntax, kind: BindingKind, bound: Seq<char>) -> StepView {
    match a.asname {
        Some(n) => StepView::Bind(kind, n.id@, a.range, n.range),
        None => StepView::Bind(kind, bound, a.range, a.name_range),
    }
}

/// `import a.b as c` binds `c`; `import a.b` binds `a`.
pub open spec fn import_steps(names: Seq<AliasSyntax>) -> Seq<StepView>
    decreases names.len(),
{
    if names.len() == 0 {
        Seq::empty()
    } else {
        let a = names.last();
        import_steps(names.drop_last()).push(alias_step(a, BindingKind::Import, import_root(a.name@)))
    }
}

/// `from m import x as y` binds `y`; `from m import x` binds `x`; `*` binds nothing.
pub open spec fn import_from_steps(names: Seq<AliasSyntax>) -> Seq<StepView>
    decreases names.len(),
{
    if names.len() == 0 {
        Seq::empty()
    } else {
        let a = names.last();
        let rest = import_from_steps(names.drop_last());
        if a.name@ == seq!['*'] {
            rest
        } else {
            rest.push(alias_step(a, BindingKind::ImportFrom, a.name@))
        }
    }
}

/// The targets of the items of a `with` statement.
pub open spec fn with_steps(ts: Seq<Option<TargetSyntax>>) -> Seq<StepView>
    decreases ts.len(),
{
    if ts.len() == 0 {
        Seq::empty()
    } else {
        with_steps(ts.drop_last()) + match ts.last() {
            Some(t) => target_steps(t, BindingKind::WithTarget),
            None => Seq::empty(),
        }
    }
}

/// The steps of a `def` or `class`: enter its scope, bind the parameters, walk the body, leave.
pub open spec fn definition_steps(
    kind: DefinitionKind,
    name: Seq<char>,
    name_range: TextRange,
    range: TextRange,
    is_async: bool,
    a_name: Seq<char>,
    a_module: bool,
    src: Seq<u8>,
    params: Seq<StepView>,
    body: Seq<StepView>,
) -> Seq<StepView> {
    seq![
        StepView::Enter(
            kind,
            name,
            child_qualified(a_name, name),
            definition_range(src, range, name_range, is_async, kind),
            name_range,
            is_async,
            a_module,
        ),
    ] + params + body + seq![StepView::Leave]
}

/// The steps of one statement in the scope named `a_name` (`a_module`: the module's scope).
pub open spec fn stmt_steps(s: StmtSyntax, a_name: Seq<char>, a_module: bool, src: Seq<u8>) -> Seq<StepView>
    decreases s, 0nat,
{
    match s {
        StmtSyntax::FunctionDef { name, name_range, range, is_async, parameters, body } => definition_steps(
            DefinitionKind::Function,
            name@,
            name_range,
            range,
            is_async,
            a_name,
            a_module,
            src,
            parameter_steps(parameters@),
            block_steps(body@, child_qualified(a_name, name@), false, src),
        ),
        StmtSyntax::ClassDef { name, name_range, range, body } => definition_steps(
            DefinitionKind::Class,
            name@,
            name_range,
            range,
            false,
            a_name,
            a_module,
            src,
            Seq::empty(),
            block_steps(body@, child_qualified(a_name, name@), false, src),
        ),
        StmtSyntax::Assign { targets } => targets_steps(targets@, BindingKind::Assignment),
        StmtSyntax::AnnAssign { target, has_value } => if has_value {
            target_steps(target, BindingKind::AnnotatedAssignment)
        } else {
            Seq::empty()
        },
        StmtSyntax::AugAssign { target } => target_steps(target, BindingKind::AugmentedAssignment),
        StmtSyntax::Import { names } => import_steps(names@),
        StmtSyntax::ImportFrom { module, level, names } => import_from_steps(names@),
        StmtSyntax::TypeAlias { name } => target_steps(name, BindingKind::TypeAlias),
        StmtSyntax::Delete { targets } => targets_steps(targets@, BindingKind::Delete),
        StmtSyntax::For { target, body, orelse } => target_steps(target, BindingKind::ForTarget) + block_steps(
            body@,
            a_name,
            a_module,
            src,
        ) + block_steps(orelse@, a_name, a_module, src),
        StmtSyntax::While { body, orelse } => block_steps(body@, a_name, a_module, src) + block_steps(
            orelse@,
            a_name,
            a_module,
            src,
        ),
        StmtSyntax::If { body, clauses } => block_steps(body@, a_name, a_module, src) + blocks_steps(
            clauses@,
            a_name,
            a_module,
            src,
        ),
        StmtSyntax::With { targets, body } => with_steps(targets@) + block_steps(body@, a_name, a_module, src),
        StmtSyntax::Try { body, handlers, orelse, finalbody } => block_steps(body@, a_name, a_module, src)
            + handlers_steps(handlers@, a_name, a_module, src) + block_steps(orelse@, a_name, a_module, src)
            + block_steps(finalbody@, a_name, a_module, src),
        StmtSyntax::Match { cases } => blocks_steps(cases@, a_name, a_module, src),
        StmtSyntax::Other => Seq::empty(),
    }
}

/// The steps of a block of statements, one statement after another.
pub open spec fn block_steps(ss: Seq<StmtSyntax>, a_name: Seq<char>, a_module: bool, src: Seq<u8>) -> Seq<StepView>
    decreases ss, 1nat,
{
    if ss.len() == 0 {
        Seq::empty()
    } else {
        block_steps(ss.drop_last(), a_name, a_module, src) + stmt_steps(ss.last(), a_name, a_module, src)
    }
}

/// The steps of several blocks, one after another.
pub open spec fn blocks_steps(bs: Seq<Vec<StmtSyntax>>, a_name: Seq<char>, a_module: bool, src: Seq<u8>) -> Seq<StepView>
    decreases bs, 1nat,
{
    if bs.len() == 0 {
        Seq::empty()
    } else {
        blocks_steps(bs.drop_last(), a_name, a_module, src) + block_steps(bs.last()@, a_name, a_module, src)
    }
}

/// The steps of `except` clauses: each binds its name, if any, then walks its body.
pub open spec fn handlers_steps(hs: Seq<HandlerSyntax>, a_name: Seq<char>, a_module: bool, src: Seq<u8>) -> Seq<StepView>
    decreases hs, 1nat,
{
    if hs.len() == 0 {
        Seq::empty()
    } else {
        let h = hs.last();
        handlers_steps(hs.drop_last(), a_name, a_module, src) + match h.name {
            Some(n) => seq![StepView::Bind(BindingKind::ExceptTarget, n.id@, n.range, n.range)],
            None => Seq::empty(),
        } + block_steps(h.body@, a_name, a_module, src)
    }
}


// ----- the walk -----

fn push_step(out: &mut Vec<InventoryStep>, step: InventoryStep)
    ensures
        steps_view(final(out)@) == steps_view(old(out)@).push(step_view(step)),
{
    let ghost before = out@;
    out.push(step);
    proof {
        assert(steps_view(out@) =~= steps_view(before).push(step_view(step)));
    }
}

/// The qualified name of `name` defined in the scope named `parent`.
pub fn child_qualified_name(parent: &str, name: &str) -> (q: String)
    ensures
        q@ == child_qualified(parent@, name@),
{
    proof {
        reveal_strlit("::");
    }
    let mut q = <String as StringExecFns>::from_str(parent);
    if str_contains(parent, "::") {
        push_char(&mut q, '.');
    } else {
        push_char(&mut q, ':');
        push_char(&mut q, ':');
    }
    q.append(name);
    proof {
        assert(seq![':', ':'] =~= "::"@);
        assert(parent@.push(':').push(':') =~= parent@ + seq![':', ':']);
        assert(parent@.push('.') =~= parent@ + seq!['.']);
    }
    q
}

/// The name an `import` of the dotted `name` binds.
pub fn import_root_name(name: &str) -> (root: String)
    ensures
        root@ == import_root(name@),
{
    let chars = str_chars(name);
    match find_char(&chars, '.') {
        Some(k) => {
            let head = slice_chars(&chars, 0, k);
            proof {
                assert(chars@.subrange(0, k as int) =~= chars@.take(k as int));
            }
            string_from_chars(&head)
        },
        None => string_from_chars(&chars),
    }
}

/// The range recorded for a definition.
fn definition_range_of(src: &str, range: TextRange, name_range: TextRange, is_async: bool, kind: DefinitionKind) -> (r: TextRange)
    ensures
        r == definition_range(encode_utf8(src@), range, name_range, is_async, kind),
{
    let b = src.as_bytes();
    let n = b.len();
    proof {
        assert(b@ == encode_utf8(src@));
    }
    if (name_range.start as usize) <= n {
        definition_statement_range(src, range, name_range, is_async, kind)
    } else {
        range
    }
}

fn copy_string(s: &String) -> (c: String)
    ensures
        c@ == s@,
{
    s.clone()
}

/// Appends the steps of a target.
pub fn collect_target(t: &TargetSyntax, kind: BindingKind, out: &mut Vec<InventoryStep>)
    ensures
        steps_view(final(out)@) == steps_view(old(out)@) + target_steps(*t, kind),
    decreases *t, 0nat,
{
    let ghost before = steps_view(out@);
    match t {
        TargetSyntax::Name { id, range, store } => {
            if *store {
                push_step(out, InventoryStep::Bind { kind, name: copy_string(id), range: *range, name_range: *range });
                proof {
                    assert(steps_view(out@) =~= before + target_steps(*t, kind));
                }
            } else {
                proof {
                    assert(steps_view(out@) =~= before + target_steps(*t, kind));
                }
            }
        },
        TargetSyntax::Tuple { elts, store } => {
            if *store {
                collect_targets(elts, kind, out);
            } else {
                proof {
                    assert(steps_view(out@) =~= before + target_steps(*t, kind));
                }
            }
        },
        TargetSyntax::List { elts, store } => {
            if *store {
                collect_targets(elts, kind, out);
            } else {
                proof {
                    assert(steps_view(out@) =~= before + target_steps(*t, kind));
                }
            }
        },
        TargetSyntax::Starred { value } => {
            collect_target(value, kind, out);
        },
        TargetSyntax::Other => {
            proof {
                assert(steps_view(out@) =~= before + target_steps(*t, kind));
            }
        },
    }
}

/// Appends the steps of several targets, in order.
pub fn collect_targets(ts: &Vec<TargetSyntax>, kind: BindingKind, out: &mut Vec<InventoryStep>)
    ensures
        steps_view(final(out)@) == steps_view(old(out)@) + targets_steps(ts@, kind),
    decreases ts@, 1nat,
{
    let ghost before = steps_view(out@);
    let mut i: usize = 0;
    while i < ts.len()
        invariant
            0 <= i <= ts@.len(),
            steps_view(out@) == before + targets_steps(ts@.take(i as int), kind),
        decreases ts@.len() - i,
    {
        let ghost mid = steps_view(out@);
        collect_target(&ts[i], kind, out);
        proof {
            assert(ts@.take(i + 1).drop_last() =~= ts@.take(i as int));
            assert(ts@.take(i + 1).last() == ts@[i as int]);
            assert(steps_view(out@) =~= before + targets_steps(ts@.take(i + 1), kind));
        }
        i = i + 1;
    }
    proof {
        assert(ts@.take(i as int) =~= ts@);
    }
}

fn collect_parameters(ps: &Vec<ParameterSyntax>, out: &mut Vec<InventoryStep>)
    ensures
        steps_view(final(out)@) == steps_view(old(out)@) + parameter_steps(ps@),
{
    let ghost before = steps_view(out@);
    let mut i: usize = 0;
    while i < ps.len()
        invariant
            0 <= i <= ps@.len(),
            steps_view(out@) == before + parameter_steps(ps@.take(i as int)),
        decreases ps@.len() - i,
    {
        let p = &ps[i];
        push_step(
            out,
            InventoryStep::Bind {
                kind: BindingKind::Parameter,
                name: copy_string(&p.name),
                range: p.range,
                name_range: p.name_range,
            },
        );
        proof {
            assert(ps@.take(i + 1).drop_last() =~= ps@.take(i as int));
            assert(steps_view(out@) =~= before + parameter_steps(ps@.take(i + 1)));
        }
        i = i + 1;
    }
    proof {
        assert(ps@.take(i as int) =~= ps@);
    }
}

fn alias_binding(a: &AliasSyntax, kind: BindingKind, bound: String) -> (step: InventoryStep)
    ensures
        step_view(step) == alias_step(*a, kind, bound@),
{
    match &a.asname {
        Some(n) => InventoryStep::Bind { kind, name: copy_string(&n.id), range: a.range, name_range: n.range },
        None => InventoryStep::Bind { kind, name: bound, range: a.range, name_range: a.name_range },
    }
}

fn collect_imports(names: &Vec<AliasSyntax>, out: &mut Vec<InventoryStep>)
    ensures
        steps_view(final(out)@) == steps_view(old(out)@) + import_steps(names@),
{
    let ghost before = steps_view(out@);
    let mut i: usize = 0;
    while i < names.len()
        invariant
            0 <= i <= names@.len(),
            steps_view(out@) == before + import_steps(names@.take(i as int)),
        decreases names@.len() - i,
    {
        let a = &names[i];
        let root = import_root_name(a.name.as_str());
        push_step(out, alias_binding(a, BindingKind::Import, root));
        proof {
            assert(names@.take(i + 1).drop_last() =~= names@.take(i as int));
            assert(steps_view(out@) =~= before + import_steps(names@.take(i + 1)));
        }
        i = i + 1;
    }
    proof {
        assert(names@.take(i as int) =~= names@);
    }
}

fn collect_import_froms(names: &Vec<AliasSyntax>, out: &mut Vec<InventoryStep>)
    ensures
        steps_view(final(out)@) == steps_view(old(out)@) + import_from_steps(names@),
{
    let ghost before = steps_view(out@);
    let mut i: usize = 0;
    while i < names.len()
        invariant
            0 <= i <= names@.len(),
            steps_view(out@) == before + import_from_steps(names@.take(i as int)),
        decreases names@.len() - i,
    {
        let a = &names[i];
        proof {
            assert(names@.take(i + 1).drop_last() =~= names@.take(i as int));
            reveal_strlit("*");
            assert(seq!['*'] =~= "*"@);
        }
        if !str_eq(a.name.as_str(), "*") {
            push_step(out, alias_binding(a, BindingKind::ImportFrom, copy_string(&a.name)));
        }
        proof {
            assert(steps_view(out@) =~= before + import_from_steps(names@.take(i + 1)));
        }
        i = i + 1;
    }
    proof {
        assert(names@.take(i as int) =~= names@);
    }
}

fn collect_with_targets(ts: &Vec<Option<TargetSyntax>>, out: &mut Vec<InventoryStep>)
    ensures
        steps_view(final(out)@) == steps_view(old(out)@) + with_steps(ts@),
{
    let ghost before = steps_view(out@);
    let mut i: usize = 0;
    while i < ts.len()
        invariant
            0 <= i <= ts@.len(),
            steps_view(out@) == before + with_steps(ts@.take(i as int)),
        decreases ts@.len() - i,
    {
        let ghost mid = steps_view(out@);
        match &ts[i] {
            Some(t) => collect_target(t, BindingKind::WithTarget, out),
            None => {},
        }
        proof {
            assert(ts@.take(i + 1).drop_last() =~= ts@.take(i as int));
            assert(ts@.take(i + 1).last() == ts@[i as int]);
            assert(steps_view(out@) =~= before + with_steps(ts@.take(i + 1)));
        }
        i = i + 1;
    }
    proof {
        assert(ts@.take(i as int) =~= ts@);
    }
}


/// Appends the steps of a `def` or `class`.
fn collect_definition(
    kind: DefinitionKind,
    name: &String,
    name_range: TextRange,
    range: TextRange,
    is_async: bool,
    parameters: Option<&Vec<ParameterSyntax>>,
    body: &Vec<StmtSyntax>,
    a_name: &str,
    a_module: bool,
    src: &str,
    out: &mut Vec<InventoryStep>,
)
    ensures
        steps_view(final(out)@) == steps_view(old(out)@) + definition_steps(
            kind,
            name@,
            name_range,
            range,
            is_async,
            a_name@,
            a_module,
            encode_utf8(src@),
            match parameters {
                Some(ps) => parameter_steps(ps@),
                None => Seq::empty(),
            },
            block_steps(body@, child_qualified(a_name@, name@), false, encode_utf8(src@)),
        ),
    decreases body@, 2nat,
{
    let ghost before = steps_view(out@);
    let qualified = child_qualified_name(a_name, name.as_str());
    let r = definition_range_of(src, range, name_range, is_async, kind);
    push_step(
        out,
        InventoryStep::Enter {
            kind,
            name: copy_string(name),
            qualified_name: copy_string(&qualified),
            range: r,
            name_range,
            is_async,
            reportable: a_module,
        },
    );
    let ghost entered = steps_view(out@);
    match parameters {
        Some(ps) => collect_parameters(ps, out),
        None => {
            proof {
                assert(steps_view(out@) =~= entered + Seq::<StepView>::empty());
            }
        },
    }
    let ghost with_params = steps_view(out@);
    collect_block(body, qualified.as_str(), false, src, out);
    let ghost with_body = steps_view(out@);
    push_step(out, InventoryStep::Leave);
    proof {
        let params = match parameters {
            Some(ps) => parameter_steps(ps@),
            None => Seq::empty(),
        };
        let bsteps = block_steps(body@, child_qualified(a_name@, name@), false, encode_utf8(src@));
        assert(steps_view(out@) =~= before + definition_steps(
            kind,
            name@,
            name_range,
            range,
            is_async,
            a_name@,
            a_module,
            encode_utf8(src@),
            params,
            bsteps,
        ));
    }
}

/// Appends the steps of one statement in the scope named `a_name`.
pub fn collect_statement(s: &StmtSyntax, a_name: &str, a_module: bool, src: &str, out: &mut Vec<InventoryStep>)
    ensures
        steps_view(final(out)@) == steps_view(old(out)@) + stmt_steps(*s, a_name@, a_module, encode_utf8(src@)),
    decreases *s, 0nat,
{
    let ghost before = steps_view(out@);
    let ghost bs = encode_utf8(src@);
    match s {
        StmtSyntax::FunctionDef { name, name_range, range, is_async, parameters, body } => {
            collect_definition(
                DefinitionKind::Function,
                name,
                *name_range,
                *range,
                *is_async,
                Some(parameters),
                body,
                a_name,
                a_module,
                src,
                out,
            );
        },
        StmtSyntax::ClassDef { name, name_range, range, body } => {
            collect_definition(DefinitionKind::Class, name, *name_range, *range, false, None, body, a_name, a_module, src, out);
        },
        StmtSyntax::Assign { targets } => collect_targets(targets, BindingKind::Assignment, out),
        StmtSyntax::AnnAssign { target, has_value } => {
            if *has_value {
                collect_target(target, BindingKind::AnnotatedAssignment, out);
            } else {
                proof {
                    assert(steps_view(out@) =~= before + Seq::<StepView>::empty());
                }
            }
        },
        StmtSyntax::AugAssign { target } => collect_target(target, BindingKind::AugmentedAssignment, out),
        StmtSyntax::Import { names } => collect_imports(names, out),
        StmtSyntax::ImportFrom { module, level, names } => collect_import_froms(names, out),
        StmtSyntax::TypeAlias { name } => collect_target(name, BindingKind::TypeAlias, out),
        StmtSyntax::Delete { targets } => collect_targets(targets, BindingKind::Delete, out),
        StmtSyntax::For { target, body, orelse } => {
            collect_target(target, BindingKind::ForTarget, out);
            let ghost t1 = steps_view(out@);
            collect_block(body, a_name, a_module, src, out);
            let ghost t2 = steps_view(out@);
            collect_block(orelse, a_name, a_module, src, out);
            proof {
                assert(steps_view(out@) =~= before + stmt_steps(*s, a_name@, a_module, bs));
            }
        },
        StmtSyntax::While { body, orelse } => {
            collect_block(body, a_name, a_module, src, out);
            let ghost t1 = steps_view(out@);
            collect_block(orelse, a_name, a_module, src, out);
            proof {
                assert(steps_view(out@) =~= before + stmt_steps(*s, a_name@, a_module, bs));
            }
        },
        StmtSyntax::If { body, clauses } => {
            collect_block(body, a_name, a_module, src, out);
            let ghost t1 = steps_view(out@);
            collect_blocks(clauses, a_name, a_module, src, out);
            proof {
                assert(steps_view(out@) =~= before + stmt_steps(*s, a_name@, a_module, bs));
            }
        },
        StmtSyntax::With { targets, body } => {
            collect_with_targets(targets, out);
            let ghost t1 = steps_view(out@);
            collect_block(body, a_name, a_module, src, out);
            proof {
                assert(steps_view(out@) =~= before + stmt_steps(*s, a_name@, a_module, bs));
            }
        },
        StmtSyntax::Try { body, handlers, orelse, finalbody } => {
            collect_block(body, a_name, a_module, src, out);
            let ghost t1 = steps_view(out@);
            collect_handlers(handlers, a_name, a_module, src, out);
            let ghost t2 = steps_view(out@);
            collect_block(orelse, a_name, a_module, src, out);
            let ghost t3 = steps_view(out@);
            collect_block(finalbody, a_name, a_module, src, out);
            proof {
                assert(steps_view(out@) =~= before + stmt_steps(*s, a_name@, a_module, bs));
            }
        },
        StmtSyntax::Match { cases } => collect_blocks(cases, a_name, a_module, src, out),
        StmtSyntax::Other => {
            proof {
                assert(steps_view(out@) =~= before + Seq::<StepView>::empty());
            }
        },
    }
}

/// Appends the steps of a block of statements.
pub fn collect_block(ss: &Vec<StmtSyntax>, a_name: &str, a_module: bool, src: &str, out: &mut Vec<InventoryStep>)
    ensures
        steps_view(final(out)@) == steps_view(old(out)@) + block_steps(ss@, a_name@, a_module, encode_utf8(src@)),
    decreases ss@, 1nat,
{
    let ghost before = steps_view(out@);
    let mut i: usize = 0;
    while i < ss.len()
        invariant
            0 <= i <= ss@.len(),
            steps_view(out@) == before + block_steps(ss@.take(i as int), a_name@, a_module, encode_utf8(src@)),
        decreases ss@.len() - i,
    {
        let ghost mid = steps_view(out@);
        collect_statement(&ss[i], a_name, a_module, src, out);
        proof {
            assert(ss@.take(i + 1).drop_last() =~= ss@.take(i as int));
            assert(ss@.take(i + 1).last() == ss@[i as int]);
            assert(steps_view(out@) =~= before + block_steps(ss@.take(i + 1), a_name@, a_module, encode_utf8(src@)));
        }
        i = i + 1;
    }
    proof {
        assert(ss@.take(i as int) =~= ss@);
    }
}

fn collect_blocks(bs: &Vec<Vec<StmtSyntax>>, a_name: &str, a_module: bool, src: &str, out: &mut Vec<InventoryStep>)
    ensures
        steps_view(final(out)@) == steps_view(old(out)@) + blocks_steps(bs@, a_name@, a_module, encode_utf8(src@)),
    decreases bs@, 1nat,
{
    let ghost before = steps_view(out@);
    let mut i: usize = 0;
    while i < bs.len()
        invariant
            0 <= i <= bs@.len(),
            steps_view(out@) == before + blocks_steps(bs@.take(i as int), a_name@, a_module, encode_utf8(src@)),
        decreases bs@.len() - i,
    {
        let ghost mid = steps_view(out@);
        collect_block(&bs[i], a_name, a_module, src, out);
        proof {
            assert(bs@.take(i + 1).drop_last() =~= bs@.take(i as int));
            assert(bs@.take(i + 1).last() == bs@[i as int]);
            assert(steps_view(out@) =~= before + blocks_steps(bs@.take(i + 1), a_name@, a_module, encode_utf8(src@)));
        }
        i = i + 1;
    }
    proof {
        assert(bs@.take(i as int) =~= bs@);
    }
}

fn collect_handlers(hs: &Vec<HandlerSyntax>, a_name: &str, a_module: bool, src: &str, out: &mut Vec<InventoryStep>)
    ensures
        steps_view(final(out)@) == steps_view(old(out)@) + handlers_steps(hs@, a_name@, a_module, encode_utf8(src@)),
    decreases hs@, 1nat,
{
    let ghost before = steps_view(out@);
    let mut i: usize = 0;
    while i < hs.len()
        invariant
            0 <= i <= hs@.len(),
            steps_view(out@) == before + handlers_steps(hs@.take(i as int), a_name@, a_module, encode_utf8(src@)),
        decreases hs@.len() - i,
    {
        let ghost mid = steps_view(out@);
        let h = &hs[i];
        match &h.name {
            Some(n) => push_step(
                out,
                InventoryStep::Bind {
                    kind: BindingKind::ExceptTarget,
                    name: copy_string(&n.id),
                    range: n.range,
                    name_range: n.range,
                },
            ),
            None => {},
        }
        let ghost named = steps_view(out@);
        collect_block(&h.body, a_name, a_module, src, out);
        proof {
            assert(hs@.take(i + 1).drop_last() =~= hs@.take(i as int));
            assert(hs@.take(i + 1).last() == hs@[i as int]);
            assert(steps_view(out@) =~= before + handlers_steps(hs@.take(i + 1), a_name@, a_module, encode_utf8(src@)));
        }
        i = i + 1;
    }
    proof {
        assert(hs@.take(i as int) =~= hs@);
    }
}


// ----- recording the steps -----

/// A scope the recording is in: the scope, its context, its kind, and the scope that
/// functions defined in it take as lexical parent (a class passes on its own parent).
#[derive(Clone, Copy, Debug, PartialEq, Eq, Structural)]
pub struct Frame {
    pub scope: ScopeId,
    pub context: ContextId,
    pub kind: ScopeKind,
    pub lexical_parent: ScopeId,
}

/// A recorded binding: scope, kind, name, range, name range.
pub type BindingRecord = (ScopeId, BindingKind, Seq<char>, TextRange, TextRange);

/// A recorded scope: kind, qualified name, range, parent scope, parent context.
pub type ScopeRecord = (ScopeKind, Seq<char>, TextRange, ScopeId, ContextId);

/// A recorded definition: kind, name, qualified name, range, name range, reportable,
/// `is_async`, binding, scope.
pub type DefinitionRecord = (DefinitionKind, Seq<char>, Seq<char>, TextRange, TextRange, bool, bool, BindingId, ScopeId);

/// Where the recording stands: the open scopes, and what has been recorded.
pub type Replay = (Seq<Frame>, Seq<BindingRecord>, Seq<ScopeRecord>, Seq<DefinitionRecord>);

pub open spec fn definition_binding_kind(k: DefinitionKind) -> BindingKind {
    match k {
        DefinitionKind::Function => BindingKind::FunctionDefinition,
        DefinitionKind::Class => BindingKind::ClassDefinition,
    }
}

pub open spec fn definition_scope_kind(k: DefinitionKind) -> ScopeKind {
    match k {
        DefinitionKind::Function => ScopeKind::Function,
        DefinitionKind::Class => ScopeKind::Class,
    }
}

pub open spec fn definition_context_kind(k: DefinitionKind) -> ContextKind {
    match k {
        DefinitionKind::Function => ContextKind::FunctionBody,
        DefinitionKind::Class => ContextKind::ClassBody,
    }
}

/// What one step records, given the identifiers the next scope and binding get
/// (`base_scope` and `base_binding` plus what was recorded before).
pub open spec fn replay_step(r: Replay, step: StepView, base_scope: nat, base_binding: nat) -> Replay {
    let top = r.0.last();
    match step {
        StepView::Bind(kind, name, range, name_range) => (r.0, r.1.push((top.scope, kind, name, range, name_range)), r.2, r.3),
        StepView::Enter(kind, name, qualified, range, name_range, is_async, reportable) => {
            let binding = BindingId((base_binding + r.1.len()) as u32);
            let scope = ScopeId((base_scope + r.2.len()) as u32);
            let context = ContextId((base_scope + r.2.len()) as u32);
            let frame = Frame {
                scope,
                context,
                kind: definition_scope_kind(kind),
                lexical_parent: if kind == DefinitionKind::Function {
                    scope
                } else {
                    top.lexical_parent
                },
            };
            (
                r.0.push(frame),
                r.1.push((top.scope, definition_binding_kind(kind), name, range, name_range)),
                r.2.push((definition_scope_kind(kind), qualified, range, top.lexical_parent, top.context)),
                r.3.push((kind, name, qualified, range, name_range, reportable, is_async, binding, scope)),
            )
        },
        StepView::Leave => (if r.0.len() > 1 {
            r.0.drop_last()
        } else {
            r.0
        }, r.1, r.2, r.3),
    }
}

/// The recording of `steps` from the scope `start`.
pub open spec fn replay(steps: Seq<StepView>, start: Frame, base_scope: nat, base_binding: nat) -> Replay
    decreases steps.len(),
{
    if steps.len() == 0 {
        (seq![start], Seq::empty(), Seq::empty(), Seq::empty())
    } else {
        replay_step(replay(steps.drop_last(), start, base_scope, base_binding), steps.last(), base_scope, base_binding)
    }
}

pub open spec fn binding_record(b: BindingFact) -> BindingRecord {
    (b.scope, b.kind, b.name@, b.range, b.name_range)
}

pub open spec fn scope_record(s: ScopeFact, c: ContextFact) -> ScopeRecord {
    (s.kind, s.name@, s.range, s.parent->0, c.parent->0)
}

pub open spec fn definition_record(d: SemanticDefinition) -> DefinitionRecord {
    (d.kind, d.name@, d.qualified_name@, d.range, d.name_range, d.reportable, d.is_async, d.binding, d.scope)
}

/// From position `ob`, `os`, `od` on, the graph holds exactly the bindings, scopes (with their
/// contexts) and definitions that `r` records, all of module `m`; each definition's binding
/// points back to it.
pub open spec fn graph_records(g: SemanticGraph, r: Replay, m: ModuleId, ob: nat, os: nat, od: nat) -> bool {
    &&& g.bindings@.len() == ob + r.1.len()
    &&& g.scopes@.len() == os + r.2.len()
    &&& g.contexts@.len() == os + r.2.len()
    &&& g.definitions@.len() == od + r.3.len()
    &&& forall|j: int| 0 <= j < r.1.len() ==> {
        &&& binding_record(#[trigger] g.bindings@[ob + j]) == r.1[j]
        &&& g.bindings@[ob + j].module == m
        &&& g.bindings@[ob + j].symbol.0 < g.symbols@.len()
        &&& g.symbols@[g.bindings@[ob + j].symbol.0 as int].scope == r.1[j].0
        &&& g.symbols@[g.bindings@[ob + j].symbol.0 as int].name@ == r.1[j].2
        &&& (g.bindings@[ob + j].definition matches Some(d) ==> od <= d.0 < g.definitions@.len()
            && g.definitions@[d.0 as int].binding.0 == ob + j)
    }
    &&& forall|j: int| 0 <= j < r.2.len() ==> {
        &&& scope_record(#[trigger] g.scopes@[os + j], g.contexts@[os + j]) == r.2[j]
        &&& g.scopes@[os + j].parent is Some
        &&& g.contexts@[os + j].parent is Some
        &&& g.scopes@[os + j].module == m
        &&& g.contexts@[os + j].kind == definition_context_kind_of(g.scopes@[os + j].kind)
    }
    &&& forall|j: int| 0 <= j < r.3.len() ==> {
        &&& definition_record(#[trigger] g.definitions@[od + j]) == r.3[j]
        &&& g.definitions@[od + j].module == m
        &&& g.definitions@[od + j].context.0 == g.definitions@[od + j].scope.0
        &&& g.definitions@[od + j].binding.0 < g.bindings@.len()
        &&& g.bindings@[g.definitions@[od + j].binding.0 as int].definition == Some(g.definitions@[od + j].id)
    }
}

/// From position `od` on, each definition's binding points back to it and is a function or
/// class definition binding as the definition is a function or a class, and no other binding
/// of the graph points to it.
pub open spec fn definitions_linked(g: SemanticGraph, od: nat) -> bool {
    forall|j: int|
        od <= j < g.definitions@.len() ==> {
            let d = #[trigger] g.definitions@[j];
            &&& d.binding.0 < g.bindings@.len()
            &&& g.bindings@[d.binding.0 as int].definition == Some(d.id)
            &&& g.bindings@[d.binding.0 as int].kind == definition_binding_kind(d.kind)
            &&& forall|k: int|
                0 <= k < g.bindings@.len() && (#[trigger] g.bindings@[k]).definition == Some(d.id) ==> k
                    == d.binding.0
        }
}

pub open spec fn definition_context_kind_of(k: ScopeKind) -> ContextKind {
    match k {
        ScopeKind::Function => ContextKind::FunctionBody,
        ScopeKind::Class => ContextKind::ClassBody,
        ScopeKind::Lambda => ContextKind::LambdaBody,
        ScopeKind::Comprehension => ContextKind::ComprehensionBody,
        ScopeKind::Module => ContextKind::ModuleBody,
    }
}


proof fn lemma_module_binding_count_bound(bs: Seq<BindingFact>, m: ModuleId)
    ensures
        module_binding_count(bs, m) <= bs.len(),
    decreases bs.len(),
{
    if bs.len() > 0 {
        lemma_module_binding_count_bound(bs.drop_last(), m);
    }
}

/// Records `steps` in the graph, starting in the scope `start` of module `module`: each name
/// bound gets its symbol in the current scope and a binding; each definition also gets a
/// scope and context, whose parents are the current scope's lexical parent and context, and
/// a definition of the module's origin.
#[verifier::rlimit(60)]
pub fn record_steps(
    b: &mut SemanticGraphBuilder,
    module: ModuleId,
    origin_domain: OriginDomain,
    start: Frame,
    steps: &Vec<InventoryStep>,
)
    requires
        old(b).well_formed(),
        old(b).view_graph().scopes@.len() + steps@.len() < u32::MAX,
        old(b).view_graph().symbols@.len() + steps@.len() < u32::MAX,
        old(b).view_graph().bindings@.len() + steps@.len() < u32::MAX,
        old(b).view_graph().definitions@.len() + steps@.len() < u32::MAX,
    ensures
        final(b).well_formed(),
        graph_records(
            final(b).view_graph(),
            replay(
                steps_view(steps@),
                start,
                old(b).view_graph().scopes@.len(),
                old(b).view_graph().bindings@.len(),
            ),
            module,
            old(b).view_graph().bindings@.len(),
            old(b).view_graph().scopes@.len(),
            old(b).view_graph().definitions@.len(),
        ),
        forall|j: int|
            0 <= j < old(b).view_graph().definitions@.len() ==> #[trigger] final(b).view_graph().definitions@[j]
                == old(b).view_graph().definitions@[j],
        forall|j: int|
            0 <= j < old(b).view_graph().scopes@.len() ==> #[trigger] final(b).view_graph().scopes@[j]
                == old(b).view_graph().scopes@[j],
        forall|j: int|
            0 <= j < old(b).view_graph().contexts@.len() ==> #[trigger] final(b).view_graph().contexts@[j]
                == old(b).view_graph().contexts@[j],
        final(b).view_graph().modules == old(b).view_graph().modules,
        forall|j: int|
            0 <= j < old(b).view_graph().bindings@.len() ==> #[trigger] final(b).view_graph().bindings@[j]
                == old(b).view_graph().bindings@[j],
        definitions_linked(final(b).view_graph(), old(b).view_graph().definitions@.len()),
        definitions_linked(old(b).view_graph(), 0) ==> definitions_linked(final(b).view_graph(), 0),
{
    let ghost g0 = b.view_graph();
    let ghost ob = g0.bindings@.len();
    let ghost os = g0.scopes@.len();
    let ghost od = g0.definitions@.len();
    let ghost osym = g0.symbols@.len();
    let ghost sv = steps_view(steps@);
    proof {
        b.lemma_graph_well_formed();
    }
    let mut frames: Vec<Frame> = Vec::new();
    frames.push(start);
    let mut i: usize = 0;
    proof {
        assert(sv.take(0) =~= Seq::<StepView>::empty());
        assert(frames@ =~= seq![start]);
    }
    while i < steps.len()
        invariant
            0 <= i <= steps@.len(),
            sv == steps_view(steps@),
            sv.len() == steps@.len(),
            b.well_formed(),
            ob + steps@.len() < u32::MAX,
            os + steps@.len() < u32::MAX,
            od + steps@.len() < u32::MAX,
            osym + steps@.len() < u32::MAX,
            b.view_graph().symbols@.len() <= osym + i,
            frames@ == replay(sv.take(i as int), start, os, ob).0,
            frames@.len() >= 1,
            replay(sv.take(i as int), start, os, ob).1.len() <= i,
            replay(sv.take(i as int), start, os, ob).2.len() <= i,
            replay(sv.take(i as int), start, os, ob).3.len() <= i,
            graph_records(b.view_graph(), replay(sv.take(i as int), start, os, ob), module, ob, os, od),
            forall|j: int| 0 <= j < od ==> #[trigger] b.view_graph().definitions@[j] == g0.definitions@[j],
            b.view_graph().definitions@.len() >= od,
            forall|j: int| 0 <= j < os ==> #[trigger] b.view_graph().scopes@[j] == g0.scopes@[j],
            forall|j: int| 0 <= j < g0.contexts@.len() ==> #[trigger] b.view_graph().contexts@[j] == g0.contexts@[j],
            g0.contexts@.len() == os,
            b.view_graph().modules == g0.modules,
            forall|j: int| 0 <= j < ob ==> #[trigger] b.view_graph().bindings@[j] == g0.bindings@[j],
        decreases steps@.len() - i,
    {
        let ghost r = replay(sv.take(i as int), start, os, ob);
        let ghost g1 = b.view_graph();
        proof {
            assert(sv.take(i + 1).drop_last() =~= sv.take(i as int));
            assert(sv.take(i + 1).last() == step_view(steps@[i as int]));
            lemma_module_binding_count_bound(g1.bindings@, module);
        }
        let top = frames[frames.len() - 1];
        match &steps[i] {
            InventoryStep::Bind { kind, name, range, name_range } => {
                let symbol = b.symbol(module, top.scope, name.as_str());
                let ghost g2 = b.view_graph();
                proof {
                    assert(symbol.0 < g2.symbols@.len() && g2.symbols@[symbol.0 as int].scope == top.scope
                        && g2.symbols@[symbol.0 as int].name@ == name@);
                    assert forall|k: int| 0 <= k < g1.symbols@.len() implies #[trigger] g2.symbols@[k] == g1.symbols@[k] by {
                        if g2.symbols@.len() > g1.symbols@.len() {
                            assert(g2.symbols@.take(g1.symbols@.len() as int)[k] == g2.symbols@[k]);
                        }
                    }
                }
                let _ = b.add_binding(
                    BindingInput {
                        module,
                        scope: top.scope,
                        symbol,
                        kind: *kind,
                        name: name.clone(),
                        range: *range,
                        name_range: *name_range,
                    },
                );
                proof {
                    let r2 = replay(sv.take(i + 1), start, os, ob);
                    let g3 = b.view_graph();
                    assert(r2 == replay_step(r, sv[i as int], os, ob));
                    assert(g3.bindings@ == g1.bindings@.push(g3.bindings@.last()));
                    assert forall|j: int| 0 <= j < r2.1.len() implies {
                        &&& binding_record(#[trigger] g3.bindings@[ob + j]) == r2.1[j]
                        &&& g3.bindings@[ob + j].module == module
                        &&& g3.bindings@[ob + j].symbol.0 < g3.symbols@.len()
                        &&& g3.symbols@[g3.bindings@[ob + j].symbol.0 as int].scope == r2.1[j].0
                        &&& g3.symbols@[g3.bindings@[ob + j].symbol.0 as int].name@ == r2.1[j].2
                        &&& (g3.bindings@[ob + j].definition matches Some(d) ==> od <= d.0 < g3.definitions@.len()
                            && g3.definitions@[d.0 as int].binding.0 == ob + j)
                    } by {
                        if j < r.1.len() {
                            assert(g3.bindings@[ob + j] == g1.bindings@[ob + j]);
                            assert(g3.symbols@[g1.bindings@[ob + j].symbol.0 as int] == g1.symbols@[g1.bindings@[ob + j].symbol.0 as int]);
                        }
                    }
                    assert forall|j: int| 0 <= j < r2.3.len() implies {
                        &&& definition_record(#[trigger] g3.definitions@[od + j]) == r2.3[j]
                        &&& g3.definitions@[od + j].module == module
                        &&& g3.definitions@[od + j].context.0 == g3.definitions@[od + j].scope.0
                        &&& g3.definitions@[od + j].binding.0 < g3.bindings@.len()
                        &&& g3.bindings@[g3.definitions@[od + j].binding.0 as int].definition == Some(g3.definitions@[od + j].id)
                    } by {
                        assert(g3.definitions@[od + j] == g1.definitions@[od + j]);
                        assert(g1.bindings@[g1.definitions@[od + j].binding.0 as int].definition == Some(g1.definitions@[od + j].id));
                    }
                    assert(graph_records(g3, r2, module, ob, os, od));
                }
            },
            InventoryStep::Enter { kind, name, qualified_name, range, name_range, is_async, reportable } => {
                let (binding_kind, scope_kind, context_kind) = match kind {
                    DefinitionKind::Function => (BindingKind::FunctionDefinition, ScopeKind::Function, ContextKind::FunctionBody),
                    DefinitionKind::Class => (BindingKind::ClassDefinition, ScopeKind::Class, ContextKind::ClassBody),
                };
                let symbol = b.symbol(module, top.scope, name.as_str());
                let ghost g2 = b.view_graph();
                proof {
                    assert(symbol.0 < g2.symbols@.len() && g2.symbols@[symbol.0 as int].scope == top.scope
                        && g2.symbols@[symbol.0 as int].name@ == name@);
                    assert forall|k: int| 0 <= k < g1.symbols@.len() implies #[trigger] g2.symbols@[k] == g1.symbols@[k] by {
                        if g2.symbols@.len() > g1.symbols@.len() {
                            assert(g2.symbols@.take(g1.symbols@.len() as int)[k] == g2.symbols@[k]);
                        }
                    }
                }
                let binding = b.add_binding(
                    BindingInput {
                        module,
                        scope: top.scope,
                        symbol,
                        kind: binding_kind,
                        name: name.clone(),
                        range: *range,
                        name_range: *name_range,
                    },
                );
                let ghost g3 = b.view_graph();
                let (scope, context) = b.add_scope_with_context(
                    ScopeContextInput {
                        module,
                        scope_kind,
                        context_kind,
                        parent_scope: Some(top.lexical_parent),
                        parent_context: Some(top.context),
                        owner_definition: None,
                        name: qualified_name.clone(),
                        range: *range,
                    },
                );
                let ghost g4 = b.view_graph();
                let _ = b.add_definition(
                    DefinitionInput {
                        module,
                        binding,
                        scope,
                        context,
                        kind: *kind,
                        name: name.clone(),
                        qualified_name: qualified_name.clone(),
                        range: *range,
                        name_range: *name_range,
                        reportable: *reportable,
                        is_async: *is_async,
                        origin_domain,
                    },
                );
                let lexical_parent = match kind {
                    DefinitionKind::Function => scope,
                    DefinitionKind::Class => top.lexical_parent,
                };
                frames.push(Frame { scope, context, kind: scope_kind, lexical_parent });
                proof {
                    let r2 = replay(sv.take(i + 1), start, os, ob);
                    let g5 = b.view_graph();
                    assert(r2 == replay_step(r, sv[i as int], os, ob));
                    assert(frames@ =~= r2.0);
                    assert forall|j: int| 0 <= j < r2.1.len() implies {
                        &&& binding_record(#[trigger] g5.bindings@[ob + j]) == r2.1[j]
                        &&& g5.bindings@[ob + j].module == module
                        &&& g5.bindings@[ob + j].symbol.0 < g5.symbols@.len()
                        &&& g5.symbols@[g5.bindings@[ob + j].symbol.0 as int].scope == r2.1[j].0
                        &&& g5.symbols@[g5.bindings@[ob + j].symbol.0 as int].name@ == r2.1[j].2
                        &&& (g5.bindings@[ob + j].definition matches Some(d) ==> od <= d.0 < g5.definitions@.len()
                            && g5.definitions@[d.0 as int].binding.0 == ob + j)
                    } by {
                        if j < r.1.len() {
                            assert(g5.bindings@[ob + j] == g1.bindings@[ob + j]);
                            assert(g5.symbols@[g1.bindings@[ob + j].symbol.0 as int] == g1.symbols@[g1.bindings@[ob + j].symbol.0 as int]);
                        }
                    }
                    assert forall|j: int| 0 <= j < r2.2.len() implies {
                        &&& scope_record(#[trigger] g5.scopes@[os + j], g5.contexts@[os + j]) == r2.2[j]
                        &&& g5.scopes@[os + j].parent is Some
                        &&& g5.contexts@[os + j].parent is Some
                        &&& g5.scopes@[os + j].module == module
                        &&& g5.contexts@[os + j].kind == definition_context_kind_of(g5.scopes@[os + j].kind)
                    } by {
                        if j < r.2.len() {
                            assert(g5.scopes@[os + j] == g1.scopes@[os + j]);
                            assert(g5.contexts@[os + j] == g1.contexts@[os + j]);
                        }
                    }
                    assert forall|j: int| 0 <= j < r2.3.len() implies {
                        &&& definition_record(#[trigger] g5.definitions@[od + j]) == r2.3[j]
                        &&& g5.definitions@[od + j].module == module
                        &&& g5.definitions@[od + j].context.0 == g5.definitions@[od + j].scope.0
                        &&& g5.definitions@[od + j].binding.0 < g5.bindings@.len()
                        &&& g5.bindings@[g5.definitions@[od + j].binding.0 as int].definition == Some(g5.definitions@[od + j].id)
                    } by {
                        if j < r.3.len() {
                            assert(g5.definitions@[od + j] == g1.definitions@[od + j]);
                            assert(g1.bindings@[g1.definitions@[od + j].binding.0 as int].definition == Some(g1.definitions@[od + j].id));
                            assert(g5.bindings@[g1.definitions@[od + j].binding.0 as int] == g1.bindings@[g1.definitions@[od + j].binding.0 as int]);
                        }
                    }
                    assert(graph_records(g5, r2, module, ob, os, od));
                }
            },
            InventoryStep::Leave => {
                if frames.len() > 1 {
                    frames.pop();
                }
                proof {
                    let r2 = replay(sv.take(i + 1), start, os, ob);
                    assert(r2 == replay_step(r, sv[i as int], os, ob));
                    assert(frames@ =~= r2.0);
                }
            },
        }
        i = i + 1;
    }
    proof {
        assert(sv.take(i as int) =~= sv);
        b.lemma_graph_well_formed();
        lemma_definitions_linked(g0, b.view_graph(), sv, start, module);
    }
}

proof fn lemma_definitions_linked(g0: SemanticGraph, g: SemanticGraph, steps: Seq<StepView>, start: Frame, m: ModuleId)
    requires
        graph_well_formed(g0),
        graph_well_formed(g),
        g.bindings@.len() >= g0.bindings@.len(),
        forall|j: int| 0 <= j < g0.bindings@.len() ==> #[trigger] g.bindings@[j] == g0.bindings@[j],
        g0.bindings@.len() + steps.len() < u32::MAX,
        graph_records(
            g,
            replay(steps, start, g0.scopes@.len(), g0.bindings@.len()),
            m,
            g0.bindings@.len(),
            g0.scopes@.len(),
            g0.definitions@.len(),
        ),
        g.definitions@.len() >= g0.definitions@.len(),
        forall|j: int| 0 <= j < g0.definitions@.len() ==> #[trigger] g.definitions@[j] == g0.definitions@[j],
    ensures
        definitions_linked(g, g0.definitions@.len()),
        definitions_linked(g0, 0) ==> definitions_linked(g, 0),
{
    let ob = g0.bindings@.len();
    let os = g0.scopes@.len();
    let od = g0.definitions@.len();
    let r = replay(steps, start, os, ob);
    lemma_definitions_attach_to_definition_bindings(steps, start, os, ob);
    lemma_replay_lengths(steps, start, os, ob);
    assert forall|j: int| od <= j < g.definitions@.len() implies {
        let d = #[trigger] g.definitions@[j];
        &&& d.binding.0 < g.bindings@.len()
        &&& g.bindings@[d.binding.0 as int].definition == Some(d.id)
        &&& g.bindings@[d.binding.0 as int].kind == definition_binding_kind(d.kind)
        &&& forall|k: int|
            0 <= k < g.bindings@.len() && (#[trigger] g.bindings@[k]).definition == Some(d.id) ==> k == d.binding.0
    } by {
        let t = j - od;
        let d = g.definitions@[j];
        assert(definition_record(g.definitions@[od + t]) == r.3[t]);
        assert(attached_to_definition_binding(r, ob, t));
        let mm = choose|mm: int|
            0 <= mm < r.1.len() && r.3[t].7 == BindingId((ob + mm) as u32) && (#[trigger] r.1[mm]).1
                == definition_binding_kind(r.3[t].0) && r.1[mm].2 == r.3[t].1;
        assert(binding_record(g.bindings@[ob + mm]) == r.1[mm]);
        assert(d.binding.0 == ob + mm);
        assert(d.id.0 == j);
        assert forall|k: int|
            0 <= k < g.bindings@.len() && (#[trigger] g.bindings@[k]).definition == Some(d.id) implies k
                == d.binding.0 by {
            if k < ob {
                assert(g.bindings@[k] == g0.bindings@[k]);
                assert(g0.bindings@[k].definition matches Some(x) && x.0 < od);
            } else {
                let u = k - ob;
                assert(g.bindings@[ob + u].definition matches Some(x) ==> od <= x.0 < g.definitions@.len()
                    && g.definitions@[x.0 as int].binding.0 == ob + u);
            }
        }
    }
    if definitions_linked(g0, 0) {
        assert forall|j: int| 0 <= j < g.definitions@.len() implies {
            let d = #[trigger] g.definitions@[j];
            &&& d.binding.0 < g.bindings@.len()
            &&& g.bindings@[d.binding.0 as int].definition == Some(d.id)
            &&& g.bindings@[d.binding.0 as int].kind == definition_binding_kind(d.kind)
            &&& forall|k: int|
                0 <= k < g.bindings@.len() && (#[trigger] g.bindings@[k]).definition == Some(d.id) ==> k == d.binding.0
        } by {
            if j < od {
                let d = g.definitions@[j];
                assert(d == g0.definitions@[j]);
                assert(d.binding.0 < g0.bindings@.len());
                assert(g.bindings@[d.binding.0 as int] == g0.bindings@[d.binding.0 as int]);
                assert(d.id.0 == j) by {
                    assert(g.definitions@[j].id.0 == j);
                }
                assert forall|k: int|
                    0 <= k < g.bindings@.len() && (#[trigger] g.bindings@[k]).definition == Some(d.id) implies k
                        == d.binding.0 by {
                    if k < ob {
                        assert(g.bindings@[k] == g0.bindings@[k]);
                        assert(g0.bindings@[k].definition == Some(g0.definitions@[j].id));
                    } else {
                        let u = k - ob;
                        assert(g.bindings@[ob + u].definition matches Some(x) ==> od <= x.0 < g.definitions@.len()
                            && g.definitions@[x.0 as int].binding.0 == ob + u);
                    }
                }
            } else {
                assert(od <= j);
            }
        }
    }
}

proof fn lemma_replay_lengths(steps: Seq<StepView>, start: Frame, base_scope: nat, base_binding: nat)
    ensures
        replay(steps, start, base_scope, base_binding).1.len() <= steps.len(),
    decreases steps.len(),
{
    if steps.len() > 0 {
        lemma_replay_lengths(steps.drop_last(), start, base_scope, base_binding);
    }
}


// ----- a module -----

/// `s` is `from __future__ import annotations` (possibly among other names).
pub open spec fn future_annotations_import(s: StmtSyntax) -> bool {
    match s {
        StmtSyntax::ImportFrom { module, level, names } => {
            &&& level == 0
            &&& (module matches Some(m) && m@ == "__future__"@)
            &&& exists|k: int| 0 <= k < names@.len() && #[trigger] names@[k].name@ == "annotations"@
        },
        _ => false,
    }
}

fn names_include(names: &Vec<AliasSyntax>, wanted: &str) -> (yes: bool)
    ensures
        yes == exists|k: int| 0 <= k < names@.len() && #[trigger] names@[k].name@ == wanted@,
{
    let mut k: usize = 0;
    while k < names.len()
        invariant
            0 <= k <= names@.len(),
            forall|j: int| 0 <= j < k ==> (#[trigger] names@[j]).name@ != wanted@,
        decreases names@.len() - k,
    {
        if str_eq(names[k].name.as_str(), wanted) {
            return true;
        }
        k = k + 1;
    }
    false
}

/// Whether a top-level statement imports `annotations` from `__future__`.
pub fn has_future_annotations_import(statements: &Vec<StmtSyntax>) -> (yes: bool)
    ensures
        yes == exists|k: int| 0 <= k < statements@.len() && future_annotations_import(#[trigger] statements@[k]),
{
    let mut k: usize = 0;
    while k < statements.len()
        invariant
            0 <= k <= statements@.len(),
            forall|j: int| 0 <= j < k ==> !future_annotations_import(#[trigger] statements@[j]),
        decreases statements@.len() - k,
    {
        match &statements[k] {
            StmtSyntax::ImportFrom { module: Some(m), level, names } => {
                if *level == 0 && str_eq(m.as_str(), "__future__") && names_include(names, "annotations") {
                    return true;
                }
            },
            _ => {},
        }
        k = k + 1;
    }
    false
}

/// The steps of a module's top-level statements, walked in the module's scope.
pub fn module_steps(module_name: &str, source: &str, statements: &Vec<StmtSyntax>) -> (steps: Vec<InventoryStep>)
    ensures
        steps_view(steps@) == block_steps(statements@, module_name@, true, encode_utf8(source@)),
{
    let mut steps: Vec<InventoryStep> = Vec::new();
    proof {
        assert(steps_view(steps@) =~= Seq::<StepView>::empty());
    }
    collect_block(statements, module_name, true, source, &mut steps);
    proof {
        assert(Seq::<StepView>::empty() + block_steps(statements@, module_name@, true, encode_utf8(source@))
            =~= block_steps(statements@, module_name@, true, encode_utf8(source@)));
    }
    steps
}

/// Records a module: its scope and body context, the module itself, and the bindings,
/// scopes and definitions of `steps` (the steps of its statements) inside that scope.
pub fn record_module_bindings(
    b: &mut SemanticGraphBuilder,
    input: ParseInput,
    module_range: TextRange,
    future_annotations: bool,
    origin_domain: OriginDomain,
    origin_evidence: OriginEvidence,
    steps: &Vec<InventoryStep>,
)
    requires
        old(b).well_formed(),
        old(b).view_graph().scopes@.len() + 1 + steps@.len() < u32::MAX,
        old(b).view_graph().symbols@.len() + steps@.len() < u32::MAX,
        old(b).view_graph().bindings@.len() + steps@.len() < u32::MAX,
        old(b).view_graph().definitions@.len() + steps@.len() < u32::MAX,
    ensures
        final(b).well_formed(),
        ({
            let g0 = old(b).view_graph();
            let g = final(b).view_graph();
            let os = g0.scopes@.len();
            let start = Frame {
                scope: ScopeId(os as u32),
                context: ContextId(os as u32),
                kind: ScopeKind::Module,
                lexical_parent: ScopeId(os as u32),
            };
            &&& g.modules@ == g0.modules@.push(
                SemanticModule {
                    id: input.module_id,
                    file: input.file_id,
                    name: g.modules@.last().name,
                    path: g.modules@.last().path,
                    future_annotations,
                    origin_domain,
                    origin_evidence,
                    scope: ScopeId(os as u32),
                    context: ContextId(os as u32),
                },
            )
            &&& g.modules@.last().name@ == input.module_name@
            &&& g.modules@.last().path@ == input.display_path@
            &&& g.scopes@[os as int].kind == ScopeKind::Module
            &&& g.scopes@[os as int].name@ == input.module_name@
            &&& g.scopes@[os as int].range == module_range
            &&& g.scopes@[os as int].parent is None
            &&& g.scopes@[os as int].module == input.module_id
            &&& g.contexts@[os as int].kind == ContextKind::ModuleBody
            &&& g.contexts@[os as int].parent is None
            &&& graph_records(
                g,
                replay(steps_view(steps@), start, os + 1, g0.bindings@.len()),
                input.module_id,
                g0.bindings@.len(),
                os + 1,
                g0.definitions@.len(),
            )
        }),
        definitions_linked(final(b).view_graph(), old(b).view_graph().definitions@.len()),
        definitions_linked(old(b).view_graph(), 0) ==> definitions_linked(final(b).view_graph(), 0),
{
    let (scope, context) = b.add_scope_with_context(
        ScopeContextInput {
            module: input.module_id,
            scope_kind: ScopeKind::Module,
            context_kind: ContextKind::ModuleBody,
            parent_scope: None,
            parent_context: None,
            owner_definition: None,
            name: <String as StringExecFns>::from_str(input.module_name),
            range: module_range,
        },
    );
    let ghost g1 = b.view_graph();
    b.add_module(
        SemanticModule {
            id: input.module_id,
            file: input.file_id,
            name: <String as StringExecFns>::from_str(input.module_name),
            path: <String as StringExecFns>::from_str(input.display_path),
            future_annotations,
            origin_domain,
            origin_evidence,
            scope,
            context,
        },
    );
    let ghost g2 = b.view_graph();
    record_steps(
        b,
        input.module_id,
        origin_domain,
        Frame { scope, context, kind: ScopeKind::Module, lexical_parent: scope },
        steps,
    );
    proof {
        let g = b.view_graph();
        assert(g.scopes@[scope.0 as int] == g1.scopes@[scope.0 as int]);
        assert(g.contexts@[scope.0 as int] == g1.contexts@[scope.0 as int]);
    }
}


/// Collects the binding inventory of a module: its scope and context, the module, and the
/// bindings, scopes and definitions of its statements.
pub fn collect_module_bindings(
    b: &mut SemanticGraphBuilder,
    input: ParseInput,
    module_range: TextRange,
    statements: &Vec<StmtSyntax>,
    origin_domain: OriginDomain,
    origin_evidence: OriginEvidence,
)
    requires
        old(b).well_formed(),
        ({
            let n = block_steps(statements@, input.module_name@, true, encode_utf8(input.source.text@)).len();
            &&& old(b).view_graph().scopes@.len() + 1 + n < u32::MAX
            &&& old(b).view_graph().symbols@.len() + n < u32::MAX
            &&& old(b).view_graph().bindings@.len() + n < u32::MAX
            &&& old(b).view_graph().definitions@.len() + n < u32::MAX
        }),
    ensures
        final(b).well_formed(),
        ({
            let g0 = old(b).view_graph();
            let g = final(b).view_graph();
            let os = g0.scopes@.len();
            let start = Frame {
                scope: ScopeId(os as u32),
                context: ContextId(os as u32),
                kind: ScopeKind::Module,
                lexical_parent: ScopeId(os as u32),
            };
            &&& g.modules@.len() == g0.modules@.len() + 1
            &&& g.modules@.last().id == input.module_id
            &&& g.modules@.last().name@ == input.module_name@
            &&& g.modules@.last().future_annotations == exists|k: int|
                0 <= k < statements@.len() && future_annotations_import(#[trigger] statements@[k])
            &&& g.modules@.last().scope == ScopeId(os as u32)
            &&& g.scopes@[os as int].kind == ScopeKind::Module
            &&& g.scopes@[os as int].name@ == input.module_name@
            &&& g.scopes@[os as int].parent is None
            &&& graph_records(
                g,
                replay(
                    block_steps(statements@, input.module_name@, true, encode_utf8(input.source.text@)),
                    start,
                    os + 1,
                    g0.bindings@.len(),
                ),
                input.module_id,
                g0.bindings@.len(),
                os + 1,
                g0.definitions@.len(),
            )
        }),
        definitions_linked(final(b).view_graph(), old(b).view_graph().definitions@.len()),
        definitions_linked(old(b).view_graph(), 0) ==> definitions_linked(final(b).view_graph(), 0),
{
    let steps = module_steps(input.module_name, input.source.text.as_str(), statements);
    proof {
        assert(steps@.len() == steps_view(steps@).len());
    }
    let future = has_future_annotations_import(statements);
    record_module_bindings(b, input, module_range, future, origin_domain, origin_evidence, &steps);
}

// ----- laws of the inventory -----

/// `s` is the starting scope or the scope of a function recorded in `r`.
pub open spec fn function_or_start(r: Replay, start: Frame, base_scope: nat, s: ScopeId) -> bool {
    ||| s == start.scope
    ||| exists|k: int| 0 <= k < r.2.len() && (#[trigger] r.2[k]).0 == ScopeKind::Function && s == ScopeId((base_scope + k) as u32)
}

proof fn lemma_parents_invariant(steps: Seq<StepView>, start: Frame, base_scope: nat, base_binding: nat)
    requires
        start.lexical_parent == start.scope,
    ensures
        ({
            let r = replay(steps, start, base_scope, base_binding);
            &&& r.0.len() >= 1
            &&& forall|i: int| 0 <= i < r.0.len() ==> function_or_start(r, start, base_scope, (#[trigger] r.0[i]).lexical_parent)
            &&& forall|j: int| 0 <= j < r.2.len() ==> function_or_start(r, start, base_scope, (#[trigger] r.2[j]).3)
        }),
    decreases steps.len(),
{
    if steps.len() > 0 {
        let prev = replay(steps.drop_last(), start, base_scope, base_binding);
        lemma_parents_invariant(steps.drop_last(), start, base_scope, base_binding);
        let r = replay(steps, start, base_scope, base_binding);
        assert(r == replay_step(prev, steps.last(), base_scope, base_binding));
        assert forall|x: ScopeId| function_or_start(prev, start, base_scope, x) implies function_or_start(r, start, base_scope, x) by {
            if x != start.scope {
                let k = choose|k: int| 0 <= k < prev.2.len() && (#[trigger] prev.2[k]).0 == ScopeKind::Function && x == ScopeId((base_scope + k) as u32);
                assert(r.2[k] == prev.2[k]);
            }
        }
        let top = prev.0.last();
        assert(function_or_start(prev, start, base_scope, top.lexical_parent));
        match steps.last() {
            StepView::Enter(kind, name, qualified, range, name_range, is_async, reportable) => {
                let k = prev.2.len() as int;
                if kind == DefinitionKind::Function {
                    assert(r.2[k].0 == ScopeKind::Function);
                    assert(function_or_start(r, start, base_scope, ScopeId((base_scope + k) as u32)));
                }
                assert forall|i: int| 0 <= i < r.0.len() implies function_or_start(r, start, base_scope, (#[trigger] r.0[i]).lexical_parent) by {
                    if i < prev.0.len() {
                        assert(r.0[i] == prev.0[i]);
                    }
                }
                assert forall|j: int| 0 <= j < r.2.len() implies function_or_start(r, start, base_scope, (#[trigger] r.2[j]).3) by {
                    if j < prev.2.len() {
                        assert(r.2[j] == prev.2[j]);
                    }
                }
            },
            StepView::Bind(..) => {
                assert forall|i: int| 0 <= i < r.0.len() implies function_or_start(r, start, base_scope, (#[trigger] r.0[i]).lexical_parent) by {
                    assert(r.0[i] == prev.0[i]);
                }
                assert forall|j: int| 0 <= j < r.2.len() implies function_or_start(r, start, base_scope, (#[trigger] r.2[j]).3) by {
                    assert(r.2[j] == prev.2[j]);
                }
            },
            StepView::Leave => {
                assert forall|i: int| 0 <= i < r.0.len() implies function_or_start(r, start, base_scope, (#[trigger] r.0[i]).lexical_parent) by {
                    assert(r.0[i] == prev.0[i]);
                }
                assert forall|j: int| 0 <= j < r.2.len() implies function_or_start(r, start, base_scope, (#[trigger] r.2[j]).3) by {
                    assert(r.2[j] == prev.2[j]);
                }
            },
        }
    }
}

/// Class scopes are not lexical parents: recording the steps of a module, every scope's
/// parent is the module's scope or a function's scope, never a class's (a method's scope
/// has the class's enclosing function or module scope as parent).
pub proof fn lemma_scope_parents_are_functions_or_module(
    steps: Seq<StepView>,
    start: Frame,
    base_scope: nat,
    base_binding: nat,
    j: int,
)
    requires
        start.lexical_parent == start.scope,
        0 <= j < replay(steps, start, base_scope, base_binding).2.len(),
    ensures
        function_or_start(replay(steps, start, base_scope, base_binding), start, base_scope, replay(steps, start, base_scope, base_binding).2[j].3),
{
    lemma_parents_invariant(steps, start, base_scope, base_binding);
}


/// Definition `j` of `r` is attached to a binding of `r` of its own name whose kind is the
/// definition binding of its kind.
pub open spec fn attached_to_definition_binding(r: Replay, base_binding: nat, j: int) -> bool {
    exists|m: int|
        0 <= m < r.1.len() && r.3[j].7 == BindingId((base_binding + m) as u32) && (#[trigger] r.1[m]).1
            == definition_binding_kind(r.3[j].0) && r.1[m].2 == r.3[j].1
}

/// Every definition the recording makes is attached to a binding of its own name, of kind
/// function definition or class definition as the definition is a function or a class.
pub proof fn lemma_definitions_attach_to_definition_bindings(
    steps: Seq<StepView>,
    start: Frame,
    base_scope: nat,
    base_binding: nat,
)
    ensures
        forall|j: int|
            0 <= j < replay(steps, start, base_scope, base_binding).3.len() ==> attached_to_definition_binding(
                #[trigger] replay(steps, start, base_scope, base_binding),
                base_binding,
                j,
            ),
    decreases steps.len(),
{
    if steps.len() > 0 {
        let prev = replay(steps.drop_last(), start, base_scope, base_binding);
        lemma_definitions_attach_to_definition_bindings(steps.drop_last(), start, base_scope, base_binding);
        let r = replay(steps, start, base_scope, base_binding);
        assert(r == replay_step(prev, steps.last(), base_scope, base_binding));
        assert forall|j: int| 0 <= j < r.3.len() implies attached_to_definition_binding(r, base_binding, j) by {
            if j < prev.3.len() {
                assert(attached_to_definition_binding(prev, base_binding, j));
                let m = choose|m: int|
                    0 <= m < prev.1.len() && prev.3[j].7 == BindingId((base_binding + m) as u32) && (#[trigger] prev.1[m]).1
                        == definition_binding_kind(prev.3[j].0) && prev.1[m].2 == prev.3[j].1;
                assert(r.1[m] == prev.1[m]);
                assert(r.3[j] == prev.3[j]);
            } else {
                let m = prev.1.len() as int;
                assert(r.1[m].1 == definition_binding_kind(r.3[j].0));
            }
        }
    }
}


/// Each function or class definition gets exactly one scope (and its context, which has the
/// same identifier), of the definition's kind: the recording holds one scope per definition,
/// in the same order, and definition `j` owns the `j`-th recorded scope.
pub proof fn lemma_one_scope_per_definition(steps: Seq<StepView>, start: Frame, base_scope: nat, base_binding: nat)
    ensures
        ({
            let r = replay(steps, start, base_scope, base_binding);
            &&& r.2.len() == r.3.len()
            &&& forall|j: int|
                0 <= j < r.3.len() ==> (#[trigger] r.3[j]).8 == ScopeId((base_scope + j) as u32) && r.2[j].0
                    == definition_scope_kind(r.3[j].0) && r.2[j].1 == r.3[j].2
        }),
    decreases steps.len(),
{
    if steps.len() > 0 {
        let prev = replay(steps.drop_last(), start, base_scope, base_binding);
        lemma_one_scope_per_definition(steps.drop_last(), start, base_scope, base_binding);
        let r = replay(steps, start, base_scope, base_binding);
        assert(r == replay_step(prev, steps.last(), base_scope, base_binding));
        assert forall|j: int| 0 <= j < r.3.len() implies (#[trigger] r.3[j]).8 == ScopeId((base_scope + j) as u32)
            && r.2[j].0 == definition_scope_kind(r.3[j].0) && r.2[j].1 == r.3[j].2 by {
            if j < prev.3.len() {
                assert(r.3[j] == prev.3[j]);
                assert(r.2[j] == prev.2[j]);
            }
        }
    }
}

} // verus!
