//! The facts of one module that flow analysis looks up: its contexts, scopes, symbols,
//! bindings, references and definitions, taken from a semantic graph.
use vstd::prelude::*;

use crate::builder::{arena_ids_match, graph_well_formed, scopes_paired_with_contexts};
use crate::ids::{BindingId, ContextId, ModuleId, ReferenceId, ScopeId, SymbolId};
use crate::ir::DefinitionKind;
use crate::semantic::{
    BindingFact, BindingKind, ContextFact, ContextKind, LookupSemantics, ReferenceFact,
    ReferencePhase, ReferenceRole, Resolution, ScopeFact, ScopeKind, SemanticDefinition,
    SemanticGraph, SymbolFact,
};
use crate::source::TextRange;
use crate::text::str_eq;

verus! {

/// A context of the module: the scope it executes and its kind.
#[derive(Clone, Copy, Debug, PartialEq, Eq, Structural)]
pub struct ContextInfo {
    pub context: ContextId,
    pub scope: ScopeId,
    pub kind: ContextKind,
}

/// A scope of the module, with the kind of the context it executes in.
#[derive(Clone, Copy, Debug, PartialEq, Eq, Structural)]
pub struct ScopeInfo {
    pub scope: ScopeId,
    pub kind: ScopeKind,
    pub range: TextRange,
    pub context: ContextId,
    pub context_kind: ContextKind,
}

/// A symbol of the module and the scope that owns it.
#[derive(Clone, Copy, Debug, PartialEq, Eq, Structural)]
pub struct SymbolInfo {
    pub symbol: SymbolId,
    pub scope: ScopeId,
}

/// A binding of the module.
#[derive(Clone, Copy, Debug, PartialEq, Eq, Structural)]
pub struct BindingInfo {
    pub binding: BindingId,
    pub symbol: SymbolId,
    pub kind: BindingKind,
    pub scope: ScopeId,
    pub name_range: TextRange,
}

/// A reference of the module, as flow analysis reads it.
#[derive(Clone, Debug, PartialEq, Eq)]
pub struct ReferenceInfo {
    pub reference: ReferenceId,
    pub lexical_target: Resolution,
    pub lookup: LookupSemantics,
    pub phase: ReferencePhase,
    pub role: ReferenceRole,
    pub span: TextRange,
    pub source_context: ContextId,
    pub source_spelling: String,
}

/// Where a definition of the module lives and the binding it creates.
#[derive(Clone, Copy, Debug, PartialEq, Eq, Structural)]
pub struct DefinitionInfo {
    pub scope: ScopeId,
    pub context: ContextId,
    pub binding: BindingId,
}

/// A definition of the module under its name range and kind.
#[derive(Clone, Copy, Debug, PartialEq, Eq, Structural)]
pub struct DefinitionEntry {
    pub name_range: TextRange,
    pub kind: DefinitionKind,
    pub info: DefinitionInfo,
}

/// The facts of one module, each list in the graph's order (which is identifier order).
#[derive(Clone, Debug)]
pub struct FlowFacts {
    pub module_context: Option<ContextId>,
    pub module_scope: Option<ScopeId>,
    pub contexts: Vec<ContextInfo>,
    pub scopes: Vec<ScopeInfo>,
    pub symbols: Vec<SymbolInfo>,
    pub bindings: Vec<BindingInfo>,
    pub references: Vec<ReferenceInfo>,
    pub definitions: Vec<DefinitionEntry>,
}

// ----- what the facts of a module are -----

pub open spec fn context_info(m: ModuleId) -> spec_fn(ContextFact) -> Option<ContextInfo> {
    |c: ContextFact|
        if c.module == m {
            Some(ContextInfo { context: c.id, scope: c.scope, kind: c.kind })
        } else {
            None
        }
}

pub open spec fn scope_info(g: SemanticGraph, m: ModuleId) -> spec_fn(ScopeFact) -> Option<ScopeInfo> {
    |s: ScopeFact|
        if s.module == m {
            Some(
                ScopeInfo {
                    scope: s.id,
                    kind: s.kind,
                    range: s.range,
                    context: s.context,
                    context_kind: g.contexts@[s.context.0 as int].kind,
                },
            )
        } else {
            None
        }
}

pub open spec fn symbol_info(m: ModuleId) -> spec_fn(SymbolFact) -> Option<SymbolInfo> {
    |s: SymbolFact|
        if s.module == m {
            Some(SymbolInfo { symbol: s.id, scope: s.scope })
        } else {
            None
        }
}

pub open spec fn binding_info(m: ModuleId) -> spec_fn(BindingFact) -> Option<BindingInfo> {
    |b: BindingFact|
        if b.module == m {
            Some(
                BindingInfo {
                    binding: b.id,
                    symbol: b.symbol,
                    kind: b.kind,
                    scope: b.scope,
                    name_range: b.name_range,
                },
            )
        } else {
            None
        }
}

/// The references of module `m`, in the graph's order.
pub open spec fn module_reference(m: ModuleId) -> spec_fn(ReferenceFact) -> Option<ReferenceFact> {
    |r: ReferenceFact|
        if r.module == m {
            Some(r)
        } else {
            None
        }
}

/// Two resolutions name the same symbols.
pub open spec fn same_resolution(a: Resolution, b: Resolution) -> bool {
    match (a, b) {
        (Resolution::Ambiguous(x), Resolution::Ambiguous(y)) => x@ == y@,
        _ => a == b,
    }
}

/// `info` is what flow analysis reads of reference `r`.
pub open spec fn reference_read(info: ReferenceInfo, r: ReferenceFact) -> bool {
    &&& info.reference == r.id
    &&& same_resolution(info.lexical_target, r.lexical_target)
    &&& info.lookup == r.lookup
    &&& info.phase == r.phase
    &&& info.role == r.role
    &&& info.span == r.span
    &&& info.source_context == r.source_context
    &&& info.source_spelling@ == r.source_spelling@
}

/// `infos` reads, one for one and in order, the references `refs`.
pub open spec fn references_read(infos: Seq<ReferenceInfo>, refs: Seq<ReferenceFact>) -> bool {
    &&& infos.len() == refs.len()
    &&& forall|i: int| 0 <= i < infos.len() ==> reference_read(#[trigger] infos[i], refs[i])
}

pub open spec fn definition_entry(m: ModuleId) -> spec_fn(SemanticDefinition) -> Option<DefinitionEntry> {
    |d: SemanticDefinition|
        if d.module == m {
            Some(
                DefinitionEntry {
                    name_range: d.name_range,
                    kind: d.kind,
                    info: DefinitionInfo { scope: d.scope, context: d.context, binding: d.binding },
                },
            )
        } else {
            None
        }
}

/// `k` is the last position of `s` where `p` holds.
pub open spec fn is_last_match<A>(s: Seq<A>, p: spec_fn(A) -> bool, k: int) -> bool {
    &&& 0 <= k < s.len()
    &&& p(s[k])
    &&& forall|j: int| k < j < s.len() ==> !p(#[trigger] s[j])
}

/// `k` is the first position of `s` where `p` holds.
pub open spec fn is_first_match<A>(s: Seq<A>, p: spec_fn(A) -> bool, k: int) -> bool {
    &&& 0 <= k < s.len()
    &&& p(s[k])
    &&& forall|j: int| 0 <= j < k ==> !p(#[trigger] s[j])
}

/// The value at the last position where `p` holds, mapped by `f`; `None` when `p` holds
/// nowhere. A later entry under the same key replaces an earlier one.
pub open spec fn last_value<A, B>(s: Seq<A>, p: spec_fn(A) -> bool, f: spec_fn(A) -> B) -> Option<B> {
    if exists|k: int| is_last_match(s, p, k) {
        Some(f(s[choose|k: int| is_last_match(s, p, k)]))
    } else {
        None
    }
}

/// The module's body context: the last `ModuleBody` context of the module.
pub open spec fn module_context_of(g: SemanticGraph, m: ModuleId) -> Option<ContextId> {
    last_value(
        g.contexts@,
        |c: ContextFact| c.module == m && c.kind == ContextKind::ModuleBody,
        |c: ContextFact| c.id,
    )
}

/// The module's scope: the last `Module` scope of the module.
pub open spec fn module_scope_of(g: SemanticGraph, m: ModuleId) -> Option<ScopeId> {
    last_value(
        g.scopes@,
        |s: ScopeFact| s.module == m && s.kind == ScopeKind::Module,
        |s: ScopeFact| s.id,
    )
}

/// `f` holds exactly the facts of module `m` of `g`.
pub open spec fn facts_of(g: SemanticGraph, m: ModuleId, f: FlowFacts) -> bool {
    &&& f.module_context == module_context_of(g, m)
    &&& f.module_scope == module_scope_of(g, m)
    &&& f.contexts@ == g.contexts@.filter_map(context_info(m))
    &&& f.scopes@ == g.scopes@.filter_map(scope_info(g, m))
    &&& f.symbols@ == g.symbols@.filter_map(symbol_info(m))
    &&& f.bindings@ == g.bindings@.filter_map(binding_info(m))
    &&& references_read(f.references@, g.references@.filter_map(module_reference(m)))
    &&& f.definitions@ == g.definitions@.filter_map(definition_entry(m))
}

/// Each list of the facts is in strictly increasing identifier order.
pub open spec fn facts_ordered(f: FlowFacts) -> bool {
    &&& forall|i: int, j: int|
        0 <= i < j < f.contexts@.len() ==> (#[trigger] f.contexts@[i]).context.0 < (#[trigger] f.contexts@[j]).context.0
    &&& forall|i: int, j: int|
        0 <= i < j < f.scopes@.len() ==> (#[trigger] f.scopes@[i]).scope.0 < (#[trigger] f.scopes@[j]).scope.0
    &&& forall|i: int, j: int|
        0 <= i < j < f.symbols@.len() ==> (#[trigger] f.symbols@[i]).symbol.0 < (#[trigger] f.symbols@[j]).symbol.0
    &&& forall|i: int, j: int|
        0 <= i < j < f.bindings@.len() ==> (#[trigger] f.bindings@[i]).binding.0 < (#[trigger] f.bindings@[j]).binding.0
    &&& forall|i: int, j: int|
        0 <= i < j < f.references@.len() ==> (#[trigger] f.references@[i]).reference.0
            < (#[trigger] f.references@[j]).reference.0
}

/// An exact copy of a lexical resolution.
fn copy_resolution(r: &Resolution) -> (c: Resolution)
    ensures
        same_resolution(c, *r),
{
    match r {
        Resolution::Resolved(symbol) => Resolution::Resolved(SymbolId(symbol.0)),
        Resolution::Ambiguous(symbols) => {
            let mut copy: Vec<SymbolId> = Vec::new();
            let mut i: usize = 0;
            while i < symbols.len()
                invariant
                    0 <= i <= symbols@.len(),
                    copy@ == symbols@.take(i as int),
                decreases symbols@.len() - i,
            {
                copy.push(symbols[i]);
                proof {
                    assert(symbols@.take(i + 1) =~= symbols@.take(i as int).push(symbols@[i as int]));
                }
                i = i + 1;
            }
            proof {
                assert(symbols@.take(i as int) =~= symbols@);
            }
            Resolution::Ambiguous(copy)
        },
        Resolution::External => Resolution::External,
        Resolution::Unresolved(reason) => Resolution::Unresolved(*reason),
    }
}

impl FlowFacts {
    /// The facts of `module` in `graph`.
    pub fn new(graph: &SemanticGraph, module: ModuleId) -> (f: Self)
        requires
            graph_well_formed(*graph),
        ensures
            facts_of(*graph, module, f),
            facts_ordered(f),
    {
        let ghost g = *graph;
        proof {
            assert(arena_ids_match(g));
            assert(scopes_paired_with_contexts(g));
        }
        let mut contexts: Vec<ContextInfo> = Vec::new();
        let mut scopes: Vec<ScopeInfo> = Vec::new();
        let mut module_context: Option<ContextId> = None;
        let mut module_scope: Option<ScopeId> = None;
        let mut i: usize = 0;
        while i < graph.scopes.len()
            invariant
                *graph == g,
                g.scopes@.len() == g.contexts@.len(),
                forall|j: int| 0 <= j < g.scopes@.len() ==> (#[trigger] g.scopes@[j]).id.0 == j,
                forall|j: int| 0 <= j < g.scopes@.len() ==> (#[trigger] g.scopes@[j]).context.0 == j,
                0 <= i <= g.scopes@.len(),
                scopes@ == g.scopes@.take(i as int).filter_map(scope_info(g, module)),
                forall|a: int, b: int|
                    0 <= a < b < scopes@.len() ==> (#[trigger] scopes@[a]).scope.0 < (#[trigger] scopes@[b]).scope.0,
                forall|a: int| 0 <= a < scopes@.len() ==> (#[trigger] scopes@[a]).scope.0 < i,
                module_scope == last_value(
                    g.scopes@.take(i as int),
                    |s: ScopeFact| s.module == module && s.kind == ScopeKind::Module,
                    |s: ScopeFact| s.id,
                ),
            decreases g.scopes@.len() - i,
        {
            let scope = &graph.scopes[i];
            proof {
                assert(g.scopes@.take(i + 1).drop_last() =~= g.scopes@.take(i as int));
                assert(g.scopes@[i as int].id.0 == i);
                assert(g.scopes@[i as int].context.0 == i);
            }
            if scope.module == module {
                if scope.kind == ScopeKind::Module {
                    module_scope = Some(scope.id);
                }
                scopes.push(
                    ScopeInfo {
                        scope: scope.id,
                        kind: scope.kind,
                        range: scope.range,
                        context: scope.context,
                        context_kind: graph.contexts[i].kind,
                    },
                );
            }
            proof {
                lemma_last_value_step(
                    g.scopes@,
                    |s: ScopeFact| s.module == module && s.kind == ScopeKind::Module,
                    |s: ScopeFact| s.id,
                    i as int,
                );
            }
            i = i + 1;
        }
        proof {
            assert(g.scopes@.take(i as int) =~= g.scopes@);
        }
        let mut i: usize = 0;
        while i < graph.contexts.len()
            invariant
                *graph == g,
                forall|j: int| 0 <= j < g.contexts@.len() ==> (#[trigger] g.contexts@[j]).id.0 == j,
                0 <= i <= g.contexts@.len(),
                contexts@ == g.contexts@.take(i as int).filter_map(context_info(module)),
                forall|a: int, b: int|
                    0 <= a < b < contexts@.len() ==> (#[trigger] contexts@[a]).context.0 < (#[trigger] contexts@[b]).context.0,
                forall|a: int| 0 <= a < contexts@.len() ==> (#[trigger] contexts@[a]).context.0 < i,
                module_context == last_value(
                    g.contexts@.take(i as int),
                    |c: ContextFact| c.module == module && c.kind == ContextKind::ModuleBody,
                    |c: ContextFact| c.id,
                ),
            decreases g.contexts@.len() - i,
        {
            let context = &graph.contexts[i];
            proof {
                assert(g.contexts@.take(i + 1).drop_last() =~= g.contexts@.take(i as int));
                assert(g.contexts@[i as int].id.0 == i);
            }
            if context.module == module {
                if context.kind == ContextKind::ModuleBody {
                    module_context = Some(context.id);
                }
                contexts.push(ContextInfo { context: context.id, scope: context.scope, kind: context.kind });
            }
            proof {
                lemma_last_value_step(
                    g.contexts@,
                    |c: ContextFact| c.module == module && c.kind == ContextKind::ModuleBody,
                    |c: ContextFact| c.id,
                    i as int,
                );
            }
            i = i + 1;
        }
        proof {
            assert(g.contexts@.take(i as int) =~= g.contexts@);
        }
        let mut symbols: Vec<SymbolInfo> = Vec::new();
        let mut i: usize = 0;
        while i < graph.symbols.len()
            invariant
                *graph == g,
                forall|j: int| 0 <= j < g.symbols@.len() ==> (#[trigger] g.symbols@[j]).id.0 == j,
                0 <= i <= g.symbols@.len(),
                symbols@ == g.symbols@.take(i as int).filter_map(symbol_info(module)),
                forall|a: int, b: int|
                    0 <= a < b < symbols@.len() ==> (#[trigger] symbols@[a]).symbol.0 < (#[trigger] symbols@[b]).symbol.0,
                forall|a: int| 0 <= a < symbols@.len() ==> (#[trigger] symbols@[a]).symbol.0 < i,
            decreases g.symbols@.len() - i,
        {
            let symbol = &graph.symbols[i];
            proof {
                assert(g.symbols@.take(i + 1).drop_last() =~= g.symbols@.take(i as int));
                assert(g.symbols@[i as int].id.0 == i);
            }
            if symbol.module == module {
                symbols.push(SymbolInfo { symbol: symbol.id, scope: symbol.scope });
            }
            i = i + 1;
        }
        proof {
            assert(g.symbols@.take(i as int) =~= g.symbols@);
        }
        let mut bindings: Vec<BindingInfo> = Vec::new();
        let mut i: usize = 0;
        while i < graph.bindings.len()
            invariant
                *graph == g,
                forall|j: int| 0 <= j < g.bindings@.len() ==> (#[trigger] g.bindings@[j]).id.0 == j,
                0 <= i <= g.bindings@.len(),
                bindings@ == g.bindings@.take(i as int).filter_map(binding_info(module)),
                forall|a: int, b: int|
                    0 <= a < b < bindings@.len() ==> (#[trigger] bindings@[a]).binding.0 < (#[trigger] bindings@[b]).binding.0,
                forall|a: int| 0 <= a < bindings@.len() ==> (#[trigger] bindings@[a]).binding.0 < i,
            decreases g.bindings@.len() - i,
        {
            let binding = &graph.bindings[i];
            proof {
                assert(g.bindings@.take(i + 1).drop_last() =~= g.bindings@.take(i as int));
                assert(g.bindings@[i as int].id.0 == i);
            }
            if binding.module == module {
                bindings.push(
                    BindingInfo {
                        binding: binding.id,
                        symbol: binding.symbol,
                        kind: binding.kind,
                        scope: binding.scope,
                        name_range: binding.name_range,
                    },
                );
            }
            i = i + 1;
        }
        proof {
            assert(g.bindings@.take(i as int) =~= g.bindings@);
        }
        let mut references: Vec<ReferenceInfo> = Vec::new();
        let mut i: usize = 0;
        while i < graph.references.len()
            invariant
                *graph == g,
                forall|j: int| 0 <= j < g.references@.len() ==> (#[trigger] g.references@[j]).id.0 == j,
                0 <= i <= g.references@.len(),
                references_read(references@, g.references@.take(i as int).filter_map(module_reference(module))),
                forall|a: int, b: int|
                    0 <= a < b < references@.len() ==> (#[trigger] references@[a]).reference.0
                        < (#[trigger] references@[b]).reference.0,
                forall|a: int| 0 <= a < references@.len() ==> (#[trigger] references@[a]).reference.0 < i,
            decreases g.references@.len() - i,
        {
            let reference = &graph.references[i];
            proof {
                assert(g.references@.take(i + 1).drop_last() =~= g.references@.take(i as int));
                assert(g.references@[i as int].id.0 == i);
            }
            if reference.module == module {
                references.push(
                    ReferenceInfo {
                        reference: reference.id,
                        lexical_target: copy_resolution(&reference.lexical_target),
                        lookup: reference.lookup,
                        phase: reference.phase,
                        role: reference.role,
                        span: reference.span,
                        source_context: reference.source_context,
                        source_spelling: reference.source_spelling.clone(),
                    },
                );
            }
            i = i + 1;
        }
        proof {
            assert(g.references@.take(i as int) =~= g.references@);
        }
        let mut definitions: Vec<DefinitionEntry> = Vec::new();
        let mut i: usize = 0;
        while i < graph.definitions.len()
            invariant
                *graph == g,
                0 <= i <= g.definitions@.len(),
                definitions@ == g.definitions@.take(i as int).filter_map(definition_entry(module)),
            decreases g.definitions@.len() - i,
        {
            let definition = &graph.definitions[i];
            proof {
                assert(g.definitions@.take(i + 1).drop_last() =~= g.definitions@.take(i as int));
            }
            if definition.module == module {
                definitions.push(
                    DefinitionEntry {
                        name_range: definition.name_range,
                        kind: definition.kind,
                        info: DefinitionInfo {
                            scope: definition.scope,
                            context: definition.context,
                            binding: definition.binding,
                        },
                    },
                );
            }
            i = i + 1;
        }
        proof {
            assert(g.definitions@.take(i as int) =~= g.definitions@);
        }
        FlowFacts { module_context, module_scope, contexts, scopes, symbols, bindings, references, definitions }
    }
}

/// Bindings with the given name range and kind.
pub open spec fn binding_at(range: TextRange, kind: BindingKind) -> spec_fn(BindingInfo) -> Option<BindingId> {
    |b: BindingInfo|
        if b.name_range == range && b.kind == kind {
            Some(b.binding)
        } else {
            None
        }
}

/// Bindings of the given symbol.
pub open spec fn binding_of_symbol(symbol: SymbolId) -> spec_fn(BindingInfo) -> Option<BindingId> {
    |b: BindingInfo|
        if b.symbol == symbol {
            Some(b.binding)
        } else {
            None
        }
}

/// Parameter bindings of the given scope.
pub open spec fn parameter_of_scope(scope: ScopeId) -> spec_fn(BindingInfo) -> Option<BindingId> {
    |b: BindingInfo|
        if b.kind == BindingKind::Parameter && b.scope == scope {
            Some(b.binding)
        } else {
            None
        }
}

/// Symbols owned by the given scope.
pub open spec fn symbol_of_scope(scope: ScopeId) -> spec_fn(SymbolInfo) -> Option<SymbolId> {
    |s: SymbolInfo|
        if s.scope == scope {
            Some(s.symbol)
        } else {
            None
        }
}

/// A definition under the given name range and kind.
pub open spec fn definition_key(name_range: TextRange, kind: DefinitionKind) -> spec_fn(DefinitionEntry) -> bool {
    |d: DefinitionEntry| d.name_range == name_range && d.kind == kind
}

/// A lambda or comprehension scope with the given range and kind.
pub open spec fn anonymous_key(range: TextRange, kind: ScopeKind) -> spec_fn(ScopeInfo) -> bool {
    |s: ScopeInfo|
        (s.kind == ScopeKind::Lambda || s.kind == ScopeKind::Comprehension) && s.range == range && s.kind
            == kind
}

/// The context a scope executes in, as a context of the module.
pub open spec fn scope_context(s: ScopeInfo) -> ContextInfo {
    ContextInfo { context: s.context, scope: s.scope, kind: s.context_kind }
}

/// A reference written in `context` exactly over `range` with the given spelling.
pub open spec fn reference_key(context: ContextId, range: TextRange, spelling: Seq<char>) -> spec_fn(ReferenceInfo) -> bool {
    |r: ReferenceInfo|
        r.source_context == context && r.span.start == range.start && r.span.end == range.end
            && r.source_spelling@ == spelling
}

/// An annotation reference written in `context` with the given spelling whose span encloses
/// `range`.
pub open spec fn enclosing_annotation(context: ContextId, range: TextRange, spelling: Seq<char>) -> spec_fn(ReferenceInfo) -> bool {
    |r: ReferenceInfo|
        r.source_context == context && r.source_spelling@ == spelling && r.role == ReferenceRole::Annotation
            && r.span.start <= range.start && r.span.end >= range.end
}

/// The reference flow analysis finds for a name in `context` at `range`: the reference with
/// exactly that span and spelling, else the first annotation reference with that spelling
/// whose span encloses it.
pub open spec fn reference_lookup(refs: Seq<ReferenceInfo>, context: ContextId, range: TextRange, spelling: Seq<char>) -> Option<ReferenceId> {
    match last_value(refs, reference_key(context, range, spelling), |r: ReferenceInfo| r.reference) {
        Some(id) => Some(id),
        None => if exists|k: int| is_first_match(refs, enclosing_annotation(context, range, spelling), k) {
            Some(refs[choose|k: int| is_first_match(refs, enclosing_annotation(context, range, spelling), k)].reference)
        } else {
            None
        },
    }
}

impl FlowFacts {
    /// The scope that `context` executes, when it is a context of the module.
    pub fn context_scope(&self, context: ContextId) -> (r: Option<ScopeId>)
        requires
            facts_ordered(*self),
        ensures
            r is Some <==> exists|i: int| 0 <= i < self.contexts@.len() && (#[trigger] self.contexts@[i]).context == context,
            forall|i: int|
                0 <= i < self.contexts@.len() && (#[trigger] self.contexts@[i]).context == context ==> r == Some(
                    self.contexts@[i].scope,
                ),
    {
        let mut k: usize = 0;
        while k < self.contexts.len()
            invariant
                0 <= k <= self.contexts@.len(),
                facts_ordered(*self),
                forall|j: int| 0 <= j < k ==> (#[trigger] self.contexts@[j]).context != context,
            decreases self.contexts@.len() - k,
        {
            if self.contexts[k].context == context {
                proof {
                    assert forall|i: int|
                        0 <= i < self.contexts@.len() && (#[trigger] self.contexts@[i]).context == context implies i == k by {
                        if i > k {
                            assert(self.contexts@[k as int].context.0 < self.contexts@[i].context.0);
                        }
                    }
                }
                return Some(self.contexts[k].scope);
            }
            k = k + 1;
        }
        None
    }

    /// The kind of `scope`, when it is a scope of the module.
    pub fn scope_kind(&self, scope: ScopeId) -> (r: Option<ScopeKind>)
        requires
            facts_ordered(*self),
        ensures
            r is Some <==> exists|i: int| 0 <= i < self.scopes@.len() && (#[trigger] self.scopes@[i]).scope == scope,
            forall|i: int|
                0 <= i < self.scopes@.len() && (#[trigger] self.scopes@[i]).scope == scope ==> r == Some(
                    self.scopes@[i].kind,
                ),
    {
        let mut k: usize = 0;
        while k < self.scopes.len()
            invariant
                0 <= k <= self.scopes@.len(),
                facts_ordered(*self),
                forall|j: int| 0 <= j < k ==> (#[trigger] self.scopes@[j]).scope != scope,
            decreases self.scopes@.len() - k,
        {
            if self.scopes[k].scope == scope {
                proof {
                    assert forall|i: int|
                        0 <= i < self.scopes@.len() && (#[trigger] self.scopes@[i]).scope == scope implies i == k by {
                        if i > k {
                            assert(self.scopes@[k as int].scope.0 < self.scopes@[i].scope.0);
                        }
                    }
                }
                return Some(self.scopes[k].kind);
            }
            k = k + 1;
        }
        None
    }

    /// The binding `id`, when it is a binding of the module.
    pub fn binding(&self, id: BindingId) -> (r: Option<BindingInfo>)
        requires
            facts_ordered(*self),
        ensures
            r is Some <==> exists|i: int| 0 <= i < self.bindings@.len() && (#[trigger] self.bindings@[i]).binding == id,
            forall|i: int|
                0 <= i < self.bindings@.len() && (#[trigger] self.bindings@[i]).binding == id ==> r == Some(
                    self.bindings@[i],
                ),
    {
        let mut k: usize = 0;
        while k < self.bindings.len()
            invariant
                0 <= k <= self.bindings@.len(),
                facts_ordered(*self),
                forall|j: int| 0 <= j < k ==> (#[trigger] self.bindings@[j]).binding != id,
            decreases self.bindings@.len() - k,
        {
            if self.bindings[k].binding == id {
                proof {
                    assert forall|i: int|
                        0 <= i < self.bindings@.len() && (#[trigger] self.bindings@[i]).binding == id implies i == k by {
                        if i > k {
                            assert(self.bindings@[k as int].binding.0 < self.bindings@[i].binding.0);
                        }
                    }
                }
                return Some(self.bindings[k]);
            }
            k = k + 1;
        }
        None
    }

    /// The bindings with name range `range` and kind `kind`, in identifier order.
    pub fn binding_ids(&self, range: TextRange, kind: BindingKind) -> (r: Vec<BindingId>)
        ensures
            r@ == self.bindings@.filter_map(binding_at(range, kind)),
    {
        let mut r: Vec<BindingId> = Vec::new();
        let mut k: usize = 0;
        while k < self.bindings.len()
            invariant
                0 <= k <= self.bindings@.len(),
                r@ == self.bindings@.take(k as int).filter_map(binding_at(range, kind)),
            decreases self.bindings@.len() - k,
        {
            proof {
                assert(self.bindings@.take(k + 1).drop_last() =~= self.bindings@.take(k as int));
            }
            let b = self.bindings[k];
            if b.name_range == range && b.kind == kind {
                r.push(b.binding);
            }
            k = k + 1;
        }
        proof {
            assert(self.bindings@.take(k as int) =~= self.bindings@);
        }
        r
    }

    /// The bindings of `symbol`, in identifier order.
    pub fn symbol_binding_ids(&self, symbol: SymbolId) -> (r: Vec<BindingId>)
        ensures
            r@ == self.bindings@.filter_map(binding_of_symbol(symbol)),
    {
        let mut r: Vec<BindingId> = Vec::new();
        let mut k: usize = 0;
        while k < self.bindings.len()
            invariant
                0 <= k <= self.bindings@.len(),
                r@ == self.bindings@.take(k as int).filter_map(binding_of_symbol(symbol)),
            decreases self.bindings@.len() - k,
        {
            proof {
                assert(self.bindings@.take(k + 1).drop_last() =~= self.bindings@.take(k as int));
            }
            let b = self.bindings[k];
            if b.symbol == symbol {
                r.push(b.binding);
            }
            k = k + 1;
        }
        proof {
            assert(self.bindings@.take(k as int) =~= self.bindings@);
        }
        r
    }

    /// The parameter bindings of `scope`, in identifier order.
    pub fn parameter_binding_ids(&self, scope: ScopeId) -> (r: Vec<BindingId>)
        ensures
            r@ == self.bindings@.filter_map(parameter_of_scope(scope)),
    {
        let mut r: Vec<BindingId> = Vec::new();
        let mut k: usize = 0;
        while k < self.bindings.len()
            invariant
                0 <= k <= self.bindings@.len(),
                r@ == self.bindings@.take(k as int).filter_map(parameter_of_scope(scope)),
            decreases self.bindings@.len() - k,
        {
            proof {
                assert(self.bindings@.take(k + 1).drop_last() =~= self.bindings@.take(k as int));
            }
            let b = self.bindings[k];
            if b.kind == BindingKind::Parameter && b.scope == scope {
                r.push(b.binding);
            }
            k = k + 1;
        }
        proof {
            assert(self.bindings@.take(k as int) =~= self.bindings@);
        }
        r
    }

    /// The symbols owned by `scope`, in identifier order.
    pub fn scope_symbols(&self, scope: ScopeId) -> (r: Vec<SymbolId>)
        ensures
            r@ == self.symbols@.filter_map(symbol_of_scope(scope)),
    {
        let mut r: Vec<SymbolId> = Vec::new();
        let mut k: usize = 0;
        while k < self.symbols.len()
            invariant
                0 <= k <= self.symbols@.len(),
                r@ == self.symbols@.take(k as int).filter_map(symbol_of_scope(scope)),
            decreases self.symbols@.len() - k,
        {
            proof {
                assert(self.symbols@.take(k + 1).drop_last() =~= self.symbols@.take(k as int));
            }
            let s = self.symbols[k];
            if s.scope == scope {
                r.push(s.symbol);
            }
            k = k + 1;
        }
        proof {
            assert(self.symbols@.take(k as int) =~= self.symbols@);
        }
        r
    }

    /// The definition with name range `name_range` and kind `kind`; of several, the last.
    pub fn definition(&self, name_range: TextRange, kind: DefinitionKind) -> (r: Option<DefinitionInfo>)
        ensures
            r == last_value(self.definitions@, definition_key(name_range, kind), |d: DefinitionEntry| d.info),
    {
        let ghost p = definition_key(name_range, kind);
        let mut k: usize = self.definitions.len();
        while k > 0
            invariant
                0 <= k <= self.definitions@.len(),
                p == definition_key(name_range, kind),
                forall|j: int| k <= j < self.definitions@.len() ==> !p(#[trigger] self.definitions@[j]),
            decreases k,
        {
            k = k - 1;
            let d = self.definitions[k];
            if d.name_range == name_range && d.kind == kind {
                proof {
                    lemma_last_match_unique(self.definitions@, p, |d: DefinitionEntry| d.info, k as int);
                }
                return Some(d.info);
            }
        }
        proof {
            lemma_no_last_match(self.definitions@, p, |d: DefinitionEntry| d.info);
        }
        None
    }

    /// The context of the lambda or comprehension scope with range `range` and kind `kind`; of
    /// several, the last.
    pub fn anonymous_context(&self, range: TextRange, kind: ScopeKind) -> (r: Option<ContextInfo>)
        ensures
            r == last_value(self.scopes@, anonymous_key(range, kind), |s: ScopeInfo| scope_context(s)),
    {
        let ghost p = anonymous_key(range, kind);
        let mut k: usize = self.scopes.len();
        while k > 0
            invariant
                0 <= k <= self.scopes@.len(),
                p == anonymous_key(range, kind),
                forall|j: int| k <= j < self.scopes@.len() ==> !p(#[trigger] self.scopes@[j]),
            decreases k,
        {
            k = k - 1;
            let s = self.scopes[k];
            if (s.kind == ScopeKind::Lambda || s.kind == ScopeKind::Comprehension) && s.range == range && s.kind == kind {
                proof {
                    lemma_last_match_unique(self.scopes@, p, |s: ScopeInfo| scope_context(s), k as int);
                }
                return Some(ContextInfo { context: s.context, scope: s.scope, kind: s.context_kind });
            }
        }
        proof {
            lemma_no_last_match(self.scopes@, p, |s: ScopeInfo| scope_context(s));
        }
        None
    }

    /// The reference for the name spelled `source_spelling` in `context` at `range`.
    pub fn reference(&self, context: ContextId, range: TextRange, source_spelling: &str) -> (r: Option<ReferenceId>)
        ensures
            r == reference_lookup(self.references@, context, range, source_spelling@),
    {
        let ghost exact = reference_key(context, range, source_spelling@);
        let mut k: usize = self.references.len();
        while k > 0
            invariant
                0 <= k <= self.references@.len(),
                exact == reference_key(context, range, source_spelling@),
                forall|j: int| k <= j < self.references@.len() ==> !exact(#[trigger] self.references@[j]),
            decreases k,
        {
            k = k - 1;
            let r = &self.references[k];
            if r.source_context == context && r.span.start == range.start && r.span.end == range.end && str_eq(
                r.source_spelling.as_str(),
                source_spelling,
            ) {
                proof {
                    lemma_last_match_unique(self.references@, exact, |r: ReferenceInfo| r.reference, k as int);
                }
                return Some(r.reference);
            }
        }
        proof {
            lemma_no_last_match(self.references@, exact, |r: ReferenceInfo| r.reference);
        }
        let ghost enclosing = enclosing_annotation(context, range, source_spelling@);
        let mut k: usize = 0;
        while k < self.references.len()
            invariant
                0 <= k <= self.references@.len(),
                enclosing == enclosing_annotation(context, range, source_spelling@),
                last_value(self.references@, reference_key(context, range, source_spelling@), |r: ReferenceInfo| r.reference) is None,
                forall|j: int| 0 <= j < k ==> !enclosing(#[trigger] self.references@[j]),
            decreases self.references@.len() - k,
        {
            let r = &self.references[k];
            if r.source_context == context && str_eq(r.source_spelling.as_str(), source_spelling) && r.role
                == ReferenceRole::Annotation && r.span.start <= range.start && r.span.end >= range.end {
                proof {
                    assert(is_first_match(self.references@, enclosing, k as int));
                    lemma_first_match_unique(self.references@, enclosing, k as int);
                }
                return Some(r.reference);
            }
            k = k + 1;
        }
        proof {
            assert forall|c: int| !is_first_match(self.references@, enclosing, c) by {
                if is_first_match(self.references@, enclosing, c) {
                    assert(!enclosing(self.references@[c]));
                }
            }
        }
        None
    }
}

/// Where `p` holds nowhere there is no last match.
proof fn lemma_no_last_match<A, B>(s: Seq<A>, p: spec_fn(A) -> bool, f: spec_fn(A) -> B)
    requires
        forall|j: int| 0 <= j < s.len() ==> !p(#[trigger] s[j]),
    ensures
        last_value(s, p, f) is None,
{
    assert forall|k: int| !is_last_match(s, p, k) by {
        if is_last_match(s, p, k) {
            assert(!p(s[k]));
        }
    }
}

/// The first match is unique.
proof fn lemma_first_match_unique<A>(s: Seq<A>, p: spec_fn(A) -> bool, k: int)
    requires
        is_first_match(s, p, k),
    ensures
        (choose|c: int| is_first_match(s, p, c)) == k,
{
    let c = choose|c: int| is_first_match(s, p, c);
    assert(is_first_match(s, p, c));
    if c < k {
        assert(!p(s[c]));
    } else if c > k {
        assert(!p(s[k]));
    }
}

/// Extending a prefix by one element updates its last match the way a map insert does.
proof fn lemma_last_value_step<A, B>(s: Seq<A>, p: spec_fn(A) -> bool, f: spec_fn(A) -> B, i: int)
    requires
        0 <= i < s.len(),
    ensures
        last_value(s.take(i + 1), p, f) == (if p(s[i]) {
            Some(f(s[i]))
        } else {
            last_value(s.take(i), p, f)
        }),
{
    let t = s.take(i + 1);
    let u = s.take(i);
    if p(s[i]) {
        assert(is_last_match(t, p, i));
        lemma_last_match_unique(t, p, f, i);
    } else {
        if exists|k: int| is_last_match(u, p, k) {
            let k = choose|k: int| is_last_match(u, p, k);
            assert(is_last_match(t, p, k)) by {
                assert forall|j: int| k < j < t.len() implies !p(#[trigger] t[j]) by {
                    if j < i {
                        assert(t[j] == u[j]);
                    }
                }
            }
            lemma_last_match_unique(t, p, f, k);
            lemma_last_match_unique(u, p, f, k);
        } else {
            assert forall|k: int| !is_last_match(t, p, k) by {
                if is_last_match(t, p, k) {
                    assert(k != i);
                    assert(is_last_match(u, p, k)) by {
                        assert forall|j: int| k < j < u.len() implies !p(#[trigger] u[j]) by {
                            assert(t[j] == u[j]);
                        }
                    }
                }
            }
        }
    }
}

/// The last match is unique, so `last_value` picks it.
proof fn lemma_last_match_unique<A, B>(s: Seq<A>, p: spec_fn(A) -> bool, f: spec_fn(A) -> B, k: int)
    requires
        is_last_match(s, p, k),
    ensures
        last_value(s, p, f) == Some(f(s[k])),
{
    let c = choose|c: int| is_last_match(s, p, c);
    assert(is_last_match(s, p, c));
    if c < k {
        assert(!p(s[k]));
    } else if c > k {
        assert(!p(s[c]));
    }
}

} // verus!
