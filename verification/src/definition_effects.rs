//! Definition-time effects, overload groups and internal unused-definition candidates,
//! derived from the facts of a semantic graph.
use vstd::prelude::*;
use std::collections::BTreeMap;

use crate::canon::{sorted_unique_u32, strictly_increasing_u32};
use crate::builder::{arena_ids_match, graph_well_formed, SemanticGraphBuilder};
use crate::diagnostic::{Diagnostic, DiagnosticSeverity};
use crate::ids::{BindingId, DefId, DefinitionEffectSetId, ModuleId, OverloadGroupId, ReferenceId, ScopeId, SymbolId};
use crate::order::{compare_strs, lex_lt, lemma_lex_concat, lemma_num_key_separated, lemma_str_key_separated, num_key,
    sort_by_key, sorted_by_key, str_key, SortKey};
use crate::source::TextRange;
use crate::text::str_eq;
use vstd::string::StringExecFns;
use crate::ir::DefinitionKind;
use crate::semantic::{
    SemanticModule, OverloadGroupFact, DefinitionEffectKind, DefinitionRole, InternalCandidateDisposition, InternalCandidateFact,
    InternalCandidateInput, InternalCandidateReason, ReferenceBindingState, ResidualLookup,
    UnresolvedReason, InternalCandidateRule, LookupSemantics, ReferenceFact, ReferencePhase,
    ReferenceRole, RemovalRisk, Resolution, SemanticDefinition, SemanticGraph,
};

verus! {

broadcast use {vstd::std_specs::btree::group_btree_axioms, vstd::seq_lib::group_to_multiset_ensures};

// ----- symbols a reference may read -----

/// `s` is a symbol that `r` may read: its lexical target (or one of its ambiguous targets),
/// or a symbol its run-time lookup falls back to.
pub open spec fn candidate_symbol(r: ReferenceFact, s: SymbolId) -> bool {
    ||| r.lexical_target == Resolution::Resolved(s)
    ||| (r.lexical_target matches Resolution::Ambiguous(v) && v@.contains(s))
    ||| r.lookup == (LookupSemantics::GlobalThenBuiltin { global_symbol: s })
    ||| (r.lookup matches LookupSemantics::ClassLocalThenGlobalThenBuiltin { class_symbol, global_symbol }
        && (class_symbol == s || global_symbol == s))
}

pub open spec fn symbol_raw(s: Seq<SymbolId>) -> Seq<u32> {
    s.map_values(|x: SymbolId| x.0)
}

/// The symbols a reference may read, sorted by identifier and without repetition.
pub fn candidate_symbols_for_reference(reference: &ReferenceFact) -> (symbols: Vec<SymbolId>)
    ensures
        strictly_increasing_u32(symbol_raw(symbols@)),
        forall|s: SymbolId| symbols@.contains(s) <==> candidate_symbol(*reference, s),
{
    let mut raw: Vec<u32> = Vec::new();
    match &reference.lexical_target {
        Resolution::Resolved(symbol) => raw.push(symbol.0),
        Resolution::Ambiguous(symbols) => {
            let mut i: usize = 0;
            while i < symbols.len()
                invariant
                    0 <= i <= symbols@.len(),
                    raw@ == symbol_raw(symbols@.take(i as int)),
                decreases symbols@.len() - i,
            {
                raw.push(symbols[i].0);
                proof {
                    assert(symbol_raw(symbols@.take(i + 1)) =~= symbol_raw(symbols@.take(i as int)).push(symbols@[i as int].0));
                }
                i = i + 1;
            }
            proof {
                assert(symbols@.take(symbols@.len() as int) =~= symbols@);
            }
        },
        Resolution::External | Resolution::Unresolved(_) => {},
    }
    let ghost lexical = raw@;
    match reference.lookup {
        LookupSemantics::Direct => {},
        LookupSemantics::GlobalThenBuiltin { global_symbol } => raw.push(global_symbol.0),
        LookupSemantics::ClassLocalThenGlobalThenBuiltin { class_symbol, global_symbol } => {
            raw.push(class_symbol.0);
            raw.push(global_symbol.0);
        },
    }
    proof {
        assert forall|x: u32| raw@.contains(x) <==> candidate_symbol(*reference, SymbolId(x)) by {
            match &reference.lexical_target {
                Resolution::Ambiguous(v) => {
                    if v@.contains(SymbolId(x)) {
                        let k = choose|k: int| 0 <= k < v@.len() && v@[k] == SymbolId(x);
                        assert(lexical[k] == x);
                        assert(raw@[k] == x);
                    }
                    if lexical.contains(x) {
                        let k = choose|k: int| 0 <= k < lexical.len() && lexical[k] == x;
                        assert(v@[k] == SymbolId(x));
                    }
                    if raw@.contains(x) {
                        let k = choose|k: int| 0 <= k < raw@.len() && raw@[k] == x;
                        if k < lexical.len() {
                            assert(lexical[k] == x);
                        }
                    }
                },
                Resolution::Resolved(sym) => {
                    if x == sym.0 {
                        assert(raw@[0] == x);
                    }
                },
                _ => {},
            }
            match reference.lookup {
                LookupSemantics::GlobalThenBuiltin { global_symbol } => {
                    if x == global_symbol.0 {
                        assert(raw@[raw@.len() - 1] == x);
                    }
                },
                LookupSemantics::ClassLocalThenGlobalThenBuiltin { class_symbol, global_symbol } => {
                    if x == class_symbol.0 {
                        assert(raw@[raw@.len() - 2] == x);
                    }
                    if x == global_symbol.0 {
                        assert(raw@[raw@.len() - 1] == x);
                    }
                },
                _ => {},
            }
        }
    }
    let sorted = sorted_unique_u32(&raw);
    let mut symbols: Vec<SymbolId> = Vec::new();
    let mut k: usize = 0;
    while k < sorted.len()
        invariant
            0 <= k <= sorted@.len(),
            symbol_raw(symbols@) == sorted@.take(k as int),
        decreases sorted@.len() - k,
    {
        let ghost before = symbols@;
        symbols.push(SymbolId(sorted[k]));
        proof {
            assert(symbols@ == before.push(SymbolId(sorted@[k as int])));
            assert(symbol_raw(symbols@) =~= symbol_raw(before).push(sorted@[k as int]));
            assert(sorted@.take(k + 1) =~= sorted@.take(k as int).push(sorted@[k as int]));
        }
        k = k + 1;
    }
    proof {
        assert(sorted@.take(sorted@.len() as int) =~= sorted@);
        assert forall|s: SymbolId| symbols@.contains(s) <==> candidate_symbol(*reference, s) by {
            if symbols@.contains(s) {
                let t = choose|t: int| 0 <= t < symbols@.len() && symbols@[t] == s;
                assert(sorted@[t] == s.0);
                assert(sorted@.contains(s.0));
            }
            if candidate_symbol(*reference, s) {
                assert(raw@.contains(s.0));
                assert(sorted@.contains(s.0));
                let t = choose|t: int| 0 <= t < sorted@.len() && sorted@[t] == s.0;
                assert(symbols@[t].0 == s.0);
                assert(symbols@[t] == s);
            }
        }
    }
    symbols
}

/// The internal candidate rule of a definition kind.
pub fn candidate_rule(kind: DefinitionKind) -> (rule: InternalCandidateRule)
    ensures
        kind == DefinitionKind::Function ==> rule == InternalCandidateRule::UnreferencedFunction,
        kind == DefinitionKind::Class ==> rule == InternalCandidateRule::UnreferencedClass,
{
    match kind {
        DefinitionKind::Function => InternalCandidateRule::UnreferencedFunction,
        DefinitionKind::Class => InternalCandidateRule::UnreferencedClass,
    }
}

// ----- definition-time effects -----

/// The definition-time effect a reference stands for, if any.
pub open spec fn reference_effect(r: ReferenceFact) -> Option<DefinitionEffectKind> {
    match r.role {
        ReferenceRole::Decorator => Some(DefinitionEffectKind::DecoratorApplication),
        ReferenceRole::DefaultValue => Some(DefinitionEffectKind::DefaultExpressionEvaluation),
        ReferenceRole::Annotation => if r.phase == ReferencePhase::DefinitionTime {
            Some(DefinitionEffectKind::EagerAnnotationEvaluation)
        } else if r.phase == ReferencePhase::LazyAnnotation {
            Some(DefinitionEffectKind::LazyAnnotationIntrospectionRisk)
        } else {
            None
        },
        ReferenceRole::BaseClass => Some(DefinitionEffectKind::ClassBaseEvaluation),
        ReferenceRole::ClassKeyword => Some(DefinitionEffectKind::ClassKeywordEvaluation),
        ReferenceRole::Metaclass => Some(DefinitionEffectKind::MetaclassEvaluation),
        _ => None,
    }
}

/// Another definition of the module of `d` whose name lies strictly between the end of `r`
/// and the name of `d`.
pub open spec fn definition_between(r: ReferenceFact, d: SemanticDefinition, defs: Seq<SemanticDefinition>) -> bool {
    exists|k: int|
        0 <= k < defs.len() && (#[trigger] defs[k]).module == d.module && defs[k].id != d.id
            && defs[k].name_range.start > r.span.end && defs[k].name_range.start < d.name_range.start
}

/// A reference belongs to a definition when it lies inside the definition's statement, or
/// when it is a decorator at most 256 bytes before the name with no other definition of the
/// module named in between.
pub open spec fn belongs_to(r: ReferenceFact, d: SemanticDefinition, defs: Seq<SemanticDefinition>) -> bool {
    if r.span.start >= d.range.start && r.span.end <= d.range.end {
        true
    } else if r.role != ReferenceRole::Decorator || r.span.end > d.name_range.start
        || d.name_range.start - r.span.end > 256 {
        false
    } else {
        !definition_between(r, d, defs)
    }
}

/// Whether `reference` belongs to `definition` in `graph`.
pub fn reference_belongs_to_definition(
    reference: &ReferenceFact,
    definition: &SemanticDefinition,
    graph: &SemanticGraph,
) -> (yes: bool)
    ensures
        yes == belongs_to(*reference, *definition, graph.definitions@),
{
    if reference.span.start >= definition.range.start && reference.span.end <= definition.range.end {
        return true;
    }
    if reference.role != ReferenceRole::Decorator || reference.span.end > definition.name_range.start
        || definition.name_range.start - reference.span.end > 256 {
        return false;
    }
    let defs = &graph.definitions;
    let mut k: usize = 0;
    while k < defs.len()
        invariant
            0 <= k <= defs@.len(),
            defs@ == graph.definitions@,
            !(reference.span.start >= definition.range.start && reference.span.end <= definition.range.end),
            reference.role == ReferenceRole::Decorator,
            reference.span.end <= definition.name_range.start,
            definition.name_range.start - reference.span.end <= 256,
            forall|j: int| 0 <= j < k ==> !({
                let o = #[trigger] defs@[j];
                o.module == definition.module && o.id != definition.id && o.name_range.start > reference.span.end
                    && o.name_range.start < definition.name_range.start
            }),
        decreases defs@.len() - k,
    {
        let other = &defs[k];
        if other.module == definition.module && other.id != definition.id
            && other.name_range.start > reference.span.end
            && other.name_range.start < definition.name_range.start {
            proof {
                assert(definition_between(*reference, *definition, defs@));
            }
            return false;
        }
        k = k + 1;
    }
    proof {
        if definition_between(*reference, *definition, defs@) {
            let j = choose|j: int|
                0 <= j < defs@.len() && (#[trigger] defs@[j]).module == definition.module && defs@[j].id != definition.id
                    && defs@[j].name_range.start > reference.span.end && defs@[j].name_range.start < definition.name_range.start;
            assert(!({
                let o = defs@[j];
                o.module == definition.module && o.id != definition.id && o.name_range.start > reference.span.end
                    && o.name_range.start < definition.name_range.start
            }));
        }
    }
    true
}

/// The definition-time effects of `d` in `g`: those of the references of its module that
/// belong to it, and the execution of the body of a class.
pub open spec fn definition_effects_of(g: SemanticGraph, d: SemanticDefinition, e: DefinitionEffectKind) -> bool {
    ||| effects_in_prefix(g, d, g.references@.len() as int, e)
    ||| (d.kind == DefinitionKind::Class && e == DefinitionEffectKind::ClassBodyExecution)
}

/// The effects found among the first `n` references.
pub open spec fn effects_in_prefix(g: SemanticGraph, d: SemanticDefinition, n: int, e: DefinitionEffectKind) -> bool {
    exists|k: int|
        0 <= k < n && (#[trigger] g.references@[k]).module == d.module
            && belongs_to(g.references@[k], d, g.definitions@) && reference_effect(g.references@[k]) == Some(e)
}

fn effect_of_reference(reference: &ReferenceFact) -> (e: Option<DefinitionEffectKind>)
    ensures
        e == reference_effect(*reference),
{
    match reference.role {
        ReferenceRole::Decorator => Some(DefinitionEffectKind::DecoratorApplication),
        ReferenceRole::DefaultValue => Some(DefinitionEffectKind::DefaultExpressionEvaluation),
        ReferenceRole::Annotation => if reference.phase == ReferencePhase::DefinitionTime {
            Some(DefinitionEffectKind::EagerAnnotationEvaluation)
        } else if reference.phase == ReferencePhase::LazyAnnotation {
            Some(DefinitionEffectKind::LazyAnnotationIntrospectionRisk)
        } else {
            None
        },
        ReferenceRole::BaseClass => Some(DefinitionEffectKind::ClassBaseEvaluation),
        ReferenceRole::ClassKeyword => Some(DefinitionEffectKind::ClassKeywordEvaluation),
        ReferenceRole::Metaclass => Some(DefinitionEffectKind::MetaclassEvaluation),
        _ => None,
    }
}

/// The effects of definition `index` of `graph`, possibly repeated.
pub fn collect_definition_effects(graph: &SemanticGraph, index: usize) -> (effects: Vec<DefinitionEffectKind>)
    requires
        index < graph.definitions@.len(),
    ensures
        forall|e: DefinitionEffectKind| effects@.contains(e) <==> definition_effects_of(*graph, graph.definitions@[index as int], e),
{
    let definition = &graph.definitions[index];
    let mut effects: Vec<DefinitionEffectKind> = Vec::new();
    let mut k: usize = 0;
    while k < graph.references.len()
        invariant
            0 <= k <= graph.references@.len(),
            *definition == graph.definitions@[index as int],
            forall|e: DefinitionEffectKind| effects@.contains(e) <==> effects_in_prefix(*graph, *definition, k as int, e),
        decreases graph.references@.len() - k,
    {
        let reference = &graph.references[k];
        let ghost before = effects@;
        if reference.module == definition.module && reference_belongs_to_definition(reference, definition, graph) {
            if let Some(e) = effect_of_reference(reference) {
                effects.push(e);
            }
        }
        proof {
            assert forall|e: DefinitionEffectKind| effects@.contains(e) <==> effects_in_prefix(*graph, *definition, k + 1, e) by {
                if effects_in_prefix(*graph, *definition, k + 1, e) {
                    let j = choose|j: int| 0 <= j < k + 1 && (#[trigger] graph.references@[j]).module == definition.module
                        && belongs_to(graph.references@[j], *definition, graph.definitions@)
                        && reference_effect(graph.references@[j]) == Some(e);
                    if j < k {
                        assert(effects_in_prefix(*graph, *definition, k as int, e));
                        assert(before.contains(e));
                        let t = choose|t: int| 0 <= t < before.len() && before[t] == e;
                        assert(effects@[t] == e);
                    } else {
                        assert(effects@[effects@.len() - 1] == e);
                    }
                }
                if effects@.contains(e) {
                    let t = choose|t: int| 0 <= t < effects@.len() && effects@[t] == e;
                    if t < before.len() {
                        assert(before[t] == e);
                        assert(before.contains(e));
                        let j = choose|j: int| 0 <= j < k && (#[trigger] graph.references@[j]).module == definition.module
                            && belongs_to(graph.references@[j], *definition, graph.definitions@)
                            && reference_effect(graph.references@[j]) == Some(e);
                        assert(effects_in_prefix(*graph, *definition, k + 1, e));
                    } else {
                        assert(graph.references@[k as int].module == definition.module);
                        assert(effects_in_prefix(*graph, *definition, k + 1, e));
                    }
                }
            }
        }
        k = k + 1;
    }
    proof {
        assert(k == graph.references@.len());
        assert forall|e: DefinitionEffectKind| effects@.contains(e) <==> effects_in_prefix(*graph,
            graph.definitions@[index as int], graph.references@.len() as int, e) by {
            assert(effects@.contains(e) <==> effects_in_prefix(*graph, *definition, k as int, e));
        }
    }
    if definition.kind == DefinitionKind::Class {
        let ghost before = effects@;
        effects.push(DefinitionEffectKind::ClassBodyExecution);
        proof {
            assert forall|e: DefinitionEffectKind| effects@.contains(e) <==> (before.contains(e) || e == DefinitionEffectKind::ClassBodyExecution) by {
                if effects@.contains(e) {
                    let t = choose|t: int| 0 <= t < effects@.len() && effects@[t] == e;
                    if t < before.len() {
                        assert(before[t] == e);
                    }
                }
                if before.contains(e) {
                    let t = choose|t: int| 0 <= t < before.len() && before[t] == e;
                    assert(effects@[t] == e);
                }
                if e == DefinitionEffectKind::ClassBodyExecution {
                    assert(effects@[effects@.len() - 1] == e);
                }
            }
            assert forall|e: DefinitionEffectKind| effects@.contains(e) <==> definition_effects_of(*graph,
                graph.definitions@[index as int], e) by {
                assert(before.contains(e) <==> effects_in_prefix(*graph, graph.definitions@[index as int],
                    graph.references@.len() as int, e));
            }
        }
    } else {
        proof {
            assert forall|e: DefinitionEffectKind| effects@.contains(e) <==> definition_effects_of(*graph,
                graph.definitions@[index as int], e) by {
                assert(effects@.contains(e) <==> effects_in_prefix(*graph, graph.definitions@[index as int],
                    graph.references@.len() as int, e));
            }
        }
    }
    effects
}

/// The members of effect set `id` of `g`.
pub open spec fn effect_set_members(g: SemanticGraph, id: DefinitionEffectSetId) -> Seq<DefinitionEffectKind> {
    g.definition_effect_sets@[id.0 as int].effects@
}

/// `after` is `before` with the effects and removal risk of every definition derived.
pub open spec fn effects_derived(before: SemanticGraph, after: SemanticGraph) -> bool {
    &&& after == (SemanticGraph {
        definitions: after.definitions,
        definition_effect_sets: after.definition_effect_sets,
        ..before
    })
    &&& after.definitions@.len() == before.definitions@.len()
    &&& after.definition_effect_sets@.take(before.definition_effect_sets@.len() as int)
        == before.definition_effect_sets@
    &&& forall|i: int| 0 <= i < after.definitions@.len() ==> {
        let d = #[trigger] after.definitions@[i];
        let id = d.definition_effects;
        &&& d == (SemanticDefinition {
            definition_effects: id,
            removal_risk: d.removal_risk,
            ..before.definitions@[i]
        })
        &&& id.0 < after.definition_effect_sets@.len()
        &&& forall|e: DefinitionEffectKind| effect_set_members(after, id).contains(e)
            <==> definition_effects_of(before, before.definitions@[i], e)
        &&& d.removal_risk == if effect_set_members(after, id).len() == 0 {
            RemovalRisk::NoKnownDefinitionEffects
        } else {
            RemovalRisk::Review(id)
        }
    }
}

/// Derives the definition-time effects of every definition: they are interned as a set, and
/// a definition with any effect needs review before removal.
pub fn derive_definition_effects(builder: &mut SemanticGraphBuilder)
    requires
        old(builder).well_formed(),
        old(builder).view_graph().definition_effect_sets@.len() + old(builder).view_graph().definitions@.len() < u32::MAX,
    ensures
        final(builder).well_formed(),
        effects_derived(old(builder).view_graph(), final(builder).view_graph()),
{
    let ghost g0 = builder.view_graph();
    let n = builder.graph().definitions.len();
    let mut i: usize = 0;
    while i < n
        invariant
            builder.well_formed(),
            n == g0.definitions@.len(),
            0 <= i <= n,
            builder.view_graph() == (SemanticGraph {
                definitions: builder.view_graph().definitions,
                definition_effect_sets: builder.view_graph().definition_effect_sets,
                ..g0
            }),
            builder.view_graph().definitions@.len() == n,
            builder.view_graph().definition_effect_sets@.len() <= g0.definition_effect_sets@.len() + i,
            g0.definition_effect_sets@.len() <= builder.view_graph().definition_effect_sets@.len(),
            g0.definition_effect_sets@.len() + n < u32::MAX,
            builder.view_graph().definition_effect_sets@.take(g0.definition_effect_sets@.len() as int)
                == g0.definition_effect_sets@,
            forall|j: int| i <= j < n ==> #[trigger] builder.view_graph().definitions@[j] == g0.definitions@[j],
            forall|j: int| 0 <= j < i ==> {
                let d = #[trigger] builder.view_graph().definitions@[j];
                let id = d.definition_effects;
                &&& d == (SemanticDefinition {
                    definition_effects: id,
                    removal_risk: d.removal_risk,
                    ..g0.definitions@[j]
                })
                &&& id.0 < builder.view_graph().definition_effect_sets@.len()
                &&& forall|e: DefinitionEffectKind| effect_set_members(builder.view_graph(), id).contains(e)
                    <==> definition_effects_of(g0, g0.definitions@[j], e)
                &&& d.removal_risk == if effect_set_members(builder.view_graph(), id).len() == 0 {
                    RemovalRisk::NoKnownDefinitionEffects
                } else {
                    RemovalRisk::Review(id)
                }
            },
        decreases n - i,
    {
        let ghost g1 = builder.view_graph();
        let effects = collect_definition_effects(builder.graph(), i);
        proof {
            // the reading graph differs from the original only in derived fields that the
            // effects do not depend on
            assert forall|j: int| 0 <= j < g0.definitions@.len() implies {
                let a = #[trigger] g1.definitions@[j];
                let b = g0.definitions@[j];
                a.module == b.module && a.id == b.id && a.range == b.range && a.name_range == b.name_range && a.kind == b.kind
            } by {
                if j < i {
                    let d = g1.definitions@[j];
                    assert(d == (SemanticDefinition { definition_effects: d.definition_effects, removal_risk: d.removal_risk, ..g0.definitions@[j] }));
                }
            }
            assert forall|e: DefinitionEffectKind| definition_effects_of(g1, g1.definitions@[i as int], e)
                == definition_effects_of(g0, g0.definitions@[i as int], e) by {
                lemma_effects_ignore_derived_fields(g0, g1, i as int, e);
            }
        }
        let ghost items = effects@;
        let id = builder.intern_definition_effect_set(effects);
        let ghost g2 = builder.view_graph();
        let count = builder.graph().definition_effect_sets[id.0 as usize].effects.len();
        let risk = if count == 0 {
            RemovalRisk::NoKnownDefinitionEffects
        } else {
            RemovalRisk::Review(id)
        };
        builder.set_definition_effects(DefId::new(i as u32), id, risk);
        proof {
            let g3 = builder.view_graph();
            assert(g3.definition_effect_sets == g2.definition_effect_sets);
            assert(g2.definition_effect_sets@.take(g1.definition_effect_sets@.len() as int) == g1.definition_effect_sets@);
            assert(g1.definitions@[i as int] == g0.definitions@[i as int]);
            assert(g3.definitions@[i as int] == (SemanticDefinition {
                definition_effects: id,
                removal_risk: risk,
                ..g1.definitions@[i as int]
            }));
            assert forall|e: DefinitionEffectKind| effect_set_members(g3, id).contains(e)
                <==> definition_effects_of(g0, g0.definitions@[i as int], e) by {
                assert(effect_set_members(g3, id) == effect_set_members(g2, id));
                assert(effect_set_members(g2, id).contains(e) <==> items.contains(e));
                assert(items.contains(e) <==> definition_effects_of(g1, g1.definitions@[i as int], e));
                assert(definition_effects_of(g1, g1.definitions@[i as int], e)
                    == definition_effects_of(g0, g0.definitions@[i as int], e));
            }
            assert forall|j: int| 0 <= j < i implies {
                let d = #[trigger] g3.definitions@[j];
                let id = d.definition_effects;
                &&& d == (SemanticDefinition {
                    definition_effects: id,
                    removal_risk: d.removal_risk,
                    ..g0.definitions@[j]
                })
                &&& id.0 < g3.definition_effect_sets@.len()
                &&& forall|e: DefinitionEffectKind| effect_set_members(g3, id).contains(e)
                    <==> definition_effects_of(g0, g0.definitions@[j], e)
                &&& d.removal_risk == if effect_set_members(g3, id).len() == 0 {
                    RemovalRisk::NoKnownDefinitionEffects
                } else {
                    RemovalRisk::Review(id)
                }
            } by {
                assert(g3.definitions@[j] == g1.definitions@[j]);
                let id = g1.definitions@[j].definition_effects;
                assert(g2.definition_effect_sets@.take(g1.definition_effect_sets@.len() as int)[id.0 as int]
                    == g1.definition_effect_sets@[id.0 as int]);
            }
            assert(g3.definition_effect_sets@.take(g0.definition_effect_sets@.len() as int) =~= g0.definition_effect_sets@) by {
                assert forall|t: int| 0 <= t < g0.definition_effect_sets@.len() implies
                    g3.definition_effect_sets@[t] == g0.definition_effect_sets@[t] by {
                    assert(g1.definition_effect_sets@.take(g0.definition_effect_sets@.len() as int)[t] == g0.definition_effect_sets@[t]);
                    assert(g2.definition_effect_sets@.take(g1.definition_effect_sets@.len() as int)[t] == g1.definition_effect_sets@[t]);
                }
            }
        }
        i = i + 1;
    }
}

/// The effects of a definition depend on the references and on the modules, identifiers,
/// ranges and kinds of the definitions, none of which deriving effects changes.
proof fn lemma_effects_ignore_derived_fields(g0: SemanticGraph, g1: SemanticGraph, i: int, e: DefinitionEffectKind)
    requires
        0 <= i < g0.definitions@.len(),
        g1.references == g0.references,
        g1.definitions@.len() == g0.definitions@.len(),
        forall|j: int| 0 <= j < g0.definitions@.len() ==> {
            let a = #[trigger] g1.definitions@[j];
            let b = g0.definitions@[j];
            a.module == b.module && a.id == b.id && a.range == b.range && a.name_range == b.name_range && a.kind == b.kind
        },
    ensures
        definition_effects_of(g1, g1.definitions@[i], e) == definition_effects_of(g0, g0.definitions@[i], e),
{
    let d0 = g0.definitions@[i];
    let d1 = g1.definitions@[i];
    assert forall|k: int| 0 <= k < g0.references@.len() implies
        belongs_to(g1.references@[k], d1, g1.definitions@) == belongs_to(g0.references@[k], d0, g0.definitions@) by {
        let r = g0.references@[k];
        if definition_between(r, d1, g1.definitions@) {
            let j = choose|j: int| 0 <= j < g1.definitions@.len() && (#[trigger] g1.definitions@[j]).module == d1.module
                && g1.definitions@[j].id != d1.id && g1.definitions@[j].name_range.start > r.span.end
                && g1.definitions@[j].name_range.start < d1.name_range.start;
            assert(g0.definitions@[j].module == d0.module);
        }
        if definition_between(r, d0, g0.definitions@) {
            let j = choose|j: int| 0 <= j < g0.definitions@.len() && (#[trigger] g0.definitions@[j]).module == d0.module
                && g0.definitions@[j].id != d0.id && g0.definitions@[j].name_range.start > r.span.end
                && g0.definitions@[j].name_range.start < d0.name_range.start;
            assert(g1.definitions@[j].module == d1.module);
        }
    }
    if definition_effects_of(g1, d1, e) {
        if exists|k: int| 0 <= k < g1.references@.len() && (#[trigger] g1.references@[k]).module == d1.module
            && belongs_to(g1.references@[k], d1, g1.definitions@) && reference_effect(g1.references@[k]) == Some(e) {
            let k = choose|k: int| 0 <= k < g1.references@.len() && (#[trigger] g1.references@[k]).module == d1.module
                && belongs_to(g1.references@[k], d1, g1.definitions@) && reference_effect(g1.references@[k]) == Some(e);
            assert(g0.references@[k].module == d0.module);
        }
    }
    if definition_effects_of(g0, d0, e) {
        if exists|k: int| 0 <= k < g0.references@.len() && (#[trigger] g0.references@[k]).module == d0.module
            && belongs_to(g0.references@[k], d0, g0.definitions@) && reference_effect(g0.references@[k]) == Some(e) {
            let k = choose|k: int| 0 <= k < g0.references@.len() && (#[trigger] g0.references@[k]).module == d0.module
                && belongs_to(g0.references@[k], d0, g0.definitions@) && reference_effect(g0.references@[k]) == Some(e);
            assert(g1.references@[k].module == d1.module);
        }
    }
}

// ----- internal candidates -----

/// The list stored under `k`, or the empty list.
pub open spec fn list_of(m: Map<u32, Vec<u32>>, k: u32) -> Seq<u32> {
    if m.contains_key(k) {
        m[k]@
    } else {
        Seq::empty()
    }
}

/// Appends `value` to the list stored under `key`.
pub(crate) fn push_to_list(map: &mut BTreeMap<u32, Vec<u32>>, key: u32, value: u32)
    ensures
        list_of(final(map)@, key) == list_of(old(map)@, key).push(value),
        forall|k: u32| k != key ==> list_of(final(map)@, k) == list_of(old(map)@, k),
{
    let ghost m0 = map@;
    let mut list = match map.remove(&key) {
        Some(list) => list,
        None => Vec::new(),
    };
    assert(list@ == list_of(m0, key));
    list.push(value);
    map.insert(key, list);
    proof {
        assert forall|k: u32| k != key implies list_of(map@, k) == list_of(m0, k) by {
            assert(map@.contains_key(k) == m0.contains_key(k));
        }
    }
}

/// A reference's flow facts make bindings of `b` reach it.
pub open spec fn known_reaches(g: SemanticGraph, r: ReferenceFact, b: BindingId) -> bool {
    r.binding_state matches ReferenceBindingState::Analyzed(st) && st.bindings.0 < g.binding_sets@.len()
        && g.binding_sets@[st.bindings.0 as int].bindings@.contains(b)
}

/// A reference whose flow was not analyzed, or whose analyzed flow leaves a run-time lookup
/// or an uncertainty.
pub open spec fn flow_unsupported(g: SemanticGraph, r: ReferenceFact) -> bool {
    match r.binding_state {
        ReferenceBindingState::Analyzed(st) => st.bindings.0 < g.binding_sets@.len() && (st.residual
            != ResidualLookup::NoResidual || (st.uncertainty.0 < g.flow_uncertainty_sets@.len()
            && g.flow_uncertainty_sets@[st.uncertainty.0 as int].uncertainties@.len() > 0)),
        _ => true,
    }
}

/// An unsupported reference that may read the symbol of binding `b`.
pub open spec fn unsupported_reaches(g: SemanticGraph, r: ReferenceFact, b: BindingId) -> bool {
    &&& flow_unsupported(g, r)
    &&& b.0 < g.bindings@.len()
    &&& candidate_symbol(r, g.bindings@[b.0 as int].symbol)
}

/// Reference `x` reaches binding `b` through known flow.
pub open spec fn known_inbound(g: SemanticGraph, b: BindingId, x: u32) -> bool {
    x < g.references@.len() && known_reaches(g, g.references@[x as int], b)
}

/// Reference `x` may reach binding `b` through unsupported flow.
pub open spec fn unsupported_inbound(g: SemanticGraph, b: BindingId, x: u32) -> bool {
    x < g.references@.len() && unsupported_reaches(g, g.references@[x as int], b)
}

/// The known inbound references of every binding.
fn known_inbound_map(g: &SemanticGraph) -> (m: BTreeMap<u32, Vec<u32>>)
    requires
        arena_ids_match(*g),
    ensures
        forall|b: u32, x: u32| #[trigger] list_of(m@, b).contains(x) <==> known_inbound(*g, BindingId(b), x),
{
    let mut m: BTreeMap<u32, Vec<u32>> = BTreeMap::new();
    let mut k: usize = 0;
    while k < g.references.len()
        invariant
            0 <= k <= g.references@.len(),
            arena_ids_match(*g),
            forall|b: u32, x: u32| #[trigger] list_of(m@, b).contains(x) <==> (x < k && known_reaches(*g, g.references@[x as int], BindingId(b))),
        decreases g.references@.len() - k,
    {
        assert(g.references@[k as int].id.0 == k);
        let ghost m0 = m@;
        if let ReferenceBindingState::Analyzed(state) = g.references[k].binding_state {
            if (state.bindings.0 as usize) < g.binding_sets.len() {
                let set = &g.binding_sets[state.bindings.0 as usize].bindings;
                let mut j: usize = 0;
                while j < set.len()
                    invariant
                        0 <= j <= set@.len(),
                        k < g.references@.len(),
                        k <= u32::MAX,
                        forall|b: u32, x: u32| #[trigger] list_of(m@, b).contains(x) <==> ((x < k && known_reaches(*g, g.references@[x as int], BindingId(b)))
                            || (x == k && exists|t: int| 0 <= t < j && #[trigger] set@[t] == BindingId(b))),
                    decreases set@.len() - j,
                {
                    let ghost m1 = m@;
                    push_to_list(&mut m, set[j].0, k as u32);
                    proof {
                        assert forall|b: u32, x: u32| #[trigger] list_of(m@, b).contains(x) <==> ((x < k && known_reaches(*g, g.references@[x as int], BindingId(b)))
                            || (x == k && exists|t: int| 0 <= t < j + 1 && #[trigger] set@[t] == BindingId(b))) by {
                            if b == set@[j as int].0 {
                                assert(list_of(m@, b) == list_of(m1, b).push(k as u32));
                                if list_of(m@, b).contains(x) && x != k {
                                    let t = choose|t: int| 0 <= t < list_of(m@, b).len() && list_of(m@, b)[t] == x;
                                    assert(list_of(m1, b)[t] == x);
                                }
                                if list_of(m1, b).contains(x) {
                                    let t = choose|t: int| 0 <= t < list_of(m1, b).len() && list_of(m1, b)[t] == x;
                                    assert(list_of(m@, b)[t] == x);
                                }
                                if x == k {
                                    assert(list_of(m@, b)[list_of(m1, b).len() as int] == x);
                                    assert(set@[j as int] == BindingId(b));
                                }
                            } else {
                                if x == k && exists|t: int| 0 <= t < j + 1 && #[trigger] set@[t] == BindingId(b) {
                                    let t = choose|t: int| 0 <= t < j + 1 && #[trigger] set@[t] == BindingId(b);
                                    assert(t != j);
                                }
                            }
                        }
                    }
                    j = j + 1;
                }
                proof {
                    assert forall|b: u32, x: u32| #[trigger] list_of(m@, b).contains(x) <==> (x < k + 1 && known_reaches(*g, g.references@[x as int], BindingId(b))) by {
                        if x == k {
                            if set@.contains(BindingId(b)) {
                                let t = choose|t: int| 0 <= t < set@.len() && set@[t] == BindingId(b);
                            }
                        }
                    }
                }
            } else {
                proof {
                    assert forall|b: u32, x: u32| #[trigger] list_of(m@, b).contains(x) <==> (x < k + 1 && known_reaches(*g, g.references@[x as int], BindingId(b))) by {
                    }
                }
            }
        }
        k = k + 1;
    }
    m
}

/// The bindings of every symbol.
fn bindings_by_symbol(g: &SemanticGraph) -> (m: BTreeMap<u32, Vec<u32>>)
    requires
        arena_ids_match(*g),
    ensures
        forall|s: u32, b: u32| #[trigger] list_of(m@, s).contains(b) <==> (b < g.bindings@.len() && g.bindings@[b as int].symbol.0 == s),
{
    let mut m: BTreeMap<u32, Vec<u32>> = BTreeMap::new();
    let mut i: usize = 0;
    while i < g.bindings.len()
        invariant
            0 <= i <= g.bindings@.len(),
            arena_ids_match(*g),
            forall|s: u32, b: u32| #[trigger] list_of(m@, s).contains(b) <==> (b < i && g.bindings@[b as int].symbol.0 == s),
        decreases g.bindings@.len() - i,
    {
        assert(g.bindings@[i as int].id.0 == i);
        let ghost m1 = m@;
        let symbol = g.bindings[i].symbol.0;
        push_to_list(&mut m, symbol, i as u32);
        proof {
            assert forall|s: u32, b: u32| #[trigger] list_of(m@, s).contains(b) <==> (b < i + 1 && g.bindings@[b as int].symbol.0 == s) by {
                if s == symbol {
                    if list_of(m@, s).contains(b) && b != i {
                        let t = choose|t: int| 0 <= t < list_of(m@, s).len() && list_of(m@, s)[t] == b;
                        assert(list_of(m1, s)[t] == b);
                    }
                    if list_of(m1, s).contains(b) {
                        let t = choose|t: int| 0 <= t < list_of(m1, s).len() && list_of(m1, s)[t] == b;
                        assert(list_of(m@, s)[t] == b);
                    }
                    if b == i {
                        assert(list_of(m@, s)[list_of(m1, s).len() as int] == b);
                    }
                }
            }
        }
        i = i + 1;
    }
    m
}

/// Whether the flow facts of `reference` are unsupported.
fn reference_flow_unsupported(g: &SemanticGraph, reference: &ReferenceFact) -> (yes: bool)
    ensures
        yes == flow_unsupported(*g, *reference),
{
    match reference.binding_state {
        ReferenceBindingState::Analyzed(state) => {
            (state.bindings.0 as usize) < g.binding_sets.len() && (state.residual != ResidualLookup::NoResidual
                || ((state.uncertainty.0 as usize) < g.flow_uncertainty_sets.len()
                && g.flow_uncertainty_sets[state.uncertainty.0 as usize].uncertainties.len() > 0))
        },
        _ => true,
    }
}

/// The unsupported inbound references of every binding.
fn unsupported_inbound_map(g: &SemanticGraph, by_symbol: &BTreeMap<u32, Vec<u32>>) -> (m: BTreeMap<u32, Vec<u32>>)
    requires
        arena_ids_match(*g),
        forall|s: u32, b: u32| #[trigger] list_of(by_symbol@, s).contains(b) <==> (b < g.bindings@.len() && g.bindings@[b as int].symbol.0 == s),
    ensures
        forall|b: u32, x: u32| #[trigger] list_of(m@, b).contains(x) <==> unsupported_inbound(*g, BindingId(b), x),
{
    let mut m: BTreeMap<u32, Vec<u32>> = BTreeMap::new();
    let mut k: usize = 0;
    while k < g.references.len()
        invariant
            0 <= k <= g.references@.len(),
            arena_ids_match(*g),
            forall|s: u32, b: u32| #[trigger] list_of(by_symbol@, s).contains(b) <==> (b < g.bindings@.len() && g.bindings@[b as int].symbol.0 == s),
            forall|b: u32, x: u32| #[trigger] list_of(m@, b).contains(x) <==> (x < k && unsupported_reaches(*g, g.references@[x as int], BindingId(b))),
        decreases g.references@.len() - k,
    {
        assert(g.references@[k as int].id.0 == k);
        let reference = &g.references[k];
        if reference_flow_unsupported(g, reference) {
            let symbols = candidate_symbols_for_reference(reference);
            let mut t: usize = 0;
            while t < symbols.len()
                invariant
                    0 <= t <= symbols@.len(),
                    k < g.references@.len(),
                    k <= u32::MAX,
                    *reference == g.references@[k as int],
                    flow_unsupported(*g, *reference),
                    forall|s: SymbolId| symbols@.contains(s) <==> candidate_symbol(*reference, s),
                    forall|s: u32, b: u32| #[trigger] list_of(by_symbol@, s).contains(b) <==> (b < g.bindings@.len() && g.bindings@[b as int].symbol.0 == s),
                    forall|b: u32, x: u32| #[trigger] list_of(m@, b).contains(x) <==> ((x < k && unsupported_reaches(*g, g.references@[x as int], BindingId(b)))
                        || (x == k && b < g.bindings@.len() && exists|u: int| 0 <= u < t && #[trigger] symbols@[u] == g.bindings@[b as int].symbol)),
                decreases symbols@.len() - t,
            {
                let ghost m_t = m@;
                let symbol = symbols[t];
                match by_symbol.get(&symbol.0) {
                    Some(list) => {
                        let mut u: usize = 0;
                        while u < list.len()
                            invariant
                                0 <= u <= list@.len(),
                                k < g.references@.len(),
                                k <= u32::MAX,
                                t < symbols@.len(),
                                symbol == symbols@[t as int],
                                list@ == list_of(by_symbol@, symbol.0),
                                forall|s: u32, b: u32| #[trigger] list_of(by_symbol@, s).contains(b) <==> (b < g.bindings@.len() && g.bindings@[b as int].symbol.0 == s),
                                forall|b: u32, x: u32| #[trigger] list_of(m@, b).contains(x) <==> (list_of(m_t, b).contains(x)
                                    || (x == k && exists|v: int| 0 <= v < u && #[trigger] list@[v] == b)),
                            decreases list@.len() - u,
                        {
                            let ghost m1 = m@;
                            push_to_list(&mut m, list[u], k as u32);
                            proof {
                                assert forall|b: u32, x: u32| #[trigger] list_of(m@, b).contains(x) <==> (list_of(m_t, b).contains(x)
                                    || (x == k && exists|v: int| 0 <= v < u + 1 && #[trigger] list@[v] == b)) by {
                                    if b == list@[u as int] {
                                        if list_of(m@, b).contains(x) && x != k {
                                            let w = choose|w: int| 0 <= w < list_of(m@, b).len() && list_of(m@, b)[w] == x;
                                            assert(list_of(m1, b)[w] == x);
                                        }
                                        if list_of(m1, b).contains(x) {
                                            let w = choose|w: int| 0 <= w < list_of(m1, b).len() && list_of(m1, b)[w] == x;
                                            assert(list_of(m@, b)[w] == x);
                                        }
                                        if x == k {
                                            assert(list_of(m@, b)[list_of(m1, b).len() as int] == x);
                                        }
                                    } else {
                                        if x == k && exists|v: int| 0 <= v < u + 1 && #[trigger] list@[v] == b {
                                            let v = choose|v: int| 0 <= v < u + 1 && #[trigger] list@[v] == b;
                                            assert(v != u);
                                        }
                                    }
                                }
                            }
                            u = u + 1;
                        }
                        proof {
                            assert forall|b: u32, x: u32| #[trigger] list_of(m@, b).contains(x) <==> ((x < k && unsupported_reaches(*g, g.references@[x as int], BindingId(b)))
                                || (x == k && b < g.bindings@.len() && exists|u: int| 0 <= u < t + 1 && #[trigger] symbols@[u] == g.bindings@[b as int].symbol)) by {
                                if x == k && exists|v: int| 0 <= v < list@.len() && #[trigger] list@[v] == b {
                                    let v = choose|v: int| 0 <= v < list@.len() && #[trigger] list@[v] == b;
                                    assert(list_of(by_symbol@, symbol.0).contains(b));
                                    assert(symbols@[t as int] == g.bindings@[b as int].symbol);
                                }
                                if x == k && b < g.bindings@.len() && exists|u: int| 0 <= u < t + 1 && #[trigger] symbols@[u] == g.bindings@[b as int].symbol {
                                    let u = choose|u: int| 0 <= u < t + 1 && #[trigger] symbols@[u] == g.bindings@[b as int].symbol;
                                    if u == t {
                                        assert(list_of(by_symbol@, symbol.0).contains(b));
                                        let v = choose|v: int| 0 <= v < list@.len() && list@[v] == b;
                                        assert(list@[v] == b);
                                    }
                                }
                            }
                        }
                    },
                    None => {
                        proof {
                            assert forall|b: u32, x: u32| #[trigger] list_of(m@, b).contains(x) <==> ((x < k && unsupported_reaches(*g, g.references@[x as int], BindingId(b)))
                                || (x == k && b < g.bindings@.len() && exists|u: int| 0 <= u < t + 1 && #[trigger] symbols@[u] == g.bindings@[b as int].symbol)) by {
                                if x == k && b < g.bindings@.len() && exists|u: int| 0 <= u < t + 1 && #[trigger] symbols@[u] == g.bindings@[b as int].symbol {
                                    let u = choose|u: int| 0 <= u < t + 1 && #[trigger] symbols@[u] == g.bindings@[b as int].symbol;
                                    if u == t {
                                        assert(list_of(by_symbol@, symbol.0).contains(b));
                                    }
                                }
                            }
                        }
                    },
                }
                t = t + 1;
            }
            proof {
                assert forall|b: u32, x: u32| #[trigger] list_of(m@, b).contains(x) <==> (x < k + 1 && unsupported_reaches(*g, g.references@[x as int], BindingId(b))) by {
                    if x == k && b < g.bindings@.len() {
                        let s = g.bindings@[b as int].symbol;
                        if candidate_symbol(*reference, s) {
                            assert(symbols@.contains(s));
                            let u = choose|u: int| 0 <= u < symbols@.len() && symbols@[u] == s;
                            assert(symbols@[u] == g.bindings@[b as int].symbol);
                        }
                    }
                }
            }
        }
        k = k + 1;
    }
    m
}

/// Some annotation of module `m` could not be resolved because it is unsupported.
pub open spec fn module_has_unsupported_annotation(g: SemanticGraph, m: ModuleId) -> bool {
    exists|k: int|
        0 <= k < g.references@.len() && (#[trigger] g.references@[k]).module == m
            && g.references@[k].role == ReferenceRole::Annotation
            && g.references@[k].lexical_target == Resolution::Unresolved(UnresolvedReason::UnsupportedAnnotation)
}

/// The modules with an unsupported annotation.
fn modules_with_unsupported_annotations(g: &SemanticGraph) -> (modules: Vec<u32>)
    ensures
        forall|m: u32| modules@.contains(m) <==> module_has_unsupported_annotation(*g, ModuleId(m)),
{
    let mut modules: Vec<u32> = Vec::new();
    let mut k: usize = 0;
    while k < g.references.len()
        invariant
            0 <= k <= g.references@.len(),
            forall|m: u32| modules@.contains(m) <==> exists|j: int|
                0 <= j < k && (#[trigger] g.references@[j]).module == ModuleId(m)
                    && g.references@[j].role == ReferenceRole::Annotation
                    && g.references@[j].lexical_target == Resolution::Unresolved(UnresolvedReason::UnsupportedAnnotation),
        decreases g.references@.len() - k,
    {
        let reference = &g.references[k];
        let ghost before = modules@;
        let unsupported = match &reference.lexical_target {
            Resolution::Unresolved(UnresolvedReason::UnsupportedAnnotation) => true,
            _ => false,
        };
        if reference.role == ReferenceRole::Annotation && unsupported {
            modules.push(reference.module.0);
        }
        proof {
            assert forall|m: u32| modules@.contains(m) <==> exists|j: int|
                0 <= j < k + 1 && (#[trigger] g.references@[j]).module == ModuleId(m)
                    && g.references@[j].role == ReferenceRole::Annotation
                    && g.references@[j].lexical_target == Resolution::Unresolved(UnresolvedReason::UnsupportedAnnotation) by {
                if modules@.contains(m) {
                    let t = choose|t: int| 0 <= t < modules@.len() && modules@[t] == m;
                    if t < before.len() {
                        assert(before[t] == m);
                        assert(before.contains(m));
                    } else {
                        assert(g.references@[k as int].module == ModuleId(m));
                    }
                }
                if exists|j: int|
                    0 <= j < k + 1 && (#[trigger] g.references@[j]).module == ModuleId(m)
                        && g.references@[j].role == ReferenceRole::Annotation
                        && g.references@[j].lexical_target == Resolution::Unresolved(UnresolvedReason::UnsupportedAnnotation) {
                    let j = choose|j: int|
                        0 <= j < k + 1 && (#[trigger] g.references@[j]).module == ModuleId(m)
                            && g.references@[j].role == ReferenceRole::Annotation
                            && g.references@[j].lexical_target == Resolution::Unresolved(UnresolvedReason::UnsupportedAnnotation);
                    if j < k {
                        assert(before.contains(m));
                        let t = choose|t: int| 0 <= t < before.len() && before[t] == m;
                        assert(modules@[t] == m);
                    } else {
                        assert(modules@[modules@.len() - 1] == m);
                    }
                }
            }
        }
        k = k + 1;
    }
    modules
}

/// Some reference reaches binding `b` through known flow.
pub open spec fn has_known_inbound(g: SemanticGraph, b: BindingId) -> bool {
    exists|x: u32| known_inbound(g, b, x)
}

/// Some reference may reach binding `b` through unsupported flow.
pub open spec fn has_unsupported_inbound(g: SemanticGraph, b: BindingId) -> bool {
    exists|x: u32| unsupported_inbound(g, b, x)
}

pub open spec fn rule_of(kind: DefinitionKind) -> InternalCandidateRule {
    match kind {
        DefinitionKind::Function => InternalCandidateRule::UnreferencedFunction,
        DefinitionKind::Class => InternalCandidateRule::UnreferencedClass,
    }
}

/// A definition stays a candidate only when it is reportable, not an overload declaration,
/// and nothing in its module (not even an unsupported annotation) may refer to it.
pub open spec fn candidate_disposition(g: SemanticGraph, d: SemanticDefinition) -> InternalCandidateDisposition {
    if d.role != DefinitionRole::OverloadDeclaration && d.reportable && !has_known_inbound(g, d.binding)
        && !has_unsupported_inbound(g, d.binding) && !module_has_unsupported_annotation(g, d.module) {
        InternalCandidateDisposition::Candidate
    } else {
        InternalCandidateDisposition::Suppressed
    }
}

/// The reasons for a candidate's disposition, in their declaration order.
pub open spec fn candidate_reasons(g: SemanticGraph, d: SemanticDefinition) -> Seq<InternalCandidateReason> {
    if d.role == DefinitionRole::OverloadDeclaration {
        seq![InternalCandidateReason::OverloadDeclaration]
    } else if !d.reportable {
        seq![InternalCandidateReason::NonReportableDefinition]
    } else if !has_known_inbound(g, d.binding) && !has_unsupported_inbound(g, d.binding)
        && !module_has_unsupported_annotation(g, d.module) {
        seq![InternalCandidateReason::NoSameModuleReferences, InternalCandidateReason::CrossModuleAnalysisDeferred]
    } else {
        (if has_known_inbound(g, d.binding) {
            seq![InternalCandidateReason::HasSameModuleReferences]
        } else {
            Seq::empty()
        }) + (if has_unsupported_inbound(g, d.binding) || module_has_unsupported_annotation(g, d.module) {
            seq![InternalCandidateReason::UnresolvedOrUnsupportedReference]
        } else {
            Seq::empty()
        })
    }
}

pub open spec fn reference_raw(s: Seq<ReferenceId>) -> Seq<u32> {
    s.map_values(|r: ReferenceId| r.0)
}

/// `c` is the internal candidate of definition `d` in `g`.
pub open spec fn is_candidate_for(g: SemanticGraph, d: SemanticDefinition, c: InternalCandidateFact) -> bool {
    &&& c.definition == d.id
    &&& c.rule == rule_of(d.kind)
    &&& c.disposition == candidate_disposition(g, d)
    &&& c.reasons@ == candidate_reasons(g, d)
    &&& strictly_increasing_u32(reference_raw(c.inbound_references@))
    &&& forall|x: u32| reference_raw(c.inbound_references@).contains(x) <==> (known_inbound(g, d.binding, x)
        || unsupported_inbound(g, d.binding, x))
    &&& c.removal_risk == d.removal_risk
}

/// `after` is `before` with one internal candidate appended for each definition, in order.
pub open spec fn candidates_built(before: SemanticGraph, after: SemanticGraph) -> bool {
    let n0 = before.internal_candidates@.len();
    &&& after == (SemanticGraph { internal_candidates: after.internal_candidates, ..before })
    &&& after.internal_candidates@.len() == n0 + before.definitions@.len()
    &&& after.internal_candidates@.take(n0 as int) == before.internal_candidates@
    &&& forall|i: int| 0 <= i < before.definitions@.len() ==> {
        &&& (#[trigger] after.internal_candidates@[n0 + i]).id.0 == n0 + i
        &&& is_candidate_for(before, before.definitions@[i], after.internal_candidates@[n0 + i])
    }
}

/// The values stored under `key`, appended to `out`.
fn append_list(out: &mut Vec<u32>, map: &BTreeMap<u32, Vec<u32>>, key: u32)
    ensures
        final(out)@ == old(out)@ + list_of(map@, key),
{
    match map.get(&key) {
        Some(list) => {
            let mut i: usize = 0;
            while i < list.len()
                invariant
                    0 <= i <= list@.len(),
                    list@ == list_of(map@, key),
                    out@ == old(out)@ + list@.take(i as int),
                decreases list@.len() - i,
            {
                out.push(list[i]);
                assert(list@.take(i + 1) =~= list@.take(i as int).push(list@[i as int]));
                i = i + 1;
            }
            assert(list@.take(list@.len() as int) =~= list@);
        },
        None => {
            assert(out@ =~= old(out)@ + list_of(map@, key));
        },
    }
}

/// Whether `value` is in `list`.
fn contains_u32(list: &Vec<u32>, value: u32) -> (yes: bool)
    ensures
        yes == list@.contains(value),
{
    let mut i: usize = 0;
    while i < list.len()
        invariant
            0 <= i <= list@.len(),
            forall|j: int| 0 <= j < i ==> list@[j] != value,
        decreases list@.len() - i,
    {
        if list[i] == value {
            return true;
        }
        i = i + 1;
    }
    false
}

/// The reference identifiers of the given positions.
fn reference_ids(raw: &Vec<u32>) -> (ids: Vec<ReferenceId>)
    ensures
        reference_raw(ids@) == raw@,
{
    let mut ids: Vec<ReferenceId> = Vec::new();
    let mut k: usize = 0;
    while k < raw.len()
        invariant
            0 <= k <= raw@.len(),
            reference_raw(ids@) == raw@.take(k as int),
        decreases raw@.len() - k,
    {
        let ghost before = ids@;
        ids.push(ReferenceId(raw[k]));
        proof {
            assert(reference_raw(ids@) =~= reference_raw(before).push(raw@[k as int]));
            assert(raw@.take(k + 1) =~= raw@.take(k as int).push(raw@[k as int]));
        }
        k = k + 1;
    }
    assert(raw@.take(raw@.len() as int) =~= raw@);
    ids
}

/// Records one internal candidate per definition: whether it may be unused within its module,
/// why, and which references may reach it.
pub fn build_internal_candidates(builder: &mut SemanticGraphBuilder)
    requires
        old(builder).well_formed(),
        old(builder).view_graph().internal_candidates@.len() + old(builder).view_graph().definitions@.len() < u32::MAX,
    ensures
        final(builder).well_formed(),
        candidates_built(old(builder).view_graph(), final(builder).view_graph()),
{
    let ghost g0 = builder.view_graph();
    proof {
        builder.lemma_graph_well_formed();
    }
    let known = known_inbound_map(builder.graph());
    let by_symbol = bindings_by_symbol(builder.graph());
    let unsupported = unsupported_inbound_map(builder.graph(), &by_symbol);
    let annotated = modules_with_unsupported_annotations(builder.graph());
    let n = builder.graph().definitions.len();
    let ghost n0 = g0.internal_candidates@.len();
    let mut i: usize = 0;
    while i < n
        invariant
            builder.well_formed(),
            n == g0.definitions@.len(),
            0 <= i <= n,
            n0 == g0.internal_candidates@.len(),
            n0 + n < u32::MAX,
            forall|b: u32, x: u32| #[trigger] list_of(known@, b).contains(x) <==> known_inbound(g0, BindingId(b), x),
            forall|b: u32, x: u32| #[trigger] list_of(unsupported@, b).contains(x) <==> unsupported_inbound(g0, BindingId(b), x),
            forall|m: u32| annotated@.contains(m) <==> module_has_unsupported_annotation(g0, ModuleId(m)),
            builder.view_graph() == (SemanticGraph { internal_candidates: builder.view_graph().internal_candidates, ..g0 }),
            builder.view_graph().internal_candidates@.len() == n0 + i,
            builder.view_graph().internal_candidates@.take(n0 as int) == g0.internal_candidates@,
            forall|j: int| 0 <= j < i ==> {
                &&& (#[trigger] builder.view_graph().internal_candidates@[n0 + j]).id.0 == n0 + j
                &&& is_candidate_for(g0, g0.definitions@[j], builder.view_graph().internal_candidates@[n0 + j])
            },
        decreases n - i,
    {
        let ghost g1 = builder.view_graph();
        let definition = &builder.graph().definitions[i];
        let id = definition.id;
        let binding = definition.binding.0;
        let module = definition.module.0;
        let kind = definition.kind;
        let role = definition.role;
        let reportable = definition.reportable;
        let removal_risk = definition.removal_risk;
        let ghost d = g0.definitions@[i as int];
        assert(d == g1.definitions@[i as int]);
        let mut raw_known: Vec<u32> = Vec::new();
        append_list(&mut raw_known, &known, binding);
        let mut raw_all: Vec<u32> = Vec::new();
        append_list(&mut raw_all, &known, binding);
        let known_count = raw_all.len();
        append_list(&mut raw_all, &unsupported, binding);
        let has_known = known_count > 0;
        let has_unsupported = raw_all.len() > known_count;
        let module_annotation = contains_u32(&annotated, module);
        proof {
            assert(has_known == has_known_inbound(g0, d.binding)) by {
                if has_known {
                    assert(list_of(known@, binding).contains(list_of(known@, binding)[0]));
                }
                if has_known_inbound(g0, d.binding) {
                    let x = choose|x: u32| known_inbound(g0, d.binding, x);
                    assert(list_of(known@, binding).contains(x));
                }
            }
            assert(has_unsupported == has_unsupported_inbound(g0, d.binding)) by {
                assert(raw_all@.len() == list_of(known@, binding).len() + list_of(unsupported@, binding).len());
                if has_unsupported {
                    assert(list_of(unsupported@, binding).contains(list_of(unsupported@, binding)[0]));
                }
                if has_unsupported_inbound(g0, d.binding) {
                    let x = choose|x: u32| unsupported_inbound(g0, d.binding, x);
                    assert(list_of(unsupported@, binding).contains(x));
                }
            }
            assert(module_annotation == module_has_unsupported_annotation(g0, d.module));
        }
        let mut reasons: Vec<InternalCandidateReason> = Vec::new();
        let disposition = if role == DefinitionRole::OverloadDeclaration {
            reasons.push(InternalCandidateReason::OverloadDeclaration);
            InternalCandidateDisposition::Suppressed
        } else if !reportable {
            reasons.push(InternalCandidateReason::NonReportableDefinition);
            InternalCandidateDisposition::Suppressed
        } else if !has_known && !has_unsupported && !module_annotation {
            reasons.push(InternalCandidateReason::NoSameModuleReferences);
            reasons.push(InternalCandidateReason::CrossModuleAnalysisDeferred);
            InternalCandidateDisposition::Candidate
        } else {
            if has_known {
                reasons.push(InternalCandidateReason::HasSameModuleReferences);
            }
            if has_unsupported || module_annotation {
                reasons.push(InternalCandidateReason::UnresolvedOrUnsupportedReference);
            }
            InternalCandidateDisposition::Suppressed
        };
        proof {
            assert(reasons@ =~= candidate_reasons(g0, d));
        }
        let sorted = sorted_unique_u32(&raw_all);
        let inbound_references = reference_ids(&sorted);
        proof {
            assert forall|x: u32| reference_raw(inbound_references@).contains(x) <==> (known_inbound(g0, d.binding, x)
                || unsupported_inbound(g0, d.binding, x)) by {
                assert(raw_all@ == list_of(known@, binding) + list_of(unsupported@, binding));
                if raw_all@.contains(x) {
                    let t = choose|t: int| 0 <= t < raw_all@.len() && raw_all@[t] == x;
                    if t < list_of(known@, binding).len() {
                        assert(list_of(known@, binding)[t] == x);
                        assert(list_of(known@, binding).contains(x));
                    } else {
                        assert(list_of(unsupported@, binding)[t - list_of(known@, binding).len()] == x);
                        assert(list_of(unsupported@, binding).contains(x));
                    }
                }
                if list_of(known@, binding).contains(x) {
                    let t = choose|t: int| 0 <= t < list_of(known@, binding).len() && list_of(known@, binding)[t] == x;
                    assert(raw_all@[t] == x);
                }
                if list_of(unsupported@, binding).contains(x) {
                    let t = choose|t: int| 0 <= t < list_of(unsupported@, binding).len() && list_of(unsupported@, binding)[t] == x;
                    assert(raw_all@[list_of(known@, binding).len() + t] == x);
                }
            }
        }
        let input = InternalCandidateInput {
            definition: id,
            rule: candidate_rule(kind),
            disposition,
            reasons,
            inbound_references,
            removal_risk,
        };
        builder.add_internal_candidate(input);
        proof {
            let g2 = builder.view_graph();
            assert forall|j: int| 0 <= j < i + 1 implies {
                &&& (#[trigger] g2.internal_candidates@[n0 + j]).id.0 == n0 + j
                &&& is_candidate_for(g0, g0.definitions@[j], g2.internal_candidates@[n0 + j])
            } by {
                if j < i {
                    assert(g2.internal_candidates@[n0 + j] == g1.internal_candidates@[n0 + j]);
                }
            }
            assert(g2.internal_candidates@.take(n0 as int) =~= g0.internal_candidates@) by {
                assert forall|t: int| 0 <= t < n0 implies g2.internal_candidates@[t] == g0.internal_candidates@[t] by {
                    assert(g2.internal_candidates@[t] == g1.internal_candidates@[t]);
                    assert(g1.internal_candidates@.take(n0 as int)[t] == g0.internal_candidates@[t]);
                }
            }
        }
        i = i + 1;
    }
}

// ----- overload groups -----

/// Overload declarations sharing a scope and a name, waiting for their implementation.
pub struct OverloadSet {
    pub scope: ScopeId,
    pub name: Seq<char>,
    pub declarations: Seq<DefId>,
}

/// An overload group: its declarations and, when one followed them, its implementation.
pub struct OverloadGroupSpec {
    pub scope: ScopeId,
    pub name: Seq<char>,
    pub declarations: Seq<DefId>,
    pub implementation: Option<DefId>,
}

/// The scope a definition's name is bound in: that of its binding when the binding exists.
pub open spec fn binding_scope(g: SemanticGraph, d: SemanticDefinition) -> ScopeId {
    if d.binding.0 < g.bindings@.len() {
        g.bindings@[d.binding.0 as int].scope
    } else {
        d.scope
    }
}

/// The position of the pending set with the given scope and name, or `-1`.
pub open spec fn find_pending(p: Seq<OverloadSet>, scope: ScopeId, name: Seq<char>) -> int
    decreases p.len(),
{
    if p.len() == 0 {
        -1
    } else if p.last().scope == scope && p.last().name == name {
        p.len() - 1
    } else {
        find_pending(p.drop_last(), scope, name)
    }
}

/// The pending declaration sets and the completed groups after the first `n` definitions:
/// a declaration joins the set of its scope and name; any other definition with a pending
/// set completes it as the implementation.
pub open spec fn overload_pass(g: SemanticGraph, n: nat) -> (Seq<OverloadSet>, Seq<OverloadGroupSpec>)
    decreases n,
{
    if n == 0 || n > g.definitions@.len() {
        (Seq::empty(), Seq::empty())
    } else {
        let prev = overload_pass(g, (n - 1) as nat);
        let p = prev.0;
        let gs = prev.1;
        let d = g.definitions@[n - 1];
        let scope = binding_scope(g, d);
        let k = find_pending(p, scope, d.name@);
        if d.role == DefinitionRole::OverloadDeclaration {
            if k >= 0 {
                (p.update(k, OverloadSet { declarations: p[k].declarations.push(d.id), ..p[k] }), gs)
            } else {
                (p.push(OverloadSet { scope, name: d.name@, declarations: seq![d.id] }), gs)
            }
        } else if k >= 0 {
            (p.remove(k), gs.push(OverloadGroupSpec { scope, name: d.name@, declarations: p[k].declarations, implementation: Some(d.id) }))
        } else {
            (p, gs)
        }
    }
}

/// The definitions with the role of `id` set.
pub open spec fn set_role(defs: Seq<SemanticDefinition>, id: DefId, role: DefinitionRole, group: OverloadGroupId) -> Seq<SemanticDefinition> {
    if id.0 < defs.len() {
        defs.update(id.0 as int, SemanticDefinition { role, overload_group: Some(group), ..defs[id.0 as int] })
    } else {
        defs
    }
}

/// The definitions with the role of each of `ids` set, in order.
pub open spec fn set_roles(defs: Seq<SemanticDefinition>, ids: Seq<DefId>, role: DefinitionRole, group: OverloadGroupId) -> Seq<SemanticDefinition>
    decreases ids.len(),
{
    if ids.len() == 0 {
        defs
    } else {
        set_role(set_roles(defs, ids.drop_last(), role, group), ids.last(), role, group)
    }
}

/// The definitions after the groups, numbered from `base`, set the roles of their members.
pub open spec fn apply_group_roles(defs: Seq<SemanticDefinition>, groups: Seq<OverloadGroupSpec>, base: nat) -> Seq<SemanticDefinition>
    decreases groups.len(),
{
    if groups.len() == 0 {
        defs
    } else {
        let prev = apply_group_roles(defs, groups.drop_last(), base);
        let gid = OverloadGroupId((base + groups.len() - 1) as u32);
        let with_declarations = set_roles(prev, groups.last().declarations, DefinitionRole::OverloadDeclaration, gid);
        match groups.last().implementation {
            Some(imp) => set_role(with_declarations, imp, DefinitionRole::OverloadImplementation, gid),
            None => with_declarations,
        }
    }
}

pub open spec fn group_view(f: OverloadGroupFact) -> OverloadGroupSpec {
    OverloadGroupSpec { scope: f.scope, name: f.name@, declarations: f.declarations@, implementation: f.implementation }
}

pub open spec fn group_views(s: Seq<OverloadGroupFact>) -> Seq<OverloadGroupSpec> {
    s.map_values(|f: OverloadGroupFact| group_view(f))
}

/// The sort key of a pending set: its scope, then its name.
pub open spec fn overload_set_key(scope: ScopeId, name: Seq<char>) -> Seq<int> {
    num_key(scope.0 as int) + str_key(name)
}

/// A pending set of overload declarations, as the executable grouping keeps it.
pub struct PendingOverloads {
    pub scope: ScopeId,
    pub name: String,
    pub declarations: Vec<DefId>,
}

pub open spec fn pending_view(p: PendingOverloads) -> OverloadSet {
    OverloadSet { scope: p.scope, name: p.name@, declarations: p.declarations@ }
}

pub open spec fn pending_views(s: Seq<PendingOverloads>) -> Seq<OverloadSet> {
    s.map_values(|p: PendingOverloads| pending_view(p))
}

impl SortKey for PendingOverloads {
    open spec fn sort_key(&self) -> Seq<int> {
        overload_set_key(self.scope, self.name@)
    }

    fn key_less(&self, other: &Self) -> (less: bool) {
        proof {
            lemma_num_key_separated(self.scope.0 as int, other.scope.0 as int);
            lemma_lex_concat(num_key(self.scope.0 as int), str_key(self.name@), num_key(other.scope.0 as int), str_key(other.name@));
        }
        if self.scope.0 != other.scope.0 {
            assert(num_key(self.scope.0 as int)[0] == self.scope.0);
            self.scope.0 < other.scope.0
        } else {
            assert(num_key(self.scope.0 as int) =~= num_key(other.scope.0 as int));
            compare_strs(self.name.as_str(), other.name.as_str()) == -1
        }
    }
}

/// Every definition mentioned by the pending sets and groups comes before position `n`.
pub open spec fn pass_ids_below(p: Seq<OverloadSet>, gs: Seq<OverloadGroupSpec>, n: int) -> bool {
    &&& forall|k: int, t: int| 0 <= k < p.len() && 0 <= t < p[k].declarations.len() ==> (#[trigger] p[k].declarations[t]).0 < n
    &&& forall|k: int, t: int| 0 <= k < gs.len() && 0 <= t < gs[k].declarations.len() ==> (#[trigger] gs[k].declarations[t]).0 < n
    &&& forall|k: int| 0 <= k < gs.len() ==> implementation_below(#[trigger] gs[k], n)
}

pub open spec fn implementation_below(gr: OverloadGroupSpec, n: int) -> bool {
    match gr.implementation {
        Some(imp) => imp.0 < n,
        None => true,
    }
}

proof fn lemma_find_pending(p: Seq<OverloadSet>, scope: ScopeId, name: Seq<char>)
    ensures
        -1 <= find_pending(p, scope, name) < p.len(),
        find_pending(p, scope, name) >= 0 ==> p[find_pending(p, scope, name)].scope == scope
            && p[find_pending(p, scope, name)].name == name,
        find_pending(p, scope, name) == -1 ==> forall|k: int| 0 <= k < p.len() ==> !(#[trigger] p[k].scope == scope && p[k].name == name),
    decreases p.len(),
{
    if p.len() > 0 {
        lemma_find_pending(p.drop_last(), scope, name);
        if !(p.last().scope == scope && p.last().name == name) {
            assert forall|k: int| 0 <= k < p.len() - 1 implies p[k] == p.drop_last()[k] by {}
        }
    }
}

/// Every definition the pass mentions is among the first `n`, and the identifiers of the
/// first `n` definitions are their positions.
proof fn lemma_pass_ids_below(g: SemanticGraph, n: nat)
    requires
        arena_ids_match(g),
        n <= g.definitions@.len(),
    ensures
        pass_ids_below(overload_pass(g, n).0, overload_pass(g, n).1, n as int),
    decreases n,
{
    if n > 0 {
        lemma_pass_ids_below(g, (n - 1) as nat);
        let prev = overload_pass(g, (n - 1) as nat);
        let d = g.definitions@[n - 1];
        assert(d.id.0 == n - 1);
        lemma_find_pending(prev.0, binding_scope(g, d), d.name@);
        let k = find_pending(prev.0, binding_scope(g, d), d.name@);
        let cur = overload_pass(g, n);
        if d.role == DefinitionRole::OverloadDeclaration {
            if k >= 0 {
                assert forall|a: int, t: int| 0 <= a < cur.0.len() && 0 <= t < cur.0[a].declarations.len() implies (#[trigger] cur.0[a].declarations[t]).0 < n by {
                    if a == k && t == cur.0[a].declarations.len() - 1 {
                    } else {
                        assert(cur.0[a].declarations[t] == prev.0[a].declarations[t]);
                    }
                }
            } else {
                assert forall|a: int, t: int| 0 <= a < cur.0.len() && 0 <= t < cur.0[a].declarations.len() implies (#[trigger] cur.0[a].declarations[t]).0 < n by {
                    if a < prev.0.len() {
                        assert(cur.0[a] == prev.0[a]);
                    }
                }
            }
        } else if k >= 0 {
            assert forall|a: int, t: int| 0 <= a < cur.0.len() && 0 <= t < cur.0[a].declarations.len() implies (#[trigger] cur.0[a].declarations[t]).0 < n by {
                if a < k {
                    assert(cur.0[a] == prev.0[a]);
                } else {
                    assert(cur.0[a] == prev.0[a + 1]);
                }
            }
            assert forall|a: int, t: int| 0 <= a < cur.1.len() && 0 <= t < cur.1[a].declarations.len() implies (#[trigger] cur.1[a].declarations[t]).0 < n by {
                if a < prev.1.len() {
                    assert(cur.1[a] == prev.1[a]);
                } else {
                    assert(cur.1[a].declarations[t] == prev.0[k].declarations[t]);
                }
            }
            assert forall|a: int| 0 <= a < cur.1.len() implies implementation_below(#[trigger] cur.1[a], n as int) by {
                if a < prev.1.len() {
                    assert(cur.1[a] == prev.1[a]);
                }
            }
        }
    }
}

/// Setting roles changes only the roles and groups of the definitions named.
proof fn lemma_set_roles_frame(defs: Seq<SemanticDefinition>, ids: Seq<DefId>, role: DefinitionRole, group: OverloadGroupId, j: int)
    requires
        0 <= j < defs.len(),
    ensures
        set_roles(defs, ids, role, group).len() == defs.len(),
        (forall|t: int| 0 <= t < ids.len() ==> (#[trigger] ids[t]).0 != j) ==> set_roles(defs, ids, role, group)[j] == defs[j],
        ({
            let r = set_roles(defs, ids, role, group)[j];
            r == SemanticDefinition { role: r.role, overload_group: r.overload_group, ..defs[j] }
        }),
    decreases ids.len(),
{
    if ids.len() > 0 {
        lemma_set_roles_frame(defs, ids.drop_last(), role, group, j);
        if forall|t: int| 0 <= t < ids.len() ==> (#[trigger] ids[t]).0 != j {
            assert forall|t: int| 0 <= t < ids.drop_last().len() implies (#[trigger] ids.drop_last()[t]).0 != j by {
                assert(ids.drop_last()[t] == ids[t]);
            }
        }
    }
}

/// Applying group roles changes only the roles and groups of the members of the groups.
proof fn lemma_apply_roles_frame(defs: Seq<SemanticDefinition>, gs: Seq<OverloadGroupSpec>, base: nat, j: int)
    requires
        0 <= j < defs.len(),
    ensures
        apply_group_roles(defs, gs, base).len() == defs.len(),
        pass_ids_below(Seq::empty(), gs, j) ==> apply_group_roles(defs, gs, base)[j] == defs[j],
        ({
            let r = apply_group_roles(defs, gs, base)[j];
            r == SemanticDefinition { role: r.role, overload_group: r.overload_group, ..defs[j] }
        }),
    decreases gs.len(),
{
    if gs.len() > 0 {
        let prev = apply_group_roles(defs, gs.drop_last(), base);
        lemma_apply_roles_frame(defs, gs.drop_last(), base, j);
        let gid = OverloadGroupId((base + gs.len() - 1) as u32);
        lemma_set_roles_frame(prev, gs.last().declarations, DefinitionRole::OverloadDeclaration, gid, j);
        if pass_ids_below(Seq::empty(), gs, j) {
            assert(pass_ids_below(Seq::empty(), gs.drop_last(), j)) by {
                assert forall|k: int, t: int| 0 <= k < gs.drop_last().len() && 0 <= t < gs.drop_last()[k].declarations.len()
                    implies (#[trigger] gs.drop_last()[k].declarations[t]).0 < j by {
                    assert(gs.drop_last()[k] == gs[k]);
                }
                assert forall|k: int| 0 <= k < gs.drop_last().len() implies implementation_below(#[trigger] gs.drop_last()[k], j) by {
                    assert(gs.drop_last()[k] == gs[k]);
                }
            }
            assert forall|t: int| 0 <= t < gs.last().declarations.len() implies (#[trigger] gs.last().declarations[t]).0 != j by {
                assert(gs[gs.len() - 1].declarations[t].0 < j);
            }
            assert(implementation_below(gs[gs.len() - 1], j));
        }
    }
}

/// Every pending set has a declaration, and all of them come before position `n`.
pub open spec fn pending_nonempty(p: Seq<OverloadSet>) -> bool {
    forall|k: int| 0 <= k < p.len() ==> (#[trigger] p[k]).declarations.len() > 0
}

proof fn lemma_pass_pending_nonempty(g: SemanticGraph, n: nat)
    ensures
        pending_nonempty(overload_pass(g, n).0),
        overload_pass(g, n).1.len() <= n,
        overload_pass(g, n).1.len() + overload_pass(g, n).0.len() <= n,
    decreases n,
{
    if n > 0 && n <= g.definitions@.len() {
        lemma_pass_pending_nonempty(g, (n - 1) as nat);
        let prev = overload_pass(g, (n - 1) as nat);
        let d = g.definitions@[n - 1];
        lemma_find_pending(prev.0, binding_scope(g, d), d.name@);
        let k = find_pending(prev.0, binding_scope(g, d), d.name@);
        let cur = overload_pass(g, n);
        assert forall|a: int| 0 <= a < cur.0.len() implies (#[trigger] cur.0[a]).declarations.len() > 0 by {
            if d.role == DefinitionRole::OverloadDeclaration {
                if k >= 0 {
                    if a != k {
                        assert(cur.0[a] == prev.0[a]);
                    }
                } else if a < prev.0.len() {
                    assert(cur.0[a] == prev.0[a]);
                }
            } else if k >= 0 {
                if a < k {
                    assert(cur.0[a] == prev.0[a]);
                } else {
                    assert(cur.0[a] == prev.0[a + 1]);
                }
            }
        }
    }
}

/// The scope a definition's name is bound in.
fn definition_binding_scope(g: &SemanticGraph, d: &SemanticDefinition) -> (scope: ScopeId)
    ensures
        scope == binding_scope(*g, *d),
{
    if (d.binding.0 as usize) < g.bindings.len() {
        g.bindings[d.binding.0 as usize].scope
    } else {
        d.scope
    }
}

/// The position of the pending set with the given scope and name.
fn find_pending_index(pending: &Vec<PendingOverloads>, scope: ScopeId, name: &str) -> (k: Option<usize>)
    ensures
        match k {
            Some(k) => find_pending(pending_views(pending@), scope, name@) == k,
            None => find_pending(pending_views(pending@), scope, name@) == -1,
        },
{
    let ghost views = pending_views(pending@);
    let mut i: usize = pending.len();
    assert(views.take(i as int) =~= views);
    while i > 0
        invariant
            i <= pending@.len(),
            views == pending_views(pending@),
            find_pending(views, scope, name@) == find_pending(views.take(i as int), scope, name@),
        decreases i,
    {
        let entry = &pending[i - 1];
        assert(views.take(i as int).last() == views[i - 1]);
        assert(views.take(i as int).drop_last() =~= views.take(i - 1));
        if entry.scope == scope && str_eq(entry.name.as_str(), name) {
            return Some(i - 1);
        }
        i = i - 1;
    }
    None
}

/// `a` is named before `b`: by module, then by the start of the name.
pub open spec fn declared_before(g: SemanticGraph, a: DefId, b: DefId) -> bool {
    let da = g.definitions@[a.0 as int];
    let db = g.definitions@[b.0 as int];
    da.module.0 < db.module.0 || (da.module.0 == db.module.0 && da.name_range.start < db.name_range.start)
}

/// The position of the first declaration in name order among those that exist.
pub open spec fn first_declaration(g: SemanticGraph, decls: Seq<DefId>) -> Option<int>
    decreases decls.len(),
{
    if decls.len() == 0 {
        None
    } else {
        let prev = first_declaration(g, decls.drop_last());
        let x = decls.last();
        if x.0 >= g.definitions@.len() {
            prev
        } else {
            match prev {
                None => Some(decls.len() - 1),
                Some(t) => if declared_before(g, x, decls[t]) {
                    Some(decls.len() - 1)
                } else {
                    prev
                },
            }
        }
    }
}

proof fn lemma_first_declaration(g: SemanticGraph, decls: Seq<DefId>)
    ensures
        first_declaration(g, decls) matches Some(t) ==> 0 <= t < decls.len() && decls[t].0 < g.definitions@.len(),
        decls.len() > 0 && decls.last().0 < g.definitions@.len() ==> first_declaration(g, decls) is Some,
    decreases decls.len(),
{
    if decls.len() > 0 {
        lemma_first_declaration(g, decls.drop_last());
    }
}

/// The path of the first module with identifier `m`.
pub open spec fn module_path_of(mods: Seq<SemanticModule>, m: ModuleId) -> Option<Seq<char>>
    decreases mods.len(),
{
    if mods.len() == 0 {
        None
    } else if mods[0].id == m {
        Some(mods[0].path@)
    } else {
        module_path_of(mods.drop_first(), m)
    }
}

pub open spec fn overload_message(name: Seq<char>) -> Seq<char> {
    "overload declarations for `"@ + name + "` have no implementation"@
}

/// `d` warns that the overloads of `name` have no implementation, at the first declaration.
pub open spec fn is_missing_implementation_warning(g: SemanticGraph, name: Seq<char>, decls: Seq<DefId>, d: Diagnostic) -> bool {
    first_declaration(g, decls) matches Some(t) && {
        let first = g.definitions@[decls[t].0 as int];
        &&& d.code@ == "CULL_P1107"@
        &&& d.severity == DiagnosticSeverity::Warning
        &&& d.message@ == overload_message(name)
        &&& d.range == Some(first.name_range)
        &&& match module_path_of(g.modules@, first.module) {
            Some(p) => d.path matches Some(q) && q@ == p,
            None => d.path is None,
        }
    }
}

/// The path of the first module with identifier `m`.
fn find_module_path(modules: &Vec<SemanticModule>, m: ModuleId) -> (path: Option<String>)
    ensures
        match path {
            Some(p) => module_path_of(modules@, m) == Some(p@),
            None => module_path_of(modules@, m) is None,
        },
{
    let mut k: usize = 0;
    assert(modules@.skip(0) =~= modules@);
    while k < modules.len()
        invariant
            0 <= k <= modules@.len(),
            module_path_of(modules@, m) == module_path_of(modules@.skip(k as int), m),
        decreases modules@.len() - k,
    {
        assert(modules@.skip(k as int)[0] == modules@[k as int]);
        assert(modules@.skip(k as int).drop_first() =~= modules@.skip(k + 1));
        if modules[k].id == m {
            return Some(modules[k].path.clone());
        }
        k = k + 1;
    }
    assert(modules@.skip(k as int).len() == 0);
    None
}

/// The warning that overload declarations have no implementation, reported at the first of
/// them in name order, in the file of its module; `None` when no declaration exists.
pub fn missing_implementation_warning(graph: &SemanticGraph, name: &str, declarations: &[DefId]) -> (d: Option<Diagnostic>)
    ensures
        d is Some <==> first_declaration(*graph, declarations@) is Some,
        d matches Some(x) ==> is_missing_implementation_warning(*graph, name@, declarations@, x),
{
    let mut best: Option<usize> = None;
    let mut i: usize = 0;
    while i < declarations.len()
        invariant
            0 <= i <= declarations@.len(),
            match best {
                Some(b) => first_declaration(*graph, declarations@.take(i as int)) == Some(b as int),
                None => first_declaration(*graph, declarations@.take(i as int)) is None,
            },
        decreases declarations@.len() - i,
    {
        proof {
            assert(declarations@.take(i + 1).drop_last() =~= declarations@.take(i as int));
            assert(declarations@.take(i + 1).last() == declarations@[i as int]);
            lemma_first_declaration(*graph, declarations@.take(i as int));
        }
        let x = declarations[i];
        if (x.0 as usize) < graph.definitions.len() {
            match best {
                None => {
                    best = Some(i);
                },
                Some(b) => {
                    proof {
                        assert(declarations@.take(i + 1)[b as int] == declarations@[b as int]);
                    }
                    let dx = &graph.definitions[x.0 as usize];
                    let db = &graph.definitions[declarations[b].0 as usize];
                    if dx.module.0 < db.module.0 || (dx.module.0 == db.module.0 && dx.name_range.start < db.name_range.start) {
                        best = Some(i);
                    }
                },
            }
        }
        i = i + 1;
    }
    proof {
        assert(declarations@.take(declarations@.len() as int) =~= declarations@);
        lemma_first_declaration(*graph, declarations@);
    }
    match best {
        None => None,
        Some(b) => {
            let first = &graph.definitions[declarations[b].0 as usize];
            let mut message = <String as StringExecFns>::from_str("overload declarations for `");
            message.append(name);
            message.append("` have no implementation");
            let diagnostic = Diagnostic::warning("CULL_P1107", message.as_str());
            let path = find_module_path(&graph.modules, first.module);
            let diagnostic = match path {
                Some(p) => diagnostic.with_path(p),
                None => diagnostic,
            };
            proof {
                reveal_strlit("overload declarations for `");
                reveal_strlit("` have no implementation");
            }
            Some(diagnostic.with_range(first.name_range))
        },
    }
}

/// The order of groups without implementation: by scope, then by name.
pub open spec fn group_key(f: OverloadGroupFact) -> Seq<int> {
    overload_set_key(f.scope, f.name@)
}

/// The pending set a group without implementation was made from.
pub open spec fn group_set(f: OverloadGroupFact) -> OverloadSet {
    OverloadSet { scope: f.scope, name: f.name@, declarations: f.declarations@ }
}

/// `after` is `before` with the overload groups of every definition recorded: groups
/// completed by an implementation in definition order, then the sets left without one,
/// ordered by scope and name, each with a warning; members take their overload roles.
pub open spec fn overloads_grouped(before: SemanticGraph, after: SemanticGraph, diags0: Seq<Diagnostic>, diags: Seq<Diagnostic>) -> bool {
    let pass = overload_pass(before, before.definitions@.len());
    let base = before.overload_groups@.len();
    let m = pass.1.len();
    let left = pass.0.len();
    &&& after == (SemanticGraph { definitions: after.definitions, overload_groups: after.overload_groups, ..before })
    &&& after.definitions@.len() == before.definitions@.len()
    &&& after.overload_groups@.len() == base + m + left
    &&& after.overload_groups@.take(base as int) == before.overload_groups@
    &&& forall|q: int| 0 <= q < m ==> group_view(#[trigger] after.overload_groups@[base + q]) == pass.1[q]
    &&& forall|q: int| 0 <= q < left ==> (#[trigger] after.overload_groups@[base + m + q]).implementation is None
    &&& forall|e: OverloadSet| (exists|q: int| 0 <= q < left && group_set(#[trigger] after.overload_groups@[base + m + q]) == e)
        <==> pass.0.contains(e)
    &&& forall|i1: int, i2: int| base + m <= i1 < i2 < base + m + left ==> !lex_lt(
        group_key(#[trigger] after.overload_groups@[i2]), group_key(#[trigger] after.overload_groups@[i1]))
    &&& after.definitions@ == apply_group_roles(before.definitions@, group_views(after.overload_groups@).skip(base as int), base)
    &&& diags.len() == diags0.len() + left
    &&& diags.take(diags0.len() as int) == diags0
    &&& forall|q: int| 0 <= q < left ==> is_missing_implementation_warning(before,
        after.overload_groups@[base + m + q].name@, after.overload_groups@[base + m + q].declarations@, #[trigger] diags[diags0.len() + q])
}

/// Records the roles `role` of the given definitions in group `group`.
fn set_roles_exec(builder: &mut SemanticGraphBuilder, ids: &Vec<DefId>, role: DefinitionRole, group: OverloadGroupId)
    requires
        old(builder).well_formed(),
        forall|t: int| 0 <= t < ids@.len() ==> (#[trigger] ids@[t]).0 < old(builder).view_graph().definitions@.len(),
    ensures
        final(builder).well_formed(),
        final(builder).view_graph() == (SemanticGraph { definitions: final(builder).view_graph().definitions, ..old(builder).view_graph() }),
        final(builder).view_graph().definitions@ == set_roles(old(builder).view_graph().definitions@, ids@, role, group),
        final(builder).view_graph().definitions@.len() == old(builder).view_graph().definitions@.len(),
{
    let ghost g0 = builder.view_graph();
    let mut t: usize = 0;
    while t < ids.len()
        invariant
            builder.well_formed(),
            0 <= t <= ids@.len(),
            forall|u: int| 0 <= u < ids@.len() ==> (#[trigger] ids@[u]).0 < g0.definitions@.len(),
            builder.view_graph() == (SemanticGraph { definitions: builder.view_graph().definitions, ..g0 }),
            builder.view_graph().definitions@ == set_roles(g0.definitions@, ids@.take(t as int), role, group),
            builder.view_graph().definitions@.len() == g0.definitions@.len(),
        decreases ids@.len() - t,
    {
        proof {
            assert(ids@.take(t + 1).drop_last() =~= ids@.take(t as int));
            assert(ids@[t as int].0 < g0.definitions@.len());
        }
        builder.set_definition_role(ids[t], role, Some(group));
        t = t + 1;
    }
    assert(ids@.take(ids@.len() as int) =~= ids@);
}

/// Two graphs whose definitions differ at most in their overload roles and groups.
pub open spec fn same_but_roles(g0: SemanticGraph, g1: SemanticGraph) -> bool {
    &&& g1.modules == g0.modules
    &&& g1.definitions@.len() == g0.definitions@.len()
    &&& forall|j: int| 0 <= j < g0.definitions@.len() ==> {
        let r = #[trigger] g1.definitions@[j];
        r == SemanticDefinition { role: r.role, overload_group: r.overload_group, ..g0.definitions@[j] }
    }
}

proof fn lemma_first_declaration_frame(g0: SemanticGraph, g1: SemanticGraph, decls: Seq<DefId>)
    requires
        same_but_roles(g0, g1),
    ensures
        first_declaration(g1, decls) == first_declaration(g0, decls),
        first_declaration(g0, decls) matches Some(t) ==> 0 <= t < decls.len() && decls[t].0 < g0.definitions@.len()
            && g1.definitions@[decls[t].0 as int].module == g0.definitions@[decls[t].0 as int].module
            && g1.definitions@[decls[t].0 as int].name_range == g0.definitions@[decls[t].0 as int].name_range,
    decreases decls.len(),
{
    lemma_first_declaration(g0, decls);
    if decls.len() > 0 {
        lemma_first_declaration_frame(g0, g1, decls.drop_last());
        lemma_first_declaration(g0, decls.drop_last());
        let x = decls.last();
        if x.0 < g0.definitions@.len() {
            assert(g1.definitions@[x.0 as int].module == g0.definitions@[x.0 as int].module);
            match first_declaration(g0, decls.drop_last()) {
                Some(t) => {
                    assert(decls.drop_last()[t] == decls[t]);
                    assert(g1.definitions@[decls[t].0 as int].module == g0.definitions@[decls[t].0 as int].module);
                },
                None => {},
            }
        }
        match first_declaration(g0, decls) {
            Some(t) => {
                assert(g1.definitions@[decls[t].0 as int] == SemanticDefinition {
                    role: g1.definitions@[decls[t].0 as int].role,
                    overload_group: g1.definitions@[decls[t].0 as int].overload_group,
                    ..g0.definitions@[decls[t].0 as int]
                });
            },
            None => {},
        }
    }
}

/// Groups the overload declarations of every scope and name with the implementation that
/// follows them; declarations left without one form groups of their own, with a warning.
pub fn group_overloads(builder: &mut SemanticGraphBuilder, diagnostics: &mut Vec<Diagnostic>)
    requires
        old(builder).well_formed(),
        old(builder).view_graph().overload_groups@.len() + old(builder).view_graph().definitions@.len() < u32::MAX,
    ensures
        final(builder).well_formed(),
        overloads_grouped(old(builder).view_graph(), final(builder).view_graph(), old(diagnostics)@, final(diagnostics)@),
{
    let ghost g0 = builder.view_graph();
    let ghost base = g0.overload_groups@.len();
    let ghost d0 = diagnostics@;
    proof {
        builder.lemma_graph_well_formed();
    }
    let n = builder.graph().definitions.len();
    let mut pending: Vec<PendingOverloads> = Vec::new();
    let mut i: usize = 0;
    assert(group_views(builder.view_graph().overload_groups@).skip(base as int) =~= overload_pass(g0, 0).1);
    assert(pending_views(pending@) =~= overload_pass(g0, 0).0);
    while i < n
        invariant
            builder.well_formed(),
            graph_well_formed(g0),
            n == g0.definitions@.len(),
            0 <= i <= n,
            base == g0.overload_groups@.len(),
            base + n < u32::MAX,
            diagnostics@ == d0,
            builder.view_graph() == (SemanticGraph {
                definitions: builder.view_graph().definitions,
                overload_groups: builder.view_graph().overload_groups,
                ..g0
            }),
            pending_views(pending@) == overload_pass(g0, i as nat).0,
            builder.view_graph().definitions@.len() == n,
            builder.view_graph().overload_groups@.len() >= base,
            builder.view_graph().overload_groups@.take(base as int) == g0.overload_groups@,
            group_views(builder.view_graph().overload_groups@).skip(base as int) == overload_pass(g0, i as nat).1,
            builder.view_graph().definitions@ == apply_group_roles(g0.definitions@,
                group_views(builder.view_graph().overload_groups@).skip(base as int), base),
        decreases n - i,
    {
        let ghost g1 = builder.view_graph();
        let ghost pass = overload_pass(g0, i as nat);
        proof {
            lemma_pass_ids_below(g0, i as nat);
            lemma_pass_pending_nonempty(g0, i as nat);
            lemma_apply_roles_frame(g0.definitions@, pass.1, base, i as int);
            assert(g1.definitions@[i as int] == g0.definitions@[i as int]);
            assert(g0.definitions@[i as int].id.0 == i);
        }
        let definition = &builder.graph().definitions[i];
        let id = definition.id;
        let role = definition.role;
        let name = definition.name.clone();
        let scope = definition_binding_scope(builder.graph(), definition);
        let ghost d = g0.definitions@[i as int];
        assert(scope == binding_scope(g0, d));
        let k = find_pending_index(&pending, scope, name.as_str());
        proof {
            lemma_find_pending(pass.0, scope, d.name@);
            assert(overload_pass(g0, (i + 1) as nat).0 == ({
                let kk = find_pending(pass.0, scope, d.name@);
                if d.role == DefinitionRole::OverloadDeclaration {
                    if kk >= 0 {
                        pass.0.update(kk, OverloadSet { declarations: pass.0[kk].declarations.push(d.id), ..pass.0[kk] })
                    } else {
                        pass.0.push(OverloadSet { scope, name: d.name@, declarations: seq![d.id] })
                    }
                } else if kk >= 0 {
                    pass.0.remove(kk)
                } else {
                    pass.0
                }
            }));
        }
        if role == DefinitionRole::OverloadDeclaration {
            match k {
                Some(k) => {
                    let ghost before = pending@;
                    let mut entry = pending.remove(k);
                    entry.declarations.push(id);
                    pending.insert(k, entry);
                    proof {
                        assert(pending_views(pending@) =~= pending_views(before).update(k as int,
                            OverloadSet { declarations: pending_views(before)[k as int].declarations.push(d.id), ..pending_views(before)[k as int] }));
                    }
                },
                None => {
                    let ghost before = pending@;
                    let mut declarations: Vec<DefId> = Vec::new();
                    declarations.push(id);
                    pending.push(PendingOverloads { scope, name, declarations });
                    proof {
                        assert(pending_views(pending@) =~= pending_views(before).push(OverloadSet { scope, name: d.name@, declarations: seq![d.id] }));
                    }
                },
            }
            proof {
                assert(overload_pass(g0, (i + 1) as nat).1 == pass.1);
            }
        } else {
            match k {
                Some(k) => {
                    let ghost before = pending@;
                    let entry = pending.remove(k);
                    proof {
                        assert(pending_views(pending@) =~= pending_views(before).remove(k as int));
                        assert(pending_views(before)[k as int] == pending_view(entry));
                    }
                    let declarations = vstd::slice::slice_to_vec(entry.declarations.as_slice());
                    let ghost groups_before = builder.view_graph().overload_groups@;
                    let group = builder.add_overload_group(scope, name, entry.declarations, Some(id));
                    let ghost gs_before = group_views(groups_before).skip(base as int);
                    let ghost defs_mid = builder.view_graph().definitions@;
                    proof {
                        assert(group_views(builder.view_graph().overload_groups@).skip(base as int) =~= gs_before.push(
                            OverloadGroupSpec { scope, name: d.name@, declarations: declarations@, implementation: Some(id) }));
                        assert(forall|t: int| 0 <= t < declarations@.len() ==> (#[trigger] declarations@[t]).0 < n) by {
                            assert forall|t: int| 0 <= t < declarations@.len() implies (#[trigger] declarations@[t]).0 < n by {
                                assert(pass.0[k as int].declarations[t] == declarations@[t]);
                            }
                        }
                    }
                    set_roles_exec(builder, &declarations, DefinitionRole::OverloadDeclaration, group);
                    builder.set_definition_role(id, DefinitionRole::OverloadImplementation, Some(group));
                    proof {
                        let gs_after = group_views(builder.view_graph().overload_groups@).skip(base as int);
                        assert(gs_after.drop_last() =~= gs_before);
                        assert(group.0 == base + gs_before.len());
                        assert(group == OverloadGroupId((base + gs_after.len() - 1) as u32));
                        assert(gs_after.last().declarations == declarations@);
                        assert(gs_after.last().implementation == Some(id));
                        assert(defs_mid == apply_group_roles(g0.definitions@, gs_before, base));
                        assert(builder.view_graph().definitions@ == apply_group_roles(g0.definitions@, gs_after, base));
                        assert(overload_pass(g0, (i + 1) as nat).1 == pass.1.push(OverloadGroupSpec {
                            scope, name: d.name@, declarations: pass.0[k as int].declarations, implementation: Some(d.id) }));
                    }
                },
                None => {
                    proof {
                        assert(overload_pass(g0, (i + 1) as nat).1 == pass.1);
                    }
                },
            }
        }
        proof {
            let g2 = builder.view_graph();
            assert(g2.overload_groups@.take(base as int) =~= g0.overload_groups@) by {
                assert forall|t: int| 0 <= t < base implies g2.overload_groups@[t] == g0.overload_groups@[t] by {
                    assert(g1.overload_groups@.take(base as int)[t] == g0.overload_groups@[t]);
                    if g2.overload_groups@.len() > g1.overload_groups@.len() {
                        assert(g2.overload_groups@[t] == g1.overload_groups@[t]);
                    }
                }
            }
        }
        i = i + 1;
    }
    proof {
        lemma_pass_ids_below(g0, n as nat);
        lemma_pass_pending_nonempty(g0, n as nat);
    }
    let ghost g_mid = builder.view_graph();
    let ghost m = overload_pass(g0, n as nat).1.len();
    let ghost left = overload_pass(g0, n as nat).0;
    let ghost pending_seq = pending@;
    let sorted = sort_by_key(pending);
    proof {
        assert forall|e: PendingOverloads| sorted@.contains(e) <==> pending_seq.contains(e) by {
            assert(sorted@.to_multiset().count(e) == pending_seq.to_multiset().count(e));
        }
    }
    let mut q: usize = 0;
    while q < sorted.len()
        invariant
            builder.well_formed(),
            n == g0.definitions@.len(),
            base == g0.overload_groups@.len(),
            base + n < u32::MAX,
            m <= n,
            left.len() == sorted@.len(),
            m + left.len() <= n,
            0 <= q <= sorted@.len(),
            pending_views(pending_seq) == left,
            forall|e: PendingOverloads| sorted@.contains(e) <==> pending_seq.contains(e),
            sorted_by_key(sorted@),
            pending_nonempty(left),
            pass_ids_below(left, Seq::empty(), n as int),
            builder.view_graph() == (SemanticGraph {
                definitions: builder.view_graph().definitions,
                overload_groups: builder.view_graph().overload_groups,
                ..g0
            }),
            builder.view_graph().overload_groups@.len() == base + m + q,
            builder.view_graph().definitions@.len() == n,
            builder.view_graph().overload_groups@.take((base + m) as int) == g_mid.overload_groups@,
            g_mid.overload_groups@.len() == base + m,
            forall|t: int| 0 <= t < q ==> {
                let f = #[trigger] builder.view_graph().overload_groups@[base + m + t];
                &&& f.implementation is None
                &&& group_set(f) == pending_view(sorted@[t])
            },
            builder.view_graph().definitions@ == apply_group_roles(g0.definitions@,
                group_views(builder.view_graph().overload_groups@).skip(base as int), base),
            diagnostics@.len() == d0.len() + q,
            diagnostics@.take(d0.len() as int) == d0,
            forall|t: int| 0 <= t < q ==> is_missing_implementation_warning(g0, sorted@[t].name@,
                sorted@[t].declarations@, #[trigger] diagnostics@[d0.len() + t]),
        decreases sorted@.len() - q,
    {
        let ghost g1 = builder.view_graph();
        let entry = &sorted[q];
        proof {
            assert(sorted@.contains(sorted@[q as int]));
            assert(pending_seq.contains(sorted@[q as int]));
            let j = choose|j: int| 0 <= j < pending_seq.len() && pending_seq[j] == sorted@[q as int];
            assert(left[j] == pending_view(sorted@[q as int]));
            assert(left[j].declarations.len() > 0);
            assert(forall|t: int| 0 <= t < left[j].declarations.len() ==> (#[trigger] left[j].declarations[t]).0 < n);
            let gsv = group_views(g1.overload_groups@).skip(base as int);
            assert forall|jj: int| 0 <= jj < n implies {
                let r = #[trigger] g1.definitions@[jj];
                r == SemanticDefinition { role: r.role, overload_group: r.overload_group, ..g0.definitions@[jj] }
            } by {
                lemma_apply_roles_frame(g0.definitions@, gsv, base, jj);
            }
            lemma_apply_roles_frame(g0.definitions@, gsv, base, 0);
            lemma_first_declaration_frame(g0, g1, entry.declarations@);
            lemma_first_declaration(g0, entry.declarations@);
        }
        let declarations = vstd::slice::slice_to_vec(entry.declarations.as_slice());
        let group_declarations = vstd::slice::slice_to_vec(entry.declarations.as_slice());
        let warning = missing_implementation_warning(builder.graph(), entry.name.as_str(), entry.declarations.as_slice());
        let ghost diags_before = diagnostics@;
        match warning {
            Some(w) => {
                diagnostics.push(w);
            },
            None => {},
        }
        let ghost groups_before = builder.view_graph().overload_groups@;
        let group = builder.add_overload_group(entry.scope, entry.name.clone(), group_declarations, None);
        let ghost gs_before = group_views(groups_before).skip(base as int);
        proof {
            assert(group_views(builder.view_graph().overload_groups@).skip(base as int) =~= gs_before.push(
                OverloadGroupSpec { scope: entry.scope, name: entry.name@, declarations: declarations@, implementation: None }));
            assert(sorted@.contains(sorted@[q as int]));
            assert(pending_seq.contains(sorted@[q as int]));
            let j = choose|j: int| 0 <= j < pending_seq.len() && pending_seq[j] == sorted@[q as int];
            assert(left[j] == pending_view(sorted@[q as int]));
            assert forall|t: int| 0 <= t < declarations@.len() implies (#[trigger] declarations@[t]).0 < n by {
                assert(left[j].declarations[t] == declarations@[t]);
            }
        }
        set_roles_exec(builder, &declarations, DefinitionRole::OverloadDeclaration, group);
        proof {
            let g2 = builder.view_graph();
            let gs_after = group_views(g2.overload_groups@).skip(base as int);
            assert(gs_after.drop_last() =~= gs_before);
            assert(group.0 == base + gs_before.len());
            assert(g2.overload_groups@.take((base + m) as int) =~= g_mid.overload_groups@) by {
                assert forall|t: int| 0 <= t < base + m implies g2.overload_groups@[t] == g_mid.overload_groups@[t] by {
                    assert(g1.overload_groups@.take((base + m) as int)[t] == g_mid.overload_groups@[t]);
                    assert(g2.overload_groups@[t] == g1.overload_groups@[t]);
                }
            }
            assert forall|t: int| 0 <= t < q + 1 implies {
                let f = #[trigger] g2.overload_groups@[base + m + t];
                &&& f.implementation is None
                &&& group_set(f) == pending_view(sorted@[t])
            } by {
                if t < q {
                    assert(g2.overload_groups@[base + m + t] == g1.overload_groups@[base + m + t]);
                }
            }
            assert(diagnostics@.take(d0.len() as int) =~= d0) by {
                assert forall|t: int| 0 <= t < d0.len() implies diagnostics@[t] == d0[t] by {
                    assert(diags_before.take(d0.len() as int)[t] == d0[t]);
                }
            }
            assert forall|t: int| 0 <= t < q + 1 implies is_missing_implementation_warning(g0, sorted@[t].name@,
                sorted@[t].declarations@, #[trigger] diagnostics@[d0.len() + t]) by {
                if t < q {
                    assert(diagnostics@[d0.len() + t] == diags_before[d0.len() + t]);
                }
            }
        }
        q = q + 1;
    }
    proof {
        let g = builder.view_graph();
        assert(group_views(g.overload_groups@).skip(base as int).len() == m + left.len());
        assert forall|qq: int| 0 <= qq < m implies group_view(#[trigger] g.overload_groups@[base + qq])
            == overload_pass(g0, n as nat).1[qq] by {
            assert(g.overload_groups@.take((base + m) as int)[base + qq] == g_mid.overload_groups@[base + qq]);
            assert(group_views(g_mid.overload_groups@).skip(base as int)[qq] == group_view(g_mid.overload_groups@[base + qq]));
        }
        assert(g.overload_groups@.take(base as int) =~= g0.overload_groups@) by {
            assert forall|t: int| 0 <= t < base implies g.overload_groups@[t] == g0.overload_groups@[t] by {
                assert(g.overload_groups@.take((base + m) as int)[t] == g_mid.overload_groups@[t]);
                assert(g_mid.overload_groups@.take(base as int)[t] == g0.overload_groups@[t]);
            }
        }
        assert forall|e: OverloadSet| (exists|qq: int| 0 <= qq < left.len() && group_set(#[trigger] g.overload_groups@[base + m + qq]) == e)
            <==> left.contains(e) by {
            if exists|qq: int| 0 <= qq < left.len() && group_set(#[trigger] g.overload_groups@[base + m + qq]) == e {
                let qq = choose|qq: int| 0 <= qq < left.len() && group_set(#[trigger] g.overload_groups@[base + m + qq]) == e;
                assert(sorted@.contains(sorted@[qq]));
                assert(pending_seq.contains(sorted@[qq]));
                let j = choose|j: int| 0 <= j < pending_seq.len() && pending_seq[j] == sorted@[qq];
                assert(left[j] == e);
            }
            if left.contains(e) {
                let j = choose|j: int| 0 <= j < left.len() && left[j] == e;
                assert(pending_seq.contains(pending_seq[j]));
                let qq = choose|qq: int| 0 <= qq < sorted@.len() && sorted@[qq] == pending_seq[j];
                assert(group_set(g.overload_groups@[base + m + qq]) == e);
            }
        }
        assert forall|i1: int, i2: int| base + m <= i1 < i2 < base + m + left.len() implies !lex_lt(
            group_key(#[trigger] g.overload_groups@[i2]), group_key(#[trigger] g.overload_groups@[i1])) by {
            let t1 = i1 - base - m;
            let t2 = i2 - base - m;
            assert(g.overload_groups@[base + m + t1] == g.overload_groups@[i1]);
            assert(g.overload_groups@[base + m + t2] == g.overload_groups@[i2]);
            assert(!lex_lt(sorted@[t2].sort_key(), sorted@[t1].sort_key()));
        }
        assert forall|qq: int| 0 <= qq < left.len() implies (#[trigger] g.overload_groups@[base + m + qq]).implementation is None by {
        }
        assert forall|qq: int| 0 <= qq < left.len() implies is_missing_implementation_warning(g0,
            g.overload_groups@[base + m + qq].name@, g.overload_groups@[base + m + qq].declarations@, #[trigger] diagnostics@[d0.len() + qq]) by {
            assert(group_set(g.overload_groups@[base + m + qq]) == pending_view(sorted@[qq]));
        }
    }
}

/// Derives what the definitions of a graph need before removal is judged: their
/// definition-time effects, their overload groups, then their internal candidates.
pub fn finalize_definition_effects(builder: &mut SemanticGraphBuilder, diagnostics: &mut Vec<Diagnostic>)
    requires
        old(builder).well_formed(),
        old(builder).view_graph().definition_effect_sets@.len() + old(builder).view_graph().definitions@.len() < u32::MAX,
        old(builder).view_graph().overload_groups@.len() + old(builder).view_graph().definitions@.len() < u32::MAX,
        old(builder).view_graph().internal_candidates@.len() + old(builder).view_graph().definitions@.len() < u32::MAX,
    ensures
        final(builder).well_formed(),
        exists|g1: SemanticGraph, g2: SemanticGraph|
            effects_derived(old(builder).view_graph(), g1)
                && overloads_grouped(g1, g2, old(diagnostics)@, final(diagnostics)@)
                && candidates_built(g2, final(builder).view_graph()),
{
    let ghost g0 = builder.view_graph();
    derive_definition_effects(builder);
    let ghost g1 = builder.view_graph();
    group_overloads(builder, diagnostics);
    let ghost g2 = builder.view_graph();
    build_internal_candidates(builder);
    assert(effects_derived(g0, g1) && overloads_grouped(g1, g2, old(diagnostics)@, diagnostics@)
        && candidates_built(g2, builder.view_graph()));
}

} // verus!
