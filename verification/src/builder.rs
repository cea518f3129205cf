//! The semantic graph builder: arena identifier assignment, symbol interning,
//! binding ordering and binding-set interning.
use vstd::prelude::*;
use std::collections::BTreeMap;

use crate::ids::{
    BindingId, BindingSetId, ContextId, DefId, DefinitionEffectSetId, FlowUncertaintySetId,
    ModuleId, ReferenceId, ScopeId, SymbolId,
};
use crate::semantic::{
    BindingFact, BindingInput, BindingSetFact, ContextFact, ContextFlowStatus,
    ContextFlowStatusFact, DefinitionEffectKind, DefinitionEffectSetFact, DefinitionInput,
    DefinitionRole, FlowUncertaintyKind, FlowUncertaintySetFact, InternalCandidateFact,
    InternalCandidateInput, OverloadGroupFact, ReferenceBindingState, ReferenceFact,
    ReferenceInput, RemovalRisk, ScopeContextInput, ScopeFact, SemanticDefinition,
    SemanticGraph, SemanticModule, SymbolFact,
};
use crate::ids::{InternalCandidateId, OverloadGroupId};
use crate::text::str_eq;
use crate::canon::{lemma_sorted_unique_determined, sorted_unique_u32, strictly_increasing_u32};

verus! {

broadcast use vstd::std_specs::btree::group_btree_axioms;

// ----- specifications of the arenas -----

/// The binding that a new binding of symbol `s` replaces: the last earlier binding of `s`.
pub open spec fn last_binding_of(bs: Seq<BindingFact>, s: SymbolId) -> Option<BindingId>
    decreases bs.len(),
{
    if bs.len() == 0 {
        None
    } else if bs.last().symbol == s {
        Some(bs.last().id)
    } else {
        last_binding_of(bs.drop_last(), s)
    }
}

/// Number of bindings recorded for module `m`; the order of the next binding of `m`.
pub open spec fn module_binding_count(bs: Seq<BindingFact>, m: ModuleId) -> nat
    decreases bs.len(),
{
    if bs.len() == 0 {
        0
    } else {
        module_binding_count(bs.drop_last(), m) + if bs.last().module == m {
            1nat
        } else {
            0nat
        }
    }
}

/// Strictly increasing binding identifiers: a canonical, duplicate-free binding set.
pub open spec fn strictly_increasing_bindings(s: Seq<BindingId>) -> bool {
    forall|i: int, j: int| 0 <= i < j < s.len() ==> s[i].0 < s[j].0
}

/// Declaration rank of an uncertainty kind (the order its derived `Ord` uses).
pub open spec fn uncertainty_rank(k: FlowUncertaintyKind) -> nat {
    match k {
        FlowUncertaintyKind::OpaqueCallMayMutateGlobal => 0,
        FlowUncertaintyKind::OpaqueCallMayMutateClosure => 1,
        FlowUncertaintyKind::DynamicNamespaceMutation => 2,
        FlowUncertaintyKind::SuspensionPoint => 3,
        FlowUncertaintyKind::ComplexExceptionFlow => 4,
        FlowUncertaintyKind::FailedPartialMatch => 5,
        FlowUncertaintyKind::UnsupportedFlow => 6,
    }
}

pub open spec fn strictly_increasing_uncertainties(s: Seq<FlowUncertaintyKind>) -> bool {
    forall|i: int, j: int| 0 <= i < j < s.len() ==> uncertainty_rank(s[i]) < uncertainty_rank(s[j])
}

pub open spec fn effect_rank(k: DefinitionEffectKind) -> nat {
    match k {
        DefinitionEffectKind::DecoratorApplication => 0,
        DefinitionEffectKind::DefaultExpressionEvaluation => 1,
        DefinitionEffectKind::EagerAnnotationEvaluation => 2,
        DefinitionEffectKind::LazyAnnotationIntrospectionRisk => 3,
        DefinitionEffectKind::ClassBaseEvaluation => 4,
        DefinitionEffectKind::ClassKeywordEvaluation => 5,
        DefinitionEffectKind::MetaclassEvaluation => 6,
        DefinitionEffectKind::ClassBodyExecution => 7,
    }
}

pub open spec fn strictly_increasing_effects(s: Seq<DefinitionEffectKind>) -> bool {
    forall|i: int, j: int| 0 <= i < j < s.len() ==> effect_rank(s[i]) < effect_rank(s[j])
}

/// Every arena's identifiers equal the positions of their facts.
pub open spec fn arena_ids_match(g: SemanticGraph) -> bool {
    &&& forall|i: int| 0 <= i < g.scopes@.len() ==> (#[trigger] g.scopes@[i]).id.0 == i
    &&& forall|i: int| 0 <= i < g.contexts@.len() ==> (#[trigger] g.contexts@[i]).id.0 == i
    &&& forall|i: int| 0 <= i < g.symbols@.len() ==> (#[trigger] g.symbols@[i]).id.0 == i
    &&& forall|i: int| 0 <= i < g.bindings@.len() ==> (#[trigger] g.bindings@[i]).id.0 == i
    &&& forall|i: int|
        0 <= i < g.binding_sets@.len() ==> (#[trigger] g.binding_sets@[i]).id.0 == i
    &&& forall|i: int|
        0 <= i < g.flow_uncertainty_sets@.len() ==> (#[trigger] g.flow_uncertainty_sets@[i]).id.0
            == i
    &&& forall|i: int| 0 <= i < g.definitions@.len() ==> (#[trigger] g.definitions@[i]).id.0 == i
    &&& forall|i: int| 0 <= i < g.references@.len() ==> (#[trigger] g.references@[i]).id.0 == i
    &&& forall|i: int|
        0 <= i < g.definition_effect_sets@.len() ==> (#[trigger] g.definition_effect_sets@[i]).id.0
            == i
    &&& forall|i: int|
        0 <= i < g.overload_groups@.len() ==> (#[trigger] g.overload_groups@[i]).id.0 == i
    &&& forall|i: int|
        0 <= i < g.internal_candidates@.len() ==> (#[trigger] g.internal_candidates@[i]).id.0
            == i
}

/// Scopes and contexts are created in pairs: scope `i` executes in context `i`, and each
/// context has exactly one flow status, at its own position.
pub open spec fn scopes_paired_with_contexts(g: SemanticGraph) -> bool {
    &&& g.scopes@.len() == g.contexts@.len()
    &&& g.context_flow_statuses@.len() == g.contexts@.len()
    &&& forall|i: int| 0 <= i < g.scopes@.len() ==> (#[trigger] g.scopes@[i]).context.0 == i
    &&& forall|i: int| 0 <= i < g.contexts@.len() ==> (#[trigger] g.contexts@[i]).scope.0 == i
    &&& forall|i: int|
        0 <= i < g.context_flow_statuses@.len() ==> (#[trigger] g.context_flow_statuses@[i]).context.0
            == i
}

/// No two symbols share a scope and a name.
pub open spec fn symbols_unique(g: SemanticGraph) -> bool {
    forall|i: int, j: int|
        0 <= i < g.symbols@.len() && 0 <= j < g.symbols@.len() && i != j ==> !(
        #[trigger] g.symbols@[i].scope == #[trigger] g.symbols@[j].scope && g.symbols@[i].name@
            == g.symbols@[j].name@)
}

/// Each binding records the previous binding of its symbol and its position within its module.
pub open spec fn bindings_chained(g: SemanticGraph) -> bool {
    forall|i: int|
        0 <= i < g.bindings@.len() ==> {
            &&& (#[trigger] g.bindings@[i]).replaces == last_binding_of(
                g.bindings@.take(i),
                g.bindings@[i].symbol,
            )
            &&& g.bindings@[i].order == module_binding_count(
                g.bindings@.take(i),
                g.bindings@[i].module,
            )
        }
}

/// Interned sets are canonical (sorted, duplicate-free) and no set is stored twice.
pub open spec fn interned_sets_canonical(g: SemanticGraph) -> bool {
    &&& forall|i: int|
        0 <= i < g.binding_sets@.len() ==> strictly_increasing_bindings(
            (#[trigger] g.binding_sets@[i]).bindings@,
        )
    &&& forall|i: int, j: int|
        0 <= i < g.binding_sets@.len() && 0 <= j < g.binding_sets@.len() && i != j
            ==> #[trigger] g.binding_sets@[i].bindings@ != #[trigger] g.binding_sets@[j].bindings@
    &&& forall|i: int|
        0 <= i < g.flow_uncertainty_sets@.len() ==> strictly_increasing_uncertainties(
            (#[trigger] g.flow_uncertainty_sets@[i]).uncertainties@,
        )
    &&& forall|i: int, j: int|
        0 <= i < g.flow_uncertainty_sets@.len() && 0 <= j < g.flow_uncertainty_sets@.len() && i
            != j ==> #[trigger] g.flow_uncertainty_sets@[i].uncertainties@
            != #[trigger] g.flow_uncertainty_sets@[j].uncertainties@
    &&& forall|i: int|
        0 <= i < g.definition_effect_sets@.len() ==> strictly_increasing_effects(
            (#[trigger] g.definition_effect_sets@[i]).effects@,
        )
    &&& forall|i: int, j: int|
        0 <= i < g.definition_effect_sets@.len() && 0 <= j < g.definition_effect_sets@.len() && i
            != j ==> #[trigger] g.definition_effect_sets@[i].effects@
            != #[trigger] g.definition_effect_sets@[j].effects@
}

/// A binding's definition link names an existing definition.
pub open spec fn binding_definitions_exist(g: SemanticGraph) -> bool {
    forall|i: int|
        0 <= i < g.bindings@.len() ==> ((#[trigger] g.bindings@[i]).definition matches Some(d) ==> d.0
            < g.definitions@.len())
}

/// The invariant that every graph produced by the builder satisfies.
pub open spec fn graph_well_formed(g: SemanticGraph) -> bool {
    &&& arena_ids_match(g)
    &&& scopes_paired_with_contexts(g)
    &&& symbols_unique(g)
    &&& bindings_chained(g)
    &&& interned_sets_canonical(g)
    &&& binding_definitions_exist(g)
}

/// Incrementally builds a [`SemanticGraph`], assigning identifiers in creation order.
pub struct SemanticGraphBuilder {
    graph: SemanticGraph,
    symbols_by_scope: BTreeMap<u32, Vec<u32>>,
    last_binding_by_symbol: BTreeMap<u32, u32>,
    next_binding_order_by_module: BTreeMap<u32, u32>,
}

impl SemanticGraphBuilder {
    /// The facts built so far.
    pub closed spec fn view_graph(&self) -> SemanticGraph {
        self.graph
    }

    /// The builder's private indexes agree with its graph.
    pub closed spec fn indexes_consistent(&self) -> bool {
        let g = self.graph;
        &&& forall|k: u32| #[trigger]
            self.symbols_by_scope@.contains_key(k) ==> forall|j: int|
                0 <= j < self.symbols_by_scope@[k]@.len() ==> {
                    let s = #[trigger] self.symbols_by_scope@[k]@[j];
                    &&& s < g.symbols@.len()
                    &&& g.symbols@[s as int].scope.0 == k
                }
        &&& forall|i: int|
            0 <= i < g.symbols@.len() ==> {
                let k = (#[trigger] g.symbols@[i]).scope.0;
                &&& self.symbols_by_scope@.contains_key(k)
                &&& self.symbols_by_scope@[k]@.contains(i as u32)
            }
        &&& forall|k: u32| #[trigger]
            self.last_binding_by_symbol@.contains_key(k) <==> last_binding_of(
                g.bindings@,
                SymbolId(k),
            ) is Some
        &&& forall|k: u32| #[trigger]
            self.last_binding_by_symbol@.contains_key(k) ==> Some(
                BindingId(self.last_binding_by_symbol@[k]),
            ) == last_binding_of(g.bindings@, SymbolId(k))
        &&& forall|k: u32| #[trigger]
            self.next_binding_order_by_module@.contains_key(k) <==> module_binding_count(
                g.bindings@,
                ModuleId(k),
            ) > 0
        &&& forall|k: u32| #[trigger]
            self.next_binding_order_by_module@.contains_key(k)
                ==> self.next_binding_order_by_module@[k] == module_binding_count(
                g.bindings@,
                ModuleId(k),
            )
    }

    pub closed spec fn well_formed(&self) -> bool {
        &&& graph_well_formed(self.graph)
        &&& self.indexes_consistent()
    }

    /// An empty builder.
    pub fn new() -> (b: Self)
        ensures
            b.well_formed(),
            b.view_graph().modules@.len() == 0,
            b.view_graph().scopes@.len() == 0,
            b.view_graph().contexts@.len() == 0,
            b.view_graph().symbols@.len() == 0,
            b.view_graph().bindings@.len() == 0,
            b.view_graph().binding_sets@.len() == 0,
            b.view_graph().flow_uncertainty_sets@.len() == 0,
            b.view_graph().definitions@.len() == 0,
            b.view_graph().references@.len() == 0,
            b.view_graph().context_flow_statuses@.len() == 0,
            b.view_graph().definition_effect_sets@.len() == 0,
            b.view_graph().overload_groups@.len() == 0,
            b.view_graph().internal_candidates@.len() == 0,
    {
        SemanticGraphBuilder {
            graph: SemanticGraph::empty(),
            symbols_by_scope: BTreeMap::new(),
            last_binding_by_symbol: BTreeMap::new(),
            next_binding_order_by_module: BTreeMap::new(),
        }
    }

    /// The finished graph.
    pub fn finish(self) -> (g: SemanticGraph)
        ensures
            g == self.view_graph(),
    {
        self.graph
    }

    /// The facts built so far.
    pub fn graph(&self) -> (g: &SemanticGraph)
        ensures
            *g == self.view_graph(),
    {
        &self.graph
    }
}


impl SemanticGraphBuilder {
    /// Adds a scope together with the execution context of its body; the context starts
    /// with a `Complete` flow status.
    pub fn add_scope_with_context(&mut self, input: ScopeContextInput) -> (ids: (ScopeId, ContextId))
        requires
            old(self).well_formed(),
            old(self).view_graph().scopes@.len() < u32::MAX,
        ensures
            final(self).well_formed(),
            ids.0.0 == old(self).view_graph().scopes@.len(),
            ids.1.0 == old(self).view_graph().contexts@.len(),
            ids.0.0 == ids.1.0,
            final(self).view_graph() == (SemanticGraph {
                scopes: final(self).view_graph().scopes,
                contexts: final(self).view_graph().contexts,
                context_flow_statuses: final(self).view_graph().context_flow_statuses,
                ..old(self).view_graph()
            }),
            final(self).view_graph().scopes@ == old(self).view_graph().scopes@.push(
                ScopeFact {
                    id: ids.0,
                    module: input.module,
                    kind: input.scope_kind,
                    parent: input.parent_scope,
                    context: ids.1,
                    owner_definition: input.owner_definition,
                    name: input.name,
                    range: input.range,
                },
            ),
            final(self).view_graph().contexts@ == old(self).view_graph().contexts@.push(
                ContextFact {
                    id: ids.1,
                    module: input.module,
                    kind: input.context_kind,
                    scope: ids.0,
                    parent: input.parent_context,
                    owner_definition: input.owner_definition,
                    range: input.range,
                },
            ),
            final(self).view_graph().context_flow_statuses@
                == old(self).view_graph().context_flow_statuses@.push(
                ContextFlowStatusFact { context: ids.1, status: ContextFlowStatus::Complete },
            ),
    {
        let scope = ScopeId::new(self.graph.scopes.len() as u32);
        let context = ContextId::new(self.graph.contexts.len() as u32);
        self.graph.scopes.push(
            ScopeFact {
                id: scope,
                module: input.module,
                kind: input.scope_kind,
                parent: input.parent_scope,
                context,
                owner_definition: input.owner_definition,
                name: input.name,
                range: input.range,
            },
        );
        self.graph.contexts.push(
            ContextFact {
                id: context,
                module: input.module,
                kind: input.context_kind,
                scope,
                parent: input.parent_context,
                owner_definition: input.owner_definition,
                range: input.range,
            },
        );
        self.graph.context_flow_statuses.push(
            ContextFlowStatusFact { context, status: ContextFlowStatus::Complete },
        );
        (scope, context)
    }

    /// Records a module.
    pub fn add_module(&mut self, module: SemanticModule)
        requires
            old(self).well_formed(),
        ensures
            final(self).well_formed(),
            final(self).view_graph() == (SemanticGraph {
                modules: final(self).view_graph().modules,
                ..old(self).view_graph()
            }),
            final(self).view_graph().modules@ == old(self).view_graph().modules@.push(module),
    {
        self.graph.modules.push(module);
    }

    /// The symbol of `name` in `scope`, created on first use.
    pub fn symbol(&mut self, module: ModuleId, scope: ScopeId, name: &str) -> (id: SymbolId)
        requires
            old(self).well_formed(),
            old(self).view_graph().symbols@.len() < u32::MAX || exists|i: int|
                0 <= i < old(self).view_graph().symbols@.len() && old(self).view_graph().symbols@[i].scope == scope
                    && old(self).view_graph().symbols@[i].name@ == name@,
        ensures
            final(self).well_formed(),
            final(self).view_graph() == (SemanticGraph {
                symbols: final(self).view_graph().symbols,
                ..old(self).view_graph()
            }),
            (exists|i: int|
                0 <= i < old(self).view_graph().symbols@.len() && old(self).view_graph().symbols@[i].scope == scope && old(self).view_graph().symbols@[i].name@
                    == name@) ==> {
                &&& final(self).view_graph().symbols@ == old(self).view_graph().symbols@
                &&& id.0 < old(self).view_graph().symbols@.len()
                &&& old(self).view_graph().symbols@[id.0 as int].scope == scope
                &&& old(self).view_graph().symbols@[id.0 as int].name@ == name@
            },
            !(exists|i: int|
                0 <= i < old(self).view_graph().symbols@.len() && old(self).view_graph().symbols@[i].scope == scope && old(self).view_graph().symbols@[i].name@
                    == name@) ==> {
                &&& id.0 == old(self).view_graph().symbols@.len()
                &&& final(self).view_graph().symbols@.len() == id.0 + 1
                &&& final(self).view_graph().symbols@.take(id.0 as int) == old(self).view_graph().symbols@
                &&& final(self).view_graph().symbols@[id.0 as int].id == id
                &&& final(self).view_graph().symbols@[id.0 as int].module == module
                &&& final(self).view_graph().symbols@[id.0 as int].scope == scope
                &&& final(self).view_graph().symbols@[id.0 as int].name@ == name@
            },
    {
        let ghost g0 = self.graph;
        let existing = self.symbols_by_scope.get(&scope.0);
        if let Some(candidates) = existing {
            let mut j: usize = 0;
            while j < candidates.len()
                invariant
                    self.graph == g0,
                    self.well_formed(),
                    self.symbols_by_scope@.contains_key(scope.0),
                    *candidates == self.symbols_by_scope@[scope.0],
                    0 <= j <= candidates@.len(),
                    forall|t: int|
                        0 <= t < j ==> g0.symbols@[candidates@[t] as int].name@ != name@,
                decreases candidates@.len() - j,
            {
                let s = candidates[j];
                assert(s < g0.symbols@.len());
                if str_eq(self.graph.symbols[s as usize].name.as_str(), name) {
                    return SymbolId::new(s);
                }
                j = j + 1;
            }
            proof {
                assert forall|i: int|
                    0 <= i < g0.symbols@.len() && g0.symbols@[i].scope == scope implies g0.symbols@[i].name@
                    != name@ by {
                    assert(g0.symbols@[i].scope.0 == scope.0);
                    assert(self.symbols_by_scope@[scope.0]@.contains(i as u32));
                    let t = choose|t: int|
                        0 <= t < candidates@.len() && candidates@[t] == i as u32;
                    assert(g0.symbols@[candidates@[t] as int].name@ != name@);
                }
            }
        } else {
            proof {
                assert forall|i: int|
                    0 <= i < g0.symbols@.len() implies g0.symbols@[i].scope != scope by {
                    if g0.symbols@[i].scope == scope {
                        assert(self.symbols_by_scope@.contains_key(g0.symbols@[i].scope.0));
                    }
                }
            }
        }
        let id = SymbolId::new(self.graph.symbols.len() as u32);
        let ghost m0 = self.symbols_by_scope@;
        self.graph.symbols.push(
            SymbolFact { id, module, scope, name: name.to_owned() },
        );
        let mut list = match self.symbols_by_scope.remove(&scope.0) {
            Some(list) => list,
            None => Vec::new(),
        };
        assert(m0.contains_key(scope.0) ==> list@ == m0[scope.0]@);
        list.push(id.0);
        self.symbols_by_scope.insert(scope.0, list);
        proof {
            let g = self.graph;
            assert(g.symbols@.take(id.0 as int) == g0.symbols@);
            assert forall|i: int| 0 <= i < g.symbols@.len() implies (#[trigger] g.symbols@[i]).id.0
                == i by {
                if i < g0.symbols@.len() {
                    assert(g.symbols@[i] == g0.symbols@[i]);
                }
            }
            assert forall|k: u32| #[trigger]
                self.symbols_by_scope@.contains_key(k) implies forall|j: int|
                0 <= j < self.symbols_by_scope@[k]@.len() ==> {
                    let s = #[trigger] self.symbols_by_scope@[k]@[j];
                    &&& s < g.symbols@.len()
                    &&& g.symbols@[s as int].scope.0 == k
                } by {
                assert forall|j: int| 0 <= j < self.symbols_by_scope@[k]@.len() implies {
                    let s = #[trigger] self.symbols_by_scope@[k]@[j];
                    &&& s < g.symbols@.len()
                    &&& g.symbols@[s as int].scope.0 == k
                } by {
                    let s = self.symbols_by_scope@[k]@[j];
                    if s < g0.symbols@.len() {
                        assert(g.symbols@[s as int] == g0.symbols@[s as int]);
                    }
                }
            }
            assert forall|i: int| 0 <= i < g.symbols@.len() implies {
                let k = (#[trigger] g.symbols@[i]).scope.0;
                &&& self.symbols_by_scope@.contains_key(k)
                &&& self.symbols_by_scope@[k]@.contains(i as u32)
            } by {
                if i < g0.symbols@.len() {
                    assert(g.symbols@[i] == g0.symbols@[i]);
                    let k = g0.symbols@[i].scope.0;
                    if k == scope.0 {
                        assert(m0.contains_key(k));
                        assert(m0[k]@.contains(i as u32));
                        let t = choose|t: int| 0 <= t < m0[k]@.len() && m0[k]@[t] == i as u32;
                        assert(self.symbols_by_scope@[k]@[t] == i as u32);
                    }
                } else {
                    assert(self.symbols_by_scope@[scope.0]@[list@.len() - 1] == i as u32);
                }
            }
            assert forall|i: int, j: int|
                0 <= i < g.symbols@.len() && 0 <= j < g.symbols@.len() && i != j implies !(
                #[trigger] g.symbols@[i].scope == #[trigger] g.symbols@[j].scope
                    && g.symbols@[i].name@ == g.symbols@[j].name@) by {
                if i < g0.symbols@.len() {
                    assert(g.symbols@[i] == g0.symbols@[i]);
                }
                if j < g0.symbols@.len() {
                    assert(g.symbols@[j] == g0.symbols@[j]);
                }
            }
        }
        id
    }
}

impl SemanticGraphBuilder {
    /// Records a binding event; it replaces the previous binding of the same symbol and is
    /// ordered after every earlier binding of the same module.
    pub fn add_binding(&mut self, input: BindingInput) -> (id: BindingId)
        requires
            old(self).well_formed(),
            old(self).view_graph().bindings@.len() < u32::MAX,
            module_binding_count(old(self).view_graph().bindings@, input.module) < u32::MAX,
        ensures
            final(self).well_formed(),
            id.0 == old(self).view_graph().bindings@.len(),
            final(self).view_graph() == (SemanticGraph {
                bindings: final(self).view_graph().bindings,
                ..old(self).view_graph()
            }),
            final(self).view_graph().bindings@ == old(self).view_graph().bindings@.push(
                BindingFact {
                    id,
                    module: input.module,
                    scope: input.scope,
                    symbol: input.symbol,
                    kind: input.kind,
                    name: input.name,
                    order: module_binding_count(
                        old(self).view_graph().bindings@,
                        input.module,
                    ) as u32,
                    range: input.range,
                    name_range: input.name_range,
                    definition: None,
                    replaces: last_binding_of(old(self).view_graph().bindings@, input.symbol),
                },
            ),
    {
        let ghost g0 = self.graph;
        let id = BindingId::new(self.graph.bindings.len() as u32);
        let order: u32 = match self.next_binding_order_by_module.get(&input.module.0) {
            Some(next) => *next,
            None => 0,
        };
        self.next_binding_order_by_module.insert(input.module.0, order + 1);
        let replaces = match self.last_binding_by_symbol.get(&input.symbol.0) {
            Some(last) => Some(BindingId::new(*last)),
            None => None,
        };
        self.last_binding_by_symbol.insert(input.symbol.0, id.0);
        self.graph.bindings.push(
            BindingFact {
                id,
                module: input.module,
                scope: input.scope,
                symbol: input.symbol,
                kind: input.kind,
                name: input.name,
                order,
                range: input.range,
                name_range: input.name_range,
                definition: None,
                replaces,
            },
        );
        proof {
            let g = self.graph;
            assert(g.bindings@.drop_last() == g0.bindings@);
            assert(g.bindings@.take(id.0 as int) == g0.bindings@);
            assert forall|i: int| 0 <= i < g.bindings@.len() implies (#[trigger] g.bindings@[i]).id.0
                == i by {
                if i < g0.bindings@.len() {
                    assert(g.bindings@[i] == g0.bindings@[i]);
                }
            }
            assert forall|i: int| 0 <= i < g.bindings@.len() implies {
                &&& (#[trigger] g.bindings@[i]).replaces == last_binding_of(
                    g.bindings@.take(i),
                    g.bindings@[i].symbol,
                )
                &&& g.bindings@[i].order == module_binding_count(
                    g.bindings@.take(i),
                    g.bindings@[i].module,
                )
            } by {
                if i < g0.bindings@.len() {
                    assert(g.bindings@[i] == g0.bindings@[i]);
                    assert(g.bindings@.take(i) == g0.bindings@.take(i));
                }
            }
            assert forall|k: u32| #[trigger]
                self.last_binding_by_symbol@.contains_key(k) <==> last_binding_of(
                    g.bindings@,
                    SymbolId(k),
                ) is Some by {
                if k != input.symbol.0 {
                    assert(SymbolId(k) != input.symbol);
                }
            }
            assert forall|k: u32| #[trigger]
                self.last_binding_by_symbol@.contains_key(k) implies Some(
                    BindingId(self.last_binding_by_symbol@[k]),
                ) == last_binding_of(g.bindings@, SymbolId(k)) by {
                if k != input.symbol.0 {
                    assert(SymbolId(k) != input.symbol);
                }
            }
            assert forall|k: u32| #[trigger]
                self.next_binding_order_by_module@.contains_key(k) <==> module_binding_count(
                    g.bindings@,
                    ModuleId(k),
                ) > 0 by {
                if k != input.module.0 {
                    assert(ModuleId(k) != input.module);
                }
            }
            assert forall|k: u32| #[trigger]
                self.next_binding_order_by_module@.contains_key(k)
                    implies self.next_binding_order_by_module@[k] == module_binding_count(
                    g.bindings@,
                    ModuleId(k),
                ) by {
                if k != input.module.0 {
                    assert(ModuleId(k) != input.module);
                }
            }
        }
        id
    }
}

pub open spec fn binding_raw(s: Seq<BindingId>) -> Seq<u32> {
    s.map_values(|b: BindingId| b.0)
}

fn binding_raw_ids(v: &Vec<BindingId>) -> (out: Vec<u32>)
    ensures
        out@ == binding_raw(v@),
{
    let mut out: Vec<u32> = Vec::new();
    let mut i: usize = 0;
    while i < v.len()
        invariant
            0 <= i <= v@.len(),
            out@ == binding_raw(v@.take(i as int)),
        decreases v@.len() - i,
    {
        out.push(v[i].0);
        assert(v@.take((i + 1) as int) == v@.take(i as int).push(v@[i as int]));
        assert(binding_raw(v@.take((i + 1) as int)) == binding_raw(v@.take(i as int)).push(v@[i as int].0));
        i = i + 1;
    }
    assert(v@.take(v@.len() as int) == v@);
    out
}

fn binding_ids_from_raw(v: &Vec<u32>) -> (out: Vec<BindingId>)
    ensures
        binding_raw(out@) == v@,
{
    let mut out: Vec<BindingId> = Vec::new();
    let mut i: usize = 0;
    while i < v.len()
        invariant
            0 <= i <= v@.len(),
            out@.len() == i,
            binding_raw(out@) == v@.take(i as int),
        decreases v@.len() - i,
    {
        out.push(BindingId::new(v[i]));
        assert(v@.take((i + 1) as int) == v@.take(i as int).push(v@[i as int]));
        assert(binding_raw(out@) =~= v@.take((i + 1) as int));
        i = i + 1;
    }
    assert(v@.take(v@.len() as int) == v@);
    out
}

pub proof fn lemma_binding_raw_injective(a: Seq<BindingId>, b: Seq<BindingId>)
    requires
        binding_raw(a) == binding_raw(b),
    ensures
        a == b,
{
    assert(a.len() == binding_raw(a).len());
    assert(b.len() == binding_raw(b).len());
    assert forall|i: int| 0 <= i < a.len() implies a[i] == b[i] by {
        assert(binding_raw(a)[i] == binding_raw(b)[i]);
        assert(binding_raw(a)[i] == a[i].0);
        assert(binding_raw(b)[i] == b[i].0);
    }
    assert(a =~= b);
}

pub proof fn lemma_binding_raw_contains(a: Seq<BindingId>, x: BindingId)
    ensures
        a.contains(x) <==> binding_raw(a).contains(x.0),
{
    if a.contains(x) {
        let t = choose|t: int| 0 <= t < a.len() && a[t] == x;
        assert(binding_raw(a)[t] == x.0);
    }
    if binding_raw(a).contains(x.0) {
        let t = choose|t: int| 0 <= t < binding_raw(a).len() && binding_raw(a)[t] == x.0;
        assert(a[t] == x);
    }
}

fn same_bindings(a: &Vec<BindingId>, b: &Vec<BindingId>) -> (same: bool)
    ensures
        same == (a@ == b@),
{
    if a.len() != b.len() {
        return false;
    }
    let mut i: usize = 0;
    while i < a.len()
        invariant
            a@.len() == b@.len(),
            0 <= i <= a@.len(),
            forall|j: int| 0 <= j < i ==> a@[j] == b@[j],
        decreases a@.len() - i,
    {
        if a[i].0 != b[i].0 {
            return false;
        }
        i = i + 1;
    }
    assert(a@ =~= b@);
    true
}

impl SemanticGraphBuilder {
    /// The identifier of the binding set holding exactly the given bindings; the stored set is
    /// sorted and duplicate-free, and an equal set is reused rather than stored again.
    pub fn intern_binding_set(&mut self, bindings: Vec<BindingId>) -> (id: BindingSetId)
        requires
            old(self).well_formed(),
            old(self).view_graph().binding_sets@.len() < u32::MAX,
        ensures
            final(self).well_formed(),
            final(self).view_graph() == (SemanticGraph {
                binding_sets: final(self).view_graph().binding_sets,
                ..old(self).view_graph()
            }),
            id.0 < final(self).view_graph().binding_sets@.len(),
            forall|b: BindingId|
                final(self).view_graph().binding_sets@[id.0 as int].bindings@.contains(b)
                    <==> bindings@.contains(b),
            final(self).view_graph().binding_sets@.len() == old(self).view_graph().binding_sets@.len()
                || (final(self).view_graph().binding_sets@.len() == old(self).view_graph().binding_sets@.len() + 1 && id.0 == old(self).view_graph().binding_sets@.len()),
            final(self).view_graph().binding_sets@.take(
                old(self).view_graph().binding_sets@.len() as int,
            ) == old(self).view_graph().binding_sets@,
    {
        let ghost g0 = self.graph;
        let raw = binding_raw_ids(&bindings);
        let sorted = sorted_unique_u32(&raw);
        let canonical = binding_ids_from_raw(&sorted);
        proof {
            assert forall|b: BindingId| canonical@.contains(b) <==> bindings@.contains(b) by {
                lemma_binding_raw_contains(canonical@, b);
                lemma_binding_raw_contains(bindings@, b);
            }
            assert forall|i: int, j: int| 0 <= i < j < canonical@.len() implies canonical@[i].0
                < canonical@[j].0 by {
                assert(binding_raw(canonical@)[i] == canonical@[i].0);
                assert(binding_raw(canonical@)[j] == canonical@[j].0);
            }
        }
        let mut i: usize = 0;
        while i < self.graph.binding_sets.len()
            invariant
                self.graph == g0,
                self.well_formed(),
                0 <= i <= g0.binding_sets@.len(),
                forall|j: int| 0 <= j < i ==> g0.binding_sets@[j].bindings@ != canonical@,
                forall|b: BindingId| canonical@.contains(b) <==> bindings@.contains(b),
                strictly_increasing_bindings(canonical@),
            decreases g0.binding_sets@.len() - i,
        {
            if same_bindings(&self.graph.binding_sets[i].bindings, &canonical) {
                assert(g0.binding_sets@.take(g0.binding_sets@.len() as int) == g0.binding_sets@);
                return BindingSetId::new(i as u32);
            }
            i = i + 1;
        }
        let id = BindingSetId::new(self.graph.binding_sets.len() as u32);
        self.graph.binding_sets.push(BindingSetFact { id, bindings: canonical });
        proof {
            let g = self.graph;
            assert(g.binding_sets@.take(g0.binding_sets@.len() as int) == g0.binding_sets@);
            assert forall|i: int| 0 <= i < g.binding_sets@.len() implies (
            #[trigger] g.binding_sets@[i]).id.0 == i by {
                if i < g0.binding_sets@.len() {
                    assert(g.binding_sets@[i] == g0.binding_sets@[i]);
                }
            }
            assert forall|i: int|
                0 <= i < g.binding_sets@.len() implies strictly_increasing_bindings(
                (#[trigger] g.binding_sets@[i]).bindings@,
            ) by {
                if i < g0.binding_sets@.len() {
                    assert(g.binding_sets@[i] == g0.binding_sets@[i]);
                }
            }
            assert forall|i: int, j: int|
                0 <= i < g.binding_sets@.len() && 0 <= j < g.binding_sets@.len() && i != j
                    implies #[trigger] g.binding_sets@[i].bindings@
                != #[trigger] g.binding_sets@[j].bindings@ by {
                if i < g0.binding_sets@.len() {
                    assert(g.binding_sets@[i] == g0.binding_sets@[i]);
                }
                if j < g0.binding_sets@.len() {
                    assert(g.binding_sets@[j] == g0.binding_sets@[j]);
                }
            }
        }
        id
    }
}

/// Interning law: a well-formed graph never stores the same set of bindings under two
/// identifiers, so two binding sets with the same members are the same set.
pub proof fn lemma_binding_sets_with_same_members_are_identical(g: SemanticGraph, i: int, j: int)
    requires
        graph_well_formed(g),
        0 <= i < g.binding_sets@.len(),
        0 <= j < g.binding_sets@.len(),
        forall|b: BindingId|
            g.binding_sets@[i].bindings@.contains(b) <==> g.binding_sets@[j].bindings@.contains(b),
    ensures
        i == j,
{
    let a = g.binding_sets@[i].bindings@;
    let c = g.binding_sets@[j].bindings@;
    assert(strictly_increasing_bindings(a));
    assert(strictly_increasing_bindings(c));
    assert forall|x: u32| binding_raw(a).contains(x) <==> binding_raw(c).contains(x) by {
        lemma_binding_raw_contains(a, BindingId(x));
        lemma_binding_raw_contains(c, BindingId(x));
    }
    assert(strictly_increasing_u32(binding_raw(a))) by {
        assert forall|p: int, q: int| 0 <= p < q < binding_raw(a).len() implies binding_raw(a)[p]
            < binding_raw(a)[q] by {
            assert(a[p].0 < a[q].0);
        }
    }
    assert(strictly_increasing_u32(binding_raw(c))) by {
        assert forall|p: int, q: int| 0 <= p < q < binding_raw(c).len() implies binding_raw(c)[p]
            < binding_raw(c)[q] by {
            assert(c[p].0 < c[q].0);
        }
    }
    lemma_sorted_unique_determined(binding_raw(a), binding_raw(c));
    lemma_binding_raw_injective(a, c);
}

pub open spec fn uncertainty_raw(s: Seq<FlowUncertaintyKind>) -> Seq<u32> {
    s.map_values(|k: FlowUncertaintyKind| uncertainty_rank(k) as u32)
}

fn uncertainty_to_rank(k: FlowUncertaintyKind) -> (r: u32)
    ensures
        r == uncertainty_rank(k),
{
    match k {
        FlowUncertaintyKind::OpaqueCallMayMutateGlobal => 0,
        FlowUncertaintyKind::OpaqueCallMayMutateClosure => 1,
        FlowUncertaintyKind::DynamicNamespaceMutation => 2,
        FlowUncertaintyKind::SuspensionPoint => 3,
        FlowUncertaintyKind::ComplexExceptionFlow => 4,
        FlowUncertaintyKind::FailedPartialMatch => 5,
        FlowUncertaintyKind::UnsupportedFlow => 6,
    }
}

fn uncertainty_from_rank(r: u32) -> (k: FlowUncertaintyKind)
    requires
        r < 7,
    ensures
        uncertainty_rank(k) == r,
{
        if r == 0 {
            FlowUncertaintyKind::OpaqueCallMayMutateGlobal
        } else if r == 1 {
            FlowUncertaintyKind::OpaqueCallMayMutateClosure
        } else if r == 2 {
            FlowUncertaintyKind::DynamicNamespaceMutation
        } else if r == 3 {
            FlowUncertaintyKind::SuspensionPoint
        } else if r == 4 {
            FlowUncertaintyKind::ComplexExceptionFlow
        } else if r == 5 {
            FlowUncertaintyKind::FailedPartialMatch
        } else {
            FlowUncertaintyKind::UnsupportedFlow
        }
}

pub proof fn lemma_uncertainty_rank_injective(a: FlowUncertaintyKind, b: FlowUncertaintyKind)
    requires
        uncertainty_rank(a) == uncertainty_rank(b),
    ensures
        a == b,
{
}

fn uncertainty_raw_of(v: &Vec<FlowUncertaintyKind>) -> (out: Vec<u32>)
    ensures
        out@ == uncertainty_raw(v@),
{
    let mut out: Vec<u32> = Vec::new();
    let mut i: usize = 0;
    while i < v.len()
        invariant
            0 <= i <= v@.len(),
            out@ == uncertainty_raw(v@.take(i as int)),
        decreases v@.len() - i,
    {
        out.push(uncertainty_to_rank(v[i]));
        assert(v@.take((i + 1) as int) == v@.take(i as int).push(v@[i as int]));
        assert(uncertainty_raw(v@.take((i + 1) as int)) == uncertainty_raw(v@.take(i as int)).push(uncertainty_rank(v@[i as int]) as u32));
        i = i + 1;
    }
    assert(v@.take(v@.len() as int) == v@);
    out
}

fn uncertainty_from_raw(v: &Vec<u32>) -> (out: Vec<FlowUncertaintyKind>)
    requires
        forall|i: int| 0 <= i < v@.len() ==> v@[i] < 7,
    ensures
        uncertainty_raw(out@) == v@,
{
    let mut out: Vec<FlowUncertaintyKind> = Vec::new();
    let mut i: usize = 0;
    while i < v.len()
        invariant
            forall|i: int| 0 <= i < v@.len() ==> v@[i] < 7,
            0 <= i <= v@.len(),
            out@.len() == i,
            uncertainty_raw(out@) == v@.take(i as int),
        decreases v@.len() - i,
    {
        out.push(uncertainty_from_rank(v[i]));
        assert(v@.take((i + 1) as int) == v@.take(i as int).push(v@[i as int]));
        assert(uncertainty_raw(out@) =~= v@.take((i + 1) as int));
        i = i + 1;
    }
    assert(v@.take(v@.len() as int) == v@);
    out
}

pub proof fn lemma_uncertainty_raw_contains(a: Seq<FlowUncertaintyKind>, x: FlowUncertaintyKind)
    ensures
        a.contains(x) <==> uncertainty_raw(a).contains(uncertainty_rank(x) as u32),
{
    if a.contains(x) {
        let t = choose|t: int| 0 <= t < a.len() && a[t] == x;
        assert(uncertainty_raw(a)[t] == uncertainty_rank(x) as u32);
    }
    if uncertainty_raw(a).contains(uncertainty_rank(x) as u32) {
        let t = choose|t: int| 0 <= t < uncertainty_raw(a).len() && uncertainty_raw(a)[t] == uncertainty_rank(x) as u32;
        assert(uncertainty_rank(a[t]) as u32 == uncertainty_rank(x) as u32);
        lemma_uncertainty_rank_injective(a[t], x);
    }
}

fn same_uncertaintys(a: &Vec<FlowUncertaintyKind>, b: &Vec<FlowUncertaintyKind>) -> (same: bool)
    ensures
        same == (a@ == b@),
{
    if a.len() != b.len() {
        return false;
    }
    let mut i: usize = 0;
    while i < a.len()
        invariant
            a@.len() == b@.len(),
            0 <= i <= a@.len(),
            forall|j: int| 0 <= j < i ==> a@[j] == b@[j],
        decreases a@.len() - i,
    {
        if uncertainty_to_rank(a[i]) != uncertainty_to_rank(b[i]) {
            return false;
        }
        proof { lemma_uncertainty_rank_injective(a@[i as int], b@[i as int]); }
        i = i + 1;
    }
    assert(a@ =~= b@);
    true
}

impl SemanticGraphBuilder {
    /// The identifier of the uncertainty set holding exactly the given kinds; stored sorted and duplicate-free, reusing an equal set.
    pub fn intern_flow_uncertainty_set(&mut self, items: Vec<FlowUncertaintyKind>) -> (id: FlowUncertaintySetId)
        requires
            old(self).well_formed(),
            old(self).view_graph().flow_uncertainty_sets@.len() < u32::MAX,
        ensures
            final(self).well_formed(),
            final(self).view_graph() == (SemanticGraph {
                flow_uncertainty_sets: final(self).view_graph().flow_uncertainty_sets,
                ..old(self).view_graph()
            }),
            id.0 < final(self).view_graph().flow_uncertainty_sets@.len(),
            forall|k: FlowUncertaintyKind|
                final(self).view_graph().flow_uncertainty_sets@[id.0 as int].uncertainties@.contains(k)
                    <==> items@.contains(k),
            final(self).view_graph().flow_uncertainty_sets@.len() == old(self).view_graph().flow_uncertainty_sets@.len()
                || (final(self).view_graph().flow_uncertainty_sets@.len() == old(self).view_graph().flow_uncertainty_sets@.len() + 1 && id.0 == old(self).view_graph().flow_uncertainty_sets@.len()),
            final(self).view_graph().flow_uncertainty_sets@.take(
                old(self).view_graph().flow_uncertainty_sets@.len() as int,
            ) == old(self).view_graph().flow_uncertainty_sets@,
    {
        let ghost g0 = self.graph;
        let raw = uncertainty_raw_of(&items);
        let sorted = sorted_unique_u32(&raw);
        proof {
            assert forall|i: int| 0 <= i < sorted@.len() implies sorted@[i] < 7 by {
                assert(sorted@.contains(sorted@[i]));
                let t = choose|t: int| 0 <= t < raw@.len() && raw@[t] == sorted@[i];
                assert(raw@[t] == uncertainty_rank(items@[t]) as u32);
            }
        }
        let canonical = uncertainty_from_raw(&sorted);
        proof {
            assert forall|k: FlowUncertaintyKind| canonical@.contains(k) <==> items@.contains(k) by {
                lemma_uncertainty_raw_contains(canonical@, k);
                lemma_uncertainty_raw_contains(items@, k);
            }
            assert forall|i: int, j: int| 0 <= i < j < canonical@.len() implies uncertainty_rank(canonical@[i])
                < uncertainty_rank(canonical@[j]) by {
                assert(uncertainty_raw(canonical@)[i] == uncertainty_rank(canonical@[i]) as u32);
                assert(uncertainty_raw(canonical@)[j] == uncertainty_rank(canonical@[j]) as u32);
            }
        }
        let mut i: usize = 0;
        while i < self.graph.flow_uncertainty_sets.len()
            invariant
                self.graph == g0,
                self.well_formed(),
                0 <= i <= g0.flow_uncertainty_sets@.len(),
                forall|j: int| 0 <= j < i ==> g0.flow_uncertainty_sets@[j].uncertainties@ != canonical@,
                forall|k: FlowUncertaintyKind| canonical@.contains(k) <==> items@.contains(k),
                strictly_increasing_uncertainties(canonical@),
            decreases g0.flow_uncertainty_sets@.len() - i,
        {
            if same_uncertaintys(&self.graph.flow_uncertainty_sets[i].uncertainties, &canonical) {
                assert(g0.flow_uncertainty_sets@.take(g0.flow_uncertainty_sets@.len() as int) == g0.flow_uncertainty_sets@);
                return FlowUncertaintySetId::new(i as u32);
            }
            i = i + 1;
        }
        let id = FlowUncertaintySetId::new(self.graph.flow_uncertainty_sets.len() as u32);
        self.graph.flow_uncertainty_sets.push(FlowUncertaintySetFact { id, uncertainties: canonical });
        proof {
            let g = self.graph;
            assert(g.flow_uncertainty_sets@.take(g0.flow_uncertainty_sets@.len() as int) == g0.flow_uncertainty_sets@);
            assert forall|i: int| 0 <= i < g.flow_uncertainty_sets@.len() implies (
            #[trigger] g.flow_uncertainty_sets@[i]).id.0 == i by {
                if i < g0.flow_uncertainty_sets@.len() {
                    assert(g.flow_uncertainty_sets@[i] == g0.flow_uncertainty_sets@[i]);
                }
            }
            assert forall|i: int|
                0 <= i < g.flow_uncertainty_sets@.len() implies strictly_increasing_uncertainties(
                (#[trigger] g.flow_uncertainty_sets@[i]).uncertainties@,
            ) by {
                if i < g0.flow_uncertainty_sets@.len() {
                    assert(g.flow_uncertainty_sets@[i] == g0.flow_uncertainty_sets@[i]);
                }
            }
            assert forall|i: int, j: int|
                0 <= i < g.flow_uncertainty_sets@.len() && 0 <= j < g.flow_uncertainty_sets@.len() && i != j
                    implies #[trigger] g.flow_uncertainty_sets@[i].uncertainties@
                != #[trigger] g.flow_uncertainty_sets@[j].uncertainties@ by {
                if i < g0.flow_uncertainty_sets@.len() {
                    assert(g.flow_uncertainty_sets@[i] == g0.flow_uncertainty_sets@[i]);
                }
                if j < g0.flow_uncertainty_sets@.len() {
                    assert(g.flow_uncertainty_sets@[j] == g0.flow_uncertainty_sets@[j]);
                }
            }
        }
        id
    }
}

pub open spec fn effect_raw(s: Seq<DefinitionEffectKind>) -> Seq<u32> {
    s.map_values(|k: DefinitionEffectKind| effect_rank(k) as u32)
}

fn effect_to_rank(k: DefinitionEffectKind) -> (r: u32)
    ensures
        r == effect_rank(k),
{
    match k {
        DefinitionEffectKind::DecoratorApplication => 0,
        DefinitionEffectKind::DefaultExpressionEvaluation => 1,
        DefinitionEffectKind::EagerAnnotationEvaluation => 2,
        DefinitionEffectKind::LazyAnnotationIntrospectionRisk => 3,
        DefinitionEffectKind::ClassBaseEvaluation => 4,
        DefinitionEffectKind::ClassKeywordEvaluation => 5,
        DefinitionEffectKind::MetaclassEvaluation => 6,
        DefinitionEffectKind::ClassBodyExecution => 7,
    }
}

fn effect_from_rank(r: u32) -> (k: DefinitionEffectKind)
    requires
        r < 8,
    ensures
        effect_rank(k) == r,
{
        if r == 0 {
            DefinitionEffectKind::DecoratorApplication
        } else if r == 1 {
            DefinitionEffectKind::DefaultExpressionEvaluation
        } else if r == 2 {
            DefinitionEffectKind::EagerAnnotationEvaluation
        } else if r == 3 {
            DefinitionEffectKind::LazyAnnotationIntrospectionRisk
        } else if r == 4 {
            DefinitionEffectKind::ClassBaseEvaluation
        } else if r == 5 {
            DefinitionEffectKind::ClassKeywordEvaluation
        } else if r == 6 {
            DefinitionEffectKind::MetaclassEvaluation
        } else {
            DefinitionEffectKind::ClassBodyExecution
        }
}

pub proof fn lemma_effect_rank_injective(a: DefinitionEffectKind, b: DefinitionEffectKind)
    requires
        effect_rank(a) == effect_rank(b),
    ensures
        a == b,
{
}

fn effect_raw_of(v: &Vec<DefinitionEffectKind>) -> (out: Vec<u32>)
    ensures
        out@ == effect_raw(v@),
{
    let mut out: Vec<u32> = Vec::new();
    let mut i: usize = 0;
    while i < v.len()
        invariant
            0 <= i <= v@.len(),
            out@ == effect_raw(v@.take(i as int)),
        decreases v@.len() - i,
    {
        out.push(effect_to_rank(v[i]));
        assert(v@.take((i + 1) as int) == v@.take(i as int).push(v@[i as int]));
        assert(effect_raw(v@.take((i + 1) as int)) == effect_raw(v@.take(i as int)).push(effect_rank(v@[i as int]) as u32));
        i = i + 1;
    }
    assert(v@.take(v@.len() as int) == v@);
    out
}

fn effect_from_raw(v: &Vec<u32>) -> (out: Vec<DefinitionEffectKind>)
    requires
        forall|i: int| 0 <= i < v@.len() ==> v@[i] < 8,
    ensures
        effect_raw(out@) == v@,
{
    let mut out: Vec<DefinitionEffectKind> = Vec::new();
    let mut i: usize = 0;
    while i < v.len()
        invariant
            forall|i: int| 0 <= i < v@.len() ==> v@[i] < 8,
            0 <= i <= v@.len(),
            out@.len() == i,
            effect_raw(out@) == v@.take(i as int),
        decreases v@.len() - i,
    {
        out.push(effect_from_rank(v[i]));
        assert(v@.take((i + 1) as int) == v@.take(i as int).push(v@[i as int]));
        assert(effect_raw(out@) =~= v@.take((i + 1) as int));
        i = i + 1;
    }
    assert(v@.take(v@.len() as int) == v@);
    out
}

pub proof fn lemma_effect_raw_contains(a: Seq<DefinitionEffectKind>, x: DefinitionEffectKind)
    ensures
        a.contains(x) <==> effect_raw(a).contains(effect_rank(x) as u32),
{
    if a.contains(x) {
        let t = choose|t: int| 0 <= t < a.len() && a[t] == x;
        assert(effect_raw(a)[t] == effect_rank(x) as u32);
    }
    if effect_raw(a).contains(effect_rank(x) as u32) {
        let t = choose|t: int| 0 <= t < effect_raw(a).len() && effect_raw(a)[t] == effect_rank(x) as u32;
        assert(effect_rank(a[t]) as u32 == effect_rank(x) as u32);
        lemma_effect_rank_injective(a[t], x);
    }
}

fn same_effects(a: &Vec<DefinitionEffectKind>, b: &Vec<DefinitionEffectKind>) -> (same: bool)
    ensures
        same == (a@ == b@),
{
    if a.len() != b.len() {
        return false;
    }
    let mut i: usize = 0;
    while i < a.len()
        invariant
            a@.len() == b@.len(),
            0 <= i <= a@.len(),
            forall|j: int| 0 <= j < i ==> a@[j] == b@[j],
        decreases a@.len() - i,
    {
        if effect_to_rank(a[i]) != effect_to_rank(b[i]) {
            return false;
        }
        proof { lemma_effect_rank_injective(a@[i as int], b@[i as int]); }
        i = i + 1;
    }
    assert(a@ =~= b@);
    true
}

impl SemanticGraphBuilder {
    /// The identifier of the effect set holding exactly the given effects; stored sorted and duplicate-free, reusing an equal set.
    pub fn intern_definition_effect_set(&mut self, items: Vec<DefinitionEffectKind>) -> (id: DefinitionEffectSetId)
        requires
            old(self).well_formed(),
            old(self).view_graph().definition_effect_sets@.len() < u32::MAX,
        ensures
            final(self).well_formed(),
            final(self).view_graph() == (SemanticGraph {
                definition_effect_sets: final(self).view_graph().definition_effect_sets,
                ..old(self).view_graph()
            }),
            id.0 < final(self).view_graph().definition_effect_sets@.len(),
            forall|k: DefinitionEffectKind|
                final(self).view_graph().definition_effect_sets@[id.0 as int].effects@.contains(k)
                    <==> items@.contains(k),
            final(self).view_graph().definition_effect_sets@.len() == old(self).view_graph().definition_effect_sets@.len()
                || (final(self).view_graph().definition_effect_sets@.len() == old(self).view_graph().definition_effect_sets@.len() + 1 && id.0 == old(self).view_graph().definition_effect_sets@.len()),
            final(self).view_graph().definition_effect_sets@.take(
                old(self).view_graph().definition_effect_sets@.len() as int,
            ) == old(self).view_graph().definition_effect_sets@,
    {
        let ghost g0 = self.graph;
        let raw = effect_raw_of(&items);
        let sorted = sorted_unique_u32(&raw);
        proof {
            assert forall|i: int| 0 <= i < sorted@.len() implies sorted@[i] < 8 by {
                assert(sorted@.contains(sorted@[i]));
                let t = choose|t: int| 0 <= t < raw@.len() && raw@[t] == sorted@[i];
                assert(raw@[t] == effect_rank(items@[t]) as u32);
            }
        }
        let canonical = effect_from_raw(&sorted);
        proof {
            assert forall|k: DefinitionEffectKind| canonical@.contains(k) <==> items@.contains(k) by {
                lemma_effect_raw_contains(canonical@, k);
                lemma_effect_raw_contains(items@, k);
            }
            assert forall|i: int, j: int| 0 <= i < j < canonical@.len() implies effect_rank(canonical@[i])
                < effect_rank(canonical@[j]) by {
                assert(effect_raw(canonical@)[i] == effect_rank(canonical@[i]) as u32);
                assert(effect_raw(canonical@)[j] == effect_rank(canonical@[j]) as u32);
            }
        }
        let mut i: usize = 0;
        while i < self.graph.definition_effect_sets.len()
            invariant
                self.graph == g0,
                self.well_formed(),
                0 <= i <= g0.definition_effect_sets@.len(),
                forall|j: int| 0 <= j < i ==> g0.definition_effect_sets@[j].effects@ != canonical@,
                forall|k: DefinitionEffectKind| canonical@.contains(k) <==> items@.contains(k),
                strictly_increasing_effects(canonical@),
            decreases g0.definition_effect_sets@.len() - i,
        {
            if same_effects(&self.graph.definition_effect_sets[i].effects, &canonical) {
                assert(g0.definition_effect_sets@.take(g0.definition_effect_sets@.len() as int) == g0.definition_effect_sets@);
                return DefinitionEffectSetId::new(i as u32);
            }
            i = i + 1;
        }
        let id = DefinitionEffectSetId::new(self.graph.definition_effect_sets.len() as u32);
        self.graph.definition_effect_sets.push(DefinitionEffectSetFact { id, effects: canonical });
        proof {
            let g = self.graph;
            assert(g.definition_effect_sets@.take(g0.definition_effect_sets@.len() as int) == g0.definition_effect_sets@);
            assert forall|i: int| 0 <= i < g.definition_effect_sets@.len() implies (
            #[trigger] g.definition_effect_sets@[i]).id.0 == i by {
                if i < g0.definition_effect_sets@.len() {
                    assert(g.definition_effect_sets@[i] == g0.definition_effect_sets@[i]);
                }
            }
            assert forall|i: int|
                0 <= i < g.definition_effect_sets@.len() implies strictly_increasing_effects(
                (#[trigger] g.definition_effect_sets@[i]).effects@,
            ) by {
                if i < g0.definition_effect_sets@.len() {
                    assert(g.definition_effect_sets@[i] == g0.definition_effect_sets@[i]);
                }
            }
            assert forall|i: int, j: int|
                0 <= i < g.definition_effect_sets@.len() && 0 <= j < g.definition_effect_sets@.len() && i != j
                    implies #[trigger] g.definition_effect_sets@[i].effects@
                != #[trigger] g.definition_effect_sets@[j].effects@ by {
                if i < g0.definition_effect_sets@.len() {
                    assert(g.definition_effect_sets@[i] == g0.definition_effect_sets@[i]);
                }
                if j < g0.definition_effect_sets@.len() {
                    assert(g.definition_effect_sets@[j] == g0.definition_effect_sets@[j]);
                }
            }
        }
        id
    }
}

impl SemanticGraphBuilder {
    /// Records a definition and links it from its binding, its scope and its context. Its
    /// definition-time effects are not derived yet: the effect set is the placeholder set `0`
    /// and the removal risk is `Unknown`.
    pub fn add_definition(&mut self, input: DefinitionInput) -> (id: DefId)
        requires
            old(self).well_formed(),
            old(self).view_graph().definitions@.len() < u32::MAX,
            input.binding.0 < old(self).view_graph().bindings@.len(),
            input.scope.0 < old(self).view_graph().scopes@.len(),
            input.context.0 < old(self).view_graph().contexts@.len(),
        ensures
            final(self).well_formed(),
            id.0 == old(self).view_graph().definitions@.len(),
            final(self).view_graph() == (SemanticGraph {
                definitions: final(self).view_graph().definitions,
                bindings: final(self).view_graph().bindings,
                scopes: final(self).view_graph().scopes,
                contexts: final(self).view_graph().contexts,
                ..old(self).view_graph()
            }),
            final(self).view_graph().definitions@ == old(self).view_graph().definitions@.push(
                SemanticDefinition {
                    id,
                    module: input.module,
                    binding: input.binding,
                    scope: input.scope,
                    context: input.context,
                    kind: input.kind,
                    name: input.name,
                    qualified_name: input.qualified_name,
                    range: input.range,
                    name_range: input.name_range,
                    reportable: input.reportable,
                    is_async: input.is_async,
                    origin_domain: input.origin_domain,
                    role: DefinitionRole::Ordinary,
                    overload_group: None,
                    definition_effects: DefinitionEffectSetId(0),
                    removal_risk: RemovalRisk::Unknown,
                },
            ),
            final(self).view_graph().bindings@ == old(self).view_graph().bindings@.update(
                input.binding.0 as int,
                BindingFact {
                    definition: Some(id),
                    ..old(self).view_graph().bindings@[input.binding.0 as int]
                },
            ),
            final(self).view_graph().scopes@ == old(self).view_graph().scopes@.update(
                input.scope.0 as int,
                ScopeFact {
                    owner_definition: Some(id),
                    ..old(self).view_graph().scopes@[input.scope.0 as int]
                },
            ),
            final(self).view_graph().contexts@ == old(self).view_graph().contexts@.update(
                input.context.0 as int,
                ContextFact {
                    owner_definition: Some(id),
                    ..old(self).view_graph().contexts@[input.context.0 as int]
                },
            ),
    {
        let ghost g0 = self.graph;
        let id = DefId::new(self.graph.definitions.len() as u32);
        self.graph.definitions.push(
            SemanticDefinition {
                id,
                module: input.module,
                binding: input.binding,
                scope: input.scope,
                context: input.context,
                kind: input.kind,
                name: input.name,
                qualified_name: input.qualified_name,
                range: input.range,
                name_range: input.name_range,
                reportable: input.reportable,
                is_async: input.is_async,
                origin_domain: input.origin_domain,
                role: DefinitionRole::Ordinary,
                overload_group: None,
                definition_effects: DefinitionEffectSetId::new(0),
                removal_risk: RemovalRisk::Unknown,
            },
        );
        self.graph.bindings[input.binding.0 as usize].definition = Some(id);
        self.graph.scopes[input.scope.0 as usize].owner_definition = Some(id);
        self.graph.contexts[input.context.0 as usize].owner_definition = Some(id);
        proof {
            let g = self.graph;
            assert forall|i: int| 0 <= i < g.definitions@.len() implies (
            #[trigger] g.definitions@[i]).id.0 == i by {
                if i < g0.definitions@.len() {
                    assert(g.definitions@[i] == g0.definitions@[i]);
                }
            }
            assert forall|i: int| 0 <= i < g.bindings@.len() implies (
            #[trigger] g.bindings@[i]).id.0 == i by {
                assert(g.bindings@[i].id == g0.bindings@[i].id);
            }
            assert forall|i: int| 0 <= i < g.scopes@.len() implies (#[trigger] g.scopes@[i]).id.0
                == i && g.scopes@[i].context.0 == i by {
                assert(g.scopes@[i].id == g0.scopes@[i].id);
                assert(g.scopes@[i].context == g0.scopes@[i].context);
            }
            assert forall|i: int| 0 <= i < g.contexts@.len() implies (
            #[trigger] g.contexts@[i]).id.0 == i && g.contexts@[i].scope.0 == i by {
                assert(g.contexts@[i].id == g0.contexts@[i].id);
                assert(g.contexts@[i].scope == g0.contexts@[i].scope);
            }
            assert forall|i: int|
                0 <= i < g.bindings@.len() implies {
                &&& (#[trigger] g.bindings@[i]).replaces == last_binding_of(
                    g.bindings@.take(i),
                    g.bindings@[i].symbol,
                )
                &&& g.bindings@[i].order == module_binding_count(
                    g.bindings@.take(i),
                    g.bindings@[i].module,
                )
            } by {
                lemma_update_keeps_chain(g0.bindings@, input.binding.0 as int, g.bindings@[input.binding.0 as int], i, g.bindings@[i].symbol);
                lemma_update_keeps_count(g0.bindings@, input.binding.0 as int, g.bindings@[input.binding.0 as int], i, g.bindings@[i].module);
            }
            lemma_update_keeps_chain(g0.bindings@, input.binding.0 as int, g.bindings@[input.binding.0 as int], g.bindings@.len() as int, SymbolId(0));
            assert forall|k: u32| #[trigger]
                self.last_binding_by_symbol@.contains_key(k) <==> last_binding_of(
                    g.bindings@,
                    SymbolId(k),
                ) is Some by {
                lemma_update_keeps_chain(g0.bindings@, input.binding.0 as int, g.bindings@[input.binding.0 as int], g.bindings@.len() as int, SymbolId(k));
                assert(g.bindings@.take(g.bindings@.len() as int) == g.bindings@);
                assert(g0.bindings@.take(g0.bindings@.len() as int) == g0.bindings@);
            }
            assert forall|k: u32| #[trigger]
                self.last_binding_by_symbol@.contains_key(k) implies Some(
                    BindingId(self.last_binding_by_symbol@[k]),
                ) == last_binding_of(g.bindings@, SymbolId(k)) by {
                lemma_update_keeps_chain(g0.bindings@, input.binding.0 as int, g.bindings@[input.binding.0 as int], g.bindings@.len() as int, SymbolId(k));
                assert(g.bindings@.take(g.bindings@.len() as int) == g.bindings@);
                assert(g0.bindings@.take(g0.bindings@.len() as int) == g0.bindings@);
            }
            assert forall|k: u32| #[trigger]
                self.next_binding_order_by_module@.contains_key(k) <==> module_binding_count(
                    g.bindings@,
                    ModuleId(k),
                ) > 0 by {
                lemma_update_keeps_count(g0.bindings@, input.binding.0 as int, g.bindings@[input.binding.0 as int], g.bindings@.len() as int, ModuleId(k));
                assert(g.bindings@.take(g.bindings@.len() as int) == g.bindings@);
                assert(g0.bindings@.take(g0.bindings@.len() as int) == g0.bindings@);
            }
            assert forall|k: u32| #[trigger]
                self.next_binding_order_by_module@.contains_key(k)
                    implies self.next_binding_order_by_module@[k] == module_binding_count(
                    g.bindings@,
                    ModuleId(k),
                ) by {
                lemma_update_keeps_count(g0.bindings@, input.binding.0 as int, g.bindings@[input.binding.0 as int], g.bindings@.len() as int, ModuleId(k));
                assert(g.bindings@.take(g.bindings@.len() as int) == g.bindings@);
                assert(g0.bindings@.take(g0.bindings@.len() as int) == g0.bindings@);
            }
            assert forall|i: int, j: int|
                0 <= i < g.symbols@.len() && 0 <= j < g.symbols@.len() && i != j implies !(
                #[trigger] g.symbols@[i].scope == #[trigger] g.symbols@[j].scope
                    && g.symbols@[i].name@ == g.symbols@[j].name@) by {
            }
        }
        id
    }
}

/// Changing a binding's fields other than its identifier, symbol and module keeps the
/// replacement chain of every prefix.
pub proof fn lemma_update_keeps_chain(
    bs: Seq<BindingFact>,
    at: int,
    fact: BindingFact,
    n: int,
    s: SymbolId,
)
    requires
        0 <= at < bs.len(),
        0 <= n <= bs.len(),
        fact.id == bs[at].id,
        fact.symbol == bs[at].symbol,
        fact.module == bs[at].module,
    ensures
        last_binding_of(bs.update(at, fact).take(n), s) == last_binding_of(bs.take(n), s),
    decreases n,
{
    if n > 0 {
        lemma_update_keeps_chain(bs, at, fact, n - 1, s);
        assert(bs.update(at, fact).take(n).drop_last() == bs.update(at, fact).take(n - 1));
        assert(bs.take(n).drop_last() == bs.take(n - 1));
    }
}

pub proof fn lemma_update_keeps_count(
    bs: Seq<BindingFact>,
    at: int,
    fact: BindingFact,
    n: int,
    m: ModuleId,
)
    requires
        0 <= at < bs.len(),
        0 <= n <= bs.len(),
        fact.id == bs[at].id,
        fact.symbol == bs[at].symbol,
        fact.module == bs[at].module,
    ensures
        module_binding_count(bs.update(at, fact).take(n), m) == module_binding_count(bs.take(n), m),
    decreases n,
{
    if n > 0 {
        lemma_update_keeps_count(bs, at, fact, n - 1, m);
        assert(bs.update(at, fact).take(n).drop_last() == bs.update(at, fact).take(n - 1));
        assert(bs.take(n).drop_last() == bs.take(n - 1));
    }
}

impl SemanticGraphBuilder {
    /// Records a name reference.
    pub fn add_reference(&mut self, input: ReferenceInput) -> (id: ReferenceId)
        requires
            old(self).well_formed(),
            old(self).view_graph().references@.len() < u32::MAX,
        ensures
            final(self).well_formed(),
            id.0 == old(self).view_graph().references@.len(),
            final(self).view_graph() == (SemanticGraph {
                references: final(self).view_graph().references,
                ..old(self).view_graph()
            }),
            final(self).view_graph().references@ == old(self).view_graph().references@.push(
                ReferenceFact {
                    id,
                    module: input.module,
                    source_scope: input.source_scope,
                    source_context: input.source_context,
                    source_spelling: input.source_spelling,
                    semantic_name: input.semantic_name,
                    lexical_target: input.lexical_target,
                    lookup: input.lookup,
                    binding_state: input.binding_state,
                    phase: input.phase,
                    role: input.role,
                    origin_domain: input.origin_domain,
                    annotation_semantics: input.annotation_semantics,
                    span: input.span,
                },
            ),
    {
        let ghost g0 = self.graph;
        let id = ReferenceId::new(self.graph.references.len() as u32);
        self.graph.references.push(
            ReferenceFact {
                id,
                module: input.module,
                source_scope: input.source_scope,
                source_context: input.source_context,
                source_spelling: input.source_spelling,
                semantic_name: input.semantic_name,
                lexical_target: input.lexical_target,
                lookup: input.lookup,
                binding_state: input.binding_state,
                phase: input.phase,
                role: input.role,
                origin_domain: input.origin_domain,
                annotation_semantics: input.annotation_semantics,
                span: input.span,
            },
        );
        proof {
            let g = self.graph;
            assert forall|i: int| 0 <= i < g.references@.len() implies (
            #[trigger] g.references@[i]).id.0 == i by {
                if i < g0.references@.len() {
                    assert(g.references@[i] == g0.references@[i]);
                }
            }
        }
        id
    }

    /// Replaces the flow facts recorded for a reference.
    pub fn set_reference_binding_state(
        &mut self,
        reference: ReferenceId,
        binding_state: ReferenceBindingState,
    )
        requires
            old(self).well_formed(),
            reference.0 < old(self).view_graph().references@.len(),
        ensures
            final(self).well_formed(),
            final(self).view_graph() == (SemanticGraph {
                references: final(self).view_graph().references,
                ..old(self).view_graph()
            }),
            final(self).view_graph().references@ == old(self).view_graph().references@.update(
                reference.0 as int,
                ReferenceFact {
                    binding_state,
                    ..old(self).view_graph().references@[reference.0 as int]
                },
            ),
    {
        let ghost g0 = self.graph;
        self.graph.references[reference.0 as usize].binding_state = binding_state;
        proof {
            let g = self.graph;
            assert forall|i: int| 0 <= i < g.references@.len() implies (
            #[trigger] g.references@[i]).id.0 == i by {
                assert(g.references@[i].id == g0.references@[i].id);
            }
        }
    }

    /// Replaces the flow status of a context; a context without a status is left alone.
    pub fn set_context_flow_status(&mut self, context: ContextId, status: ContextFlowStatus)
        requires
            old(self).well_formed(),
        ensures
            final(self).well_formed(),
            final(self).view_graph() == (SemanticGraph {
                context_flow_statuses: final(self).view_graph().context_flow_statuses,
                ..old(self).view_graph()
            }),
            context.0 < old(self).view_graph().context_flow_statuses@.len() ==> final(self).view_graph().context_flow_statuses@
                == old(self).view_graph().context_flow_statuses@.update(
                context.0 as int,
                ContextFlowStatusFact { context, status },
            ),
            context.0 >= old(self).view_graph().context_flow_statuses@.len() ==> final(self).view_graph().context_flow_statuses@ == old(self).view_graph().context_flow_statuses@,
    {
        let ghost g0 = self.graph;
        if (context.0 as usize) < self.graph.context_flow_statuses.len() {
            self.graph.context_flow_statuses[context.0 as usize].status = status;
            proof {
                let g = self.graph;
                assert(g0.context_flow_statuses@[context.0 as int].context == context);
                assert(g.context_flow_statuses@ =~= g0.context_flow_statuses@.update(
                    context.0 as int,
                    ContextFlowStatusFact { context, status },
                ));
                assert forall|i: int| 0 <= i < g.context_flow_statuses@.len() implies (
                #[trigger] g.context_flow_statuses@[i]).context.0 == i by {
                    assert(g.context_flow_statuses@[i].context
                        == g0.context_flow_statuses@[i].context);
                }
            }
        }
    }

    /// Records the derived definition-time effects and removal risk of a definition.
    pub fn set_definition_effects(
        &mut self,
        definition: DefId,
        effects: DefinitionEffectSetId,
        removal_risk: RemovalRisk,
    )
        requires
            old(self).well_formed(),
            definition.0 < old(self).view_graph().definitions@.len(),
        ensures
            final(self).well_formed(),
            final(self).view_graph() == (SemanticGraph {
                definitions: final(self).view_graph().definitions,
                ..old(self).view_graph()
            }),
            final(self).view_graph().definitions@ == old(self).view_graph().definitions@.update(
                definition.0 as int,
                SemanticDefinition {
                    definition_effects: effects,
                    removal_risk,
                    ..old(self).view_graph().definitions@[definition.0 as int]
                },
            ),
    {
        let ghost g0 = self.graph;
        self.graph.definitions[definition.0 as usize].definition_effects = effects;
        self.graph.definitions[definition.0 as usize].removal_risk = removal_risk;
        proof {
            let g = self.graph;
            assert forall|i: int| 0 <= i < g.definitions@.len() implies (
            #[trigger] g.definitions@[i]).id.0 == i by {
                assert(g.definitions@[i].id == g0.definitions@[i].id);
            }
        }
    }

    /// Records a definition's overload role and group.
    pub fn set_definition_role(
        &mut self,
        definition: DefId,
        role: DefinitionRole,
        group: Option<OverloadGroupId>,
    )
        requires
            old(self).well_formed(),
            definition.0 < old(self).view_graph().definitions@.len(),
        ensures
            final(self).well_formed(),
            final(self).view_graph() == (SemanticGraph {
                definitions: final(self).view_graph().definitions,
                ..old(self).view_graph()
            }),
            final(self).view_graph().definitions@ == old(self).view_graph().definitions@.update(
                definition.0 as int,
                SemanticDefinition {
                    role,
                    overload_group: group,
                    ..old(self).view_graph().definitions@[definition.0 as int]
                },
            ),
    {
        let ghost g0 = self.graph;
        self.graph.definitions[definition.0 as usize].role = role;
        self.graph.definitions[definition.0 as usize].overload_group = group;
        proof {
            let g = self.graph;
            assert forall|i: int| 0 <= i < g.definitions@.len() implies (
            #[trigger] g.definitions@[i]).id.0 == i by {
                assert(g.definitions@[i].id == g0.definitions@[i].id);
            }
        }
    }

    /// Records a group of overload declarations and their implementation, if any.
    pub fn add_overload_group(
        &mut self,
        scope: ScopeId,
        name: String,
        declarations: Vec<DefId>,
        implementation: Option<DefId>,
    ) -> (id: OverloadGroupId)
        requires
            old(self).well_formed(),
            old(self).view_graph().overload_groups@.len() < u32::MAX,
        ensures
            final(self).well_formed(),
            id.0 == old(self).view_graph().overload_groups@.len(),
            final(self).view_graph() == (SemanticGraph {
                overload_groups: final(self).view_graph().overload_groups,
                ..old(self).view_graph()
            }),
            final(self).view_graph().overload_groups@
                == old(self).view_graph().overload_groups@.push(
                OverloadGroupFact { id, scope, name, declarations, implementation },
            ),
    {
        let ghost g0 = self.graph;
        let id = OverloadGroupId::new(self.graph.overload_groups.len() as u32);
        self.graph.overload_groups.push(
            OverloadGroupFact { id, scope, name, declarations, implementation },
        );
        proof {
            let g = self.graph;
            assert forall|i: int| 0 <= i < g.overload_groups@.len() implies (
            #[trigger] g.overload_groups@[i]).id.0 == i by {
                if i < g0.overload_groups@.len() {
                    assert(g.overload_groups@[i] == g0.overload_groups@[i]);
                }
            }
        }
        id
    }

    /// Records an internal unused-definition candidate.
    pub fn add_internal_candidate(&mut self, input: InternalCandidateInput) -> (id:
        InternalCandidateId)
        requires
            old(self).well_formed(),
            old(self).view_graph().internal_candidates@.len() < u32::MAX,
        ensures
            final(self).well_formed(),
            id.0 == old(self).view_graph().internal_candidates@.len(),
            final(self).view_graph() == (SemanticGraph {
                internal_candidates: final(self).view_graph().internal_candidates,
                ..old(self).view_graph()
            }),
            final(self).view_graph().internal_candidates@
                == old(self).view_graph().internal_candidates@.push(
                InternalCandidateFact {
                    id,
                    definition: input.definition,
                    rule: input.rule,
                    disposition: input.disposition,
                    reasons: input.reasons,
                    inbound_references: input.inbound_references,
                    removal_risk: input.removal_risk,
                },
            ),
    {
        let ghost g0 = self.graph;
        let id = InternalCandidateId::new(self.graph.internal_candidates.len() as u32);
        self.graph.internal_candidates.push(
            InternalCandidateFact {
                id,
                definition: input.definition,
                rule: input.rule,
                disposition: input.disposition,
                reasons: input.reasons,
                inbound_references: input.inbound_references,
                removal_risk: input.removal_risk,
            },
        );
        proof {
            let g = self.graph;
            assert forall|i: int| 0 <= i < g.internal_candidates@.len() implies (
            #[trigger] g.internal_candidates@[i]).id.0 == i by {
                if i < g0.internal_candidates@.len() {
                    assert(g.internal_candidates@[i] == g0.internal_candidates@[i]);
                }
            }
        }
        id
    }
}

impl SemanticGraphBuilder {
    /// Every graph the builder holds is well formed.
    pub proof fn lemma_graph_well_formed(&self)
        requires
            self.well_formed(),
        ensures
            graph_well_formed(self.view_graph()),
    {
    }
}

pub proof fn lemma_last_binding_of_meaning(bs: Seq<BindingFact>, s: SymbolId)
    requires
        forall|k: int| 0 <= k < bs.len() ==> (#[trigger] bs[k]).id.0 == k,
    ensures
        match last_binding_of(bs, s) {
            Some(r) => {
                &&& r.0 < bs.len()
                &&& bs[r.0 as int].symbol == s
                &&& forall|k: int| r.0 < k < bs.len() ==> bs[k].symbol != s
            },
            None => forall|k: int| 0 <= k < bs.len() ==> bs[k].symbol != s,
        },
    decreases bs.len(),
{
    if bs.len() > 0 {
        let init = bs.drop_last();
        assert forall|k: int| 0 <= k < init.len() implies (#[trigger] init[k]).id.0 == k by {
            assert(init[k] == bs[k]);
        }
        lemma_last_binding_of_meaning(init, s);
        let last = bs[bs.len() - 1];
        assert(bs.last() == last);
        assert(last.id.0 == bs.len() - 1);
        if last.symbol != s {
            assert(last_binding_of(bs, s) == last_binding_of(init, s));
            match last_binding_of(init, s) {
                Some(r) => {
                    assert(init[r.0 as int] == bs[r.0 as int]);
                    assert forall|k: int| r.0 < k < bs.len() implies bs[k].symbol != s by {
                        if k < bs.len() - 1 {
                            assert(init[k] == bs[k]);
                        }
                    }
                },
                None => {
                    assert forall|k: int| 0 <= k < bs.len() implies bs[k].symbol != s by {
                        if k < bs.len() - 1 {
                            assert(init[k] == bs[k]);
                        }
                    }
                },
            }
        }
    }
}

/// Replacement law: a binding replaces exactly the latest earlier binding of its symbol, and
/// replaces nothing when it is the symbol's first binding.
pub proof fn lemma_binding_replaces_latest_earlier_binding(g: SemanticGraph, i: int)
    requires
        graph_well_formed(g),
        0 <= i < g.bindings@.len(),
    ensures
        match g.bindings@[i].replaces {
            Some(r) => {
                &&& r.0 < i
                &&& g.bindings@[r.0 as int].symbol == g.bindings@[i].symbol
                &&& forall|k: int|
                    r.0 < k < i ==> g.bindings@[k].symbol != g.bindings@[i].symbol
            },
            None => forall|k: int| 0 <= k < i ==> g.bindings@[k].symbol != g.bindings@[i].symbol,
        },
{
    let prefix = g.bindings@.take(i);
    assert(g.bindings@[i].replaces == last_binding_of(prefix, g.bindings@[i].symbol));
    assert forall|k: int| 0 <= k < prefix.len() implies (#[trigger] prefix[k]).id.0 == k by {
        assert(prefix[k] == g.bindings@[k]);
    }
    lemma_last_binding_of_meaning(prefix, g.bindings@[i].symbol);
    match g.bindings@[i].replaces {
        Some(r) => {
            assert(prefix[r.0 as int] == g.bindings@[r.0 as int]);
            assert forall|k: int| r.0 < k < i implies g.bindings@[k].symbol
                != g.bindings@[i].symbol by {
                assert(prefix[k] == g.bindings@[k]);
            }
        },
        None => {
            assert forall|k: int| 0 <= k < i implies g.bindings@[k].symbol
                != g.bindings@[i].symbol by {
                assert(prefix[k] == g.bindings@[k]);
            }
        },
    }
}

pub proof fn lemma_module_count_monotone(bs: Seq<BindingFact>, m: ModuleId, a: int, b: int)
    requires
        0 <= a <= b <= bs.len(),
    ensures
        module_binding_count(bs.take(a), m) <= module_binding_count(bs.take(b), m),
        a < b && bs[a].module == m ==> module_binding_count(bs.take(a), m) < module_binding_count(
            bs.take(b),
            m,
        ),
    decreases b - a,
{
    if a < b {
        lemma_module_count_monotone(bs, m, a, b - 1);
        assert(bs.take(b).drop_last() == bs.take(b - 1));
        if a == b - 1 {
            assert(bs.take(b).last() == bs[a]);
        }
    }
}

/// Ordering law: bindings of one module carry strictly increasing orders in creation order.
pub proof fn lemma_binding_orders_increase_within_module(g: SemanticGraph, i: int, j: int)
    requires
        graph_well_formed(g),
        0 <= i < j < g.bindings@.len(),
        g.bindings@[i].module == g.bindings@[j].module,
    ensures
        g.bindings@[i].order < g.bindings@[j].order,
{
    lemma_module_count_monotone(g.bindings@, g.bindings@[i].module, i, j);
}

/// Interning law for symbols: one `(scope, name)` pair never has two symbols.
pub proof fn lemma_symbol_identity(g: SemanticGraph, i: int, j: int)
    requires
        graph_well_formed(g),
        0 <= i < g.symbols@.len(),
        0 <= j < g.symbols@.len(),
        g.symbols@[i].scope == g.symbols@[j].scope,
        g.symbols@[i].name@ == g.symbols@[j].name@,
    ensures
        i == j,
{
}

/// Arena law: scope `i` runs in context `i` and context `i` belongs to scope `i`.
pub proof fn lemma_scope_context_pairing(g: SemanticGraph, i: int)
    requires
        graph_well_formed(g),
        0 <= i < g.scopes@.len(),
    ensures
        g.contexts@[g.scopes@[i].context.0 as int].scope == g.scopes@[i].id,
        g.scopes@[g.contexts@[i].scope.0 as int].context == g.contexts@[i].id,
{
}

/// One symbol per (scope, name): once `symbol` has returned `id` for `scope` and `name`, the
/// graph holds that symbol, so a later `symbol` call with the same scope and name is always
/// admitted (whatever the number of symbols) and, since no other symbol has that scope and
/// name, returns `id` and leaves the graph unchanged.
pub proof fn lemma_symbol_interning(g: SemanticGraph, id: SymbolId, scope: ScopeId, name: Seq<char>)
    requires
        graph_well_formed(g),
        id.0 < g.symbols@.len(),
        g.symbols@[id.0 as int].scope == scope,
        g.symbols@[id.0 as int].name@ == name,
    ensures
        exists|i: int| 0 <= i < g.symbols@.len() && g.symbols@[i].scope == scope && g.symbols@[i].name@ == name,
        forall|k: int|
            0 <= k < g.symbols@.len() && #[trigger] g.symbols@[k].scope == scope && g.symbols@[k].name@ == name
                ==> k == id.0,
{
    assert forall|k: int|
        0 <= k < g.symbols@.len() && #[trigger] g.symbols@[k].scope == scope && g.symbols@[k].name@ == name
            implies k == id.0 by {
        lemma_symbol_identity(g, k, id.0 as int);
    }
}

} // verus!
