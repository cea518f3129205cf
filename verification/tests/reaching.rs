use cull::ids::{
    BindingId, BindingSetId, ContextId, FlowUncertaintySetId, ModuleId, ReferenceId, ScopeId,
    SymbolId,
};
use cull::reaching::{reaching_bindings, references_reaching};
use cull::semantic::{
    BindingFact, BindingKind, BindingSetFact, BindingState, LocalReachability, LookupSemantics,
    OriginDomain, ReferenceBindingState, ReferenceFact, ReferencePhase, ReferenceRole,
    ResidualLookup, Resolution, SemanticGraph,
};
use cull::source::TextRange;

fn binding(id: u32, symbol: u32) -> BindingFact {
    BindingFact {
        id: BindingId(id),
        module: ModuleId(0),
        scope: ScopeId(0),
        symbol: SymbolId(symbol),
        kind: BindingKind::Assignment,
        name: "x".to_owned(),
        order: id,
        range: TextRange { start: 0, end: 1 },
        name_range: TextRange { start: 0, end: 1 },
        definition: None,
        replaces: None,
    }
}

fn reference(id: u32, target: Resolution, state: ReferenceBindingState) -> ReferenceFact {
    ReferenceFact {
        id: ReferenceId(id),
        module: ModuleId(0),
        source_scope: ScopeId(0),
        source_context: ContextId(0),
        source_spelling: "x".to_owned(),
        semantic_name: "x".to_owned(),
        lexical_target: target,
        lookup: LookupSemantics::Direct,
        binding_state: state,
        phase: ReferencePhase::BodyRuntime,
        role: ReferenceRole::Value,
        origin_domain: OriginDomain::Production,
        annotation_semantics: None,
        span: TextRange { start: 5, end: 6 },
    }
}

fn analyzed(set: u32, reachability: LocalReachability) -> ReferenceBindingState {
    ReferenceBindingState::Analyzed(BindingState {
        reachability,
        bindings: BindingSetId(set),
        residual: ResidualLookup::NoResidual,
        uncertainty: FlowUncertaintySetId(0),
    })
}

fn graph() -> SemanticGraph {
    let mut g = SemanticGraph::empty();
    g.bindings.push(binding(0, 7));
    g.bindings.push(binding(1, 7));
    g.bindings.push(binding(2, 8));
    g.binding_sets.push(BindingSetFact { id: BindingSetId(0), bindings: vec![] });
    g.binding_sets.push(BindingSetFact { id: BindingSetId(1), bindings: vec![BindingId(2), BindingId(0), BindingId(2)] });
    g
}

fn ids(v: &[BindingId]) -> Vec<u32> {
    v.iter().map(|b| b.0).collect()
}

#[test]
fn binding_set_bindings_come_sorted_and_once() {
    let g = graph();
    let r = reference(0, Resolution::Resolved(SymbolId(7)), analyzed(1, LocalReachability::MayExecute));
    assert_eq!(ids(&reaching_bindings(&g, &r)), vec![0, 2]);
}

#[test]
fn an_empty_set_falls_back_to_the_symbols_bindings() {
    let g = graph();
    let r = reference(0, Resolution::Resolved(SymbolId(7)), analyzed(0, LocalReachability::MayExecute));
    assert_eq!(ids(&reaching_bindings(&g, &r)), vec![0, 1]);
    let unresolved = reference(1, Resolution::External, analyzed(0, LocalReachability::MayExecute));
    assert!(reaching_bindings(&g, &unresolved).is_empty());
    let missing_set = reference(2, Resolution::Resolved(SymbolId(8)), analyzed(9, LocalReachability::MayExecute));
    assert_eq!(ids(&reaching_bindings(&g, &missing_set)), vec![2]);
}

#[test]
fn unreachable_or_unanalyzed_references_have_no_bindings() {
    let g = graph();
    let dead = reference(0, Resolution::Resolved(SymbolId(7)), analyzed(1, LocalReachability::Unreachable));
    assert!(reaching_bindings(&g, &dead).is_empty());
    let skipped = reference(1, Resolution::Resolved(SymbolId(7)), ReferenceBindingState::NotApplicable);
    assert!(reaching_bindings(&g, &skipped).is_empty());
}

#[test]
fn references_reaching_lists_positions_in_order() {
    let mut g = graph();
    g.references.push(reference(0, Resolution::Resolved(SymbolId(7)), analyzed(1, LocalReachability::MayExecute)));
    g.references.push(reference(1, Resolution::Resolved(SymbolId(7)), analyzed(0, LocalReachability::MayExecute)));
    g.references.push(reference(2, Resolution::Resolved(SymbolId(7)), analyzed(1, LocalReachability::Unreachable)));
    assert_eq!(references_reaching(&g, BindingId(0)), vec![0, 1]);
    assert_eq!(references_reaching(&g, BindingId(1)), vec![1]);
    assert_eq!(references_reaching(&g, BindingId(2)), vec![0]);
    assert!(references_reaching(&g, BindingId(5)).is_empty());
}
