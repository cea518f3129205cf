use cull::ids::{BindingId, ContextId, DefId, DefinitionEffectSetId, ModuleId, ScopeId, SymbolId};
use cull::ir::DefinitionKind;
use cull::output::ReachabilityDomain;
use cull::reach::{class_method_contexts, dynamic_construction_members, resolve_selector, ClassMeta, ExprUse, ReachState, WorkItem};
use cull::slots::ModuleSlots;
use cull::values::ValueSet;
use cull::seeds::ModuleExecutionMode;
use cull::semantic::{
    BindingFact, BindingKind, DefinitionRole, OriginDomain, RemovalRisk, SemanticDefinition,
    SemanticGraph,
};
use cull::source::TextRange;

fn definition(id: u32, name: &str, kind: DefinitionKind, scope: u32, binding: u32, context: u32) -> SemanticDefinition {
    SemanticDefinition {
        id: DefId(id),
        module: ModuleId(0),
        binding: BindingId(binding),
        scope: ScopeId(scope),
        context: ContextId(context),
        kind,
        name: name.to_owned(),
        qualified_name: name.to_owned(),
        range: TextRange { start: 0, end: 1 },
        name_range: TextRange { start: 0, end: 1 },
        reportable: true,
        is_async: false,
        origin_domain: OriginDomain::Production,
        role: DefinitionRole::Ordinary,
        overload_group: None,
        definition_effects: DefinitionEffectSetId(0),
        removal_risk: RemovalRisk::NoKnownDefinitionEffects,
    }
}

fn binding(id: u32, scope: u32) -> BindingFact {
    BindingFact {
        id: BindingId(id),
        module: ModuleId(0),
        scope: ScopeId(scope),
        symbol: SymbolId(id),
        kind: BindingKind::FunctionDefinition,
        name: "x".to_owned(),
        order: id,
        range: TextRange { start: 0, end: 1 },
        name_range: TextRange { start: 0, end: 1 },
        definition: None,
        replaces: None,
    }
}

/// A class `Widget` (body scope 1) with `__init__`, `render` and `__new__`, a metaclass
/// `Meta` (body scope 2) with `__call__`, and a module-level function `helper`.
fn graph() -> SemanticGraph {
    let mut g = SemanticGraph::empty();
    g.bindings.push(binding(0, 0));
    g.bindings.push(binding(1, 1));
    g.bindings.push(binding(2, 1));
    g.bindings.push(binding(3, 1));
    g.bindings.push(binding(4, 0));
    g.bindings.push(binding(5, 2));
    g.bindings.push(binding(6, 0));
    g.definitions.push(definition(0, "Widget", DefinitionKind::Class, 1, 0, 10));
    g.definitions.push(definition(1, "__init__", DefinitionKind::Function, 3, 1, 11));
    g.definitions.push(definition(2, "render", DefinitionKind::Function, 4, 2, 12));
    g.definitions.push(definition(3, "__new__", DefinitionKind::Function, 5, 3, 13));
    g.definitions.push(definition(4, "Meta", DefinitionKind::Class, 2, 4, 14));
    g.definitions.push(definition(5, "__call__", DefinitionKind::Function, 6, 5, 15));
    g.definitions.push(definition(6, "helper", DefinitionKind::Function, 7, 6, 16));
    g
}

fn contexts(v: &[ContextId]) -> Vec<u32> {
    let mut out: Vec<u32> = v.iter().map(|c| c.0).collect();
    out.sort();
    out
}

#[test]
fn class_methods_are_found_by_scope_and_name() {
    let g = graph();
    assert_eq!(contexts(&class_method_contexts(&g, DefId(0), None)), vec![11, 12, 13]);
    assert_eq!(contexts(&class_method_contexts(&g, DefId(0), Some("__init__"))), vec![11]);
    assert!(class_method_contexts(&g, DefId(9), None).is_empty());
}

#[test]
fn calling_a_class_runs_its_constructors_and_metaclass_call() {
    let g = graph();
    let mut state = ReachState::new();
    state.activate_callable(&g, ReachabilityDomain::Production, DefId(0), Some(DefId(4)), true);
    assert_eq!(state.production_values, vec![DefId(0)]);
    assert_eq!(contexts(&state.production_contexts), vec![11, 13, 15]);
    assert_eq!(state.worklist.len(), 3);
    assert!(state.dynamic_class_construction.is_empty());
    let mut other = ReachState::new();
    other.activate_callable(&g, ReachabilityDomain::Test, DefId(0), None, true);
    assert_eq!(other.dynamic_class_construction, vec![DefId(0)]);
    assert_eq!(contexts(&other.test_contexts), vec![11, 13]);
}

#[test]
fn outside_use_of_a_class_runs_every_method() {
    let g = graph();
    let mut state = ReachState::new();
    state.activate_external_use(&g, ReachabilityDomain::ExternalSurface, DefId(0));
    assert_eq!(contexts(&state.external_contexts), vec![11, 12, 13]);
    state.activate_external_use(&g, ReachabilityDomain::ExternalSurface, DefId(6));
    assert_eq!(contexts(&state.external_contexts), vec![11, 12, 13, 16]);
    assert_eq!(state.worklist.len(), 4);
    state.activate_external_use(&g, ReachabilityDomain::ExternalSurface, DefId(6));
    assert_eq!(state.worklist.len(), 4);
}

#[test]
fn work_is_taken_modules_first_then_by_domain_and_id() {
    let mut state = ReachState::new();
    state.mark_context(ReachabilityDomain::Production, ContextId(1));
    state.mark_module(ReachabilityDomain::Test, ModuleId(0), ModuleExecutionMode::Imported);
    state.mark_module(ReachabilityDomain::Production, ModuleId(5), ModuleExecutionMode::TopLevel);
    state.mark_module(ReachabilityDomain::Production, ModuleId(5), ModuleExecutionMode::Imported);
    state.mark_module(ReachabilityDomain::Production, ModuleId(5), ModuleExecutionMode::Imported);
    assert_eq!(state.module_modes.len(), 3);
    let mut order = Vec::new();
    while let Some(w) = state.pop_work() {
        order.push(w);
    }
    assert_eq!(
        order,
        vec![
            WorkItem::Module { domain: ReachabilityDomain::Production, module: ModuleId(5), mode: ModuleExecutionMode::Imported },
            WorkItem::Module { domain: ReachabilityDomain::Production, module: ModuleId(5), mode: ModuleExecutionMode::TopLevel },
            WorkItem::Module { domain: ReachabilityDomain::Test, module: ModuleId(0), mode: ModuleExecutionMode::Imported },
            WorkItem::Context { domain: ReachabilityDomain::Production, context: ContextId(1) },
        ]
    );
    state.mark_context(ReachabilityDomain::Production, ContextId(1));
    assert!(state.pop_work().is_none());
}

#[test]
fn selectors_follow_attributes_to_one_definition() {
    let mut g = graph();
    let mut slots = ModuleSlots::new();
    slots.union_into(ModuleId(0), "Widget", ValueSet::definition(DefId(0)));
    let attrs = |names: &[&str]| names.iter().map(|n| n.to_string()).collect::<Vec<String>>();
    assert_eq!(resolve_selector(&g, &slots, Some(ModuleId(0)), &attrs(&["Widget"])), Some(DefId(0)));
    assert_eq!(resolve_selector(&g, &slots, Some(ModuleId(0)), &attrs(&["Widget", "render"])), Some(DefId(2)));
    assert_eq!(resolve_selector(&g, &slots, Some(ModuleId(0)), &attrs(&["Widget", "missing"])), None);
    assert_eq!(resolve_selector(&g, &slots, Some(ModuleId(0)), &attrs(&["Gone"])), None);
    assert_eq!(resolve_selector(&g, &slots, None, &attrs(&["Widget"])), None);
    assert_eq!(resolve_selector(&g, &slots, Some(ModuleId(0)), &attrs(&[])), None);
    g.bindings.push(binding(7, 1));
    g.definitions.push(definition(7, "render", DefinitionKind::Function, 8, 7, 17));
    assert_eq!(resolve_selector(&g, &slots, Some(ModuleId(0)), &attrs(&["Widget", "render"])), None);
}

#[test]
fn value_sets_mark_definitions_uses_and_modules() {
    let g = graph();
    let mut state = ReachState::new();
    let mut value = ValueSet::definition(DefId(0));
    value.union_with(ValueSet::definition(DefId(6)));
    value.union_with(ValueSet::module(ModuleId(3)));
    let metas = vec![ClassMeta { class: DefId(0), metaclass: Some(DefId(4)), keyword: true }];
    state.mark_value_set(&g, &metas, ReachabilityDomain::Production, Some(DefId(2)), &value, ExprUse::Call);
    let mut values: Vec<u32> = state.production_values.iter().map(|d| d.0).collect();
    values.sort();
    assert_eq!(values, vec![0, 6]);
    assert_eq!(contexts(&state.production_contexts), vec![11, 13, 15, 16]);
    assert_eq!(state.graph_edges.len(), 2);
    assert_eq!(state.module_modes, vec![(ReachabilityDomain::Production, ModuleId(3), ModuleExecutionMode::Imported)]);
    assert_eq!(state.worklist.len(), 5);
    assert!(state.dynamic_class_construction.is_empty());

    let mut runtime = ReachState::new();
    runtime.mark_value_set(&g, &vec![], ReachabilityDomain::Test, None, &ValueSet::definition(DefId(0)), ExprUse::Runtime);
    assert_eq!(runtime.test_values, vec![DefId(0)]);
    assert!(runtime.test_contexts.is_empty() && runtime.graph_edges.is_empty());
    runtime.mark_value_set(&g, &vec![], ReachabilityDomain::Test, None, &ValueSet::definition(DefId(0)), ExprUse::Call);
    assert_eq!(runtime.dynamic_class_construction, Vec::<DefId>::new());
}

#[test]
fn dynamic_construction_reaches_what_the_methods_use() {
    let g = graph();
    let edges = vec![(DefId(2), DefId(6)), (DefId(6), DefId(4)), (DefId(4), DefId(5)), (DefId(1), DefId(0)), (DefId(9), DefId(8))];
    let mut found: Vec<u32> = dynamic_construction_members(&g, &vec![DefId(0)], &vec![], &vec![], &edges).iter().map(|d| d.0).collect();
    found.sort();
    assert_eq!(found, vec![0, 1, 2, 3, 4, 5, 6]);

    let mut meta_only: Vec<u32> = dynamic_construction_members(&g, &vec![], &vec![DefId(4)], &vec![DefId(4)], &edges).iter().map(|d| d.0).collect();
    meta_only.sort();
    assert_eq!(meta_only, vec![4, 5]);

    assert!(dynamic_construction_members(&g, &vec![], &vec![DefId(4)], &vec![], &edges).is_empty());
    assert!(dynamic_construction_members(&g, &vec![], &vec![DefId(6)], &vec![DefId(6)], &edges).is_empty());
}
