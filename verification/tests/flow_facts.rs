//! The lookup facts of a module shaped like:
//!
//! ```python
//! def f(x, y): ...
//! g = lambda: f
//! x: "f"
//! ```
//! next to another module that is not looked at.
use cull::builder::SemanticGraphBuilder;
use cull::flow_facts::{ContextInfo, FlowFacts};
use cull::ids::{BindingId, ContextId, FileId, ModuleId, ReferenceId, ScopeId, SymbolId};
use cull::ir::DefinitionKind;
use cull::semantic::{
    BindingInput, BindingKind, ContextKind, DefinitionInput, LookupSemantics, OriginDomain,
    OriginEvidence, ReferenceBindingState, ReferenceInput, ReferencePhase, ReferenceRole, Resolution,
    ScopeContextInput, ScopeKind, SemanticGraph, SemanticModule,
};
use cull::source::TextRange;

fn scope(
    builder: &mut SemanticGraphBuilder,
    module: ModuleId,
    kinds: (ScopeKind, ContextKind),
    parent: Option<(ScopeId, ContextId)>,
    range: TextRange,
) -> (ScopeId, ContextId) {
    builder.add_scope_with_context(ScopeContextInput {
        module,
        scope_kind: kinds.0,
        context_kind: kinds.1,
        parent_scope: parent.map(|p| p.0),
        parent_context: parent.map(|p| p.1),
        owner_definition: None,
        name: "m".to_owned(),
        range,
    })
}

fn module(builder: &mut SemanticGraphBuilder, id: u32, len: u32) -> (ScopeId, ContextId) {
    let module = ModuleId::new(id);
    let ids = scope(builder, module, (ScopeKind::Module, ContextKind::ModuleBody), None, TextRange::new(0, len));
    builder.add_module(SemanticModule {
        id: module,
        file: FileId::new(id),
        name: format!("m{id}"),
        path: format!("m{id}.py"),
        future_annotations: false,
        origin_domain: OriginDomain::Production,
        origin_evidence: OriginEvidence::DefaultProduction,
        scope: ids.0,
        context: ids.1,
    });
    ids
}

fn binding(
    builder: &mut SemanticGraphBuilder,
    module: ModuleId,
    scope: ScopeId,
    symbol: SymbolId,
    kind: BindingKind,
    name_range: TextRange,
) -> BindingId {
    builder.add_binding(BindingInput {
        module,
        scope,
        symbol,
        kind,
        name: "n".to_owned(),
        range: name_range,
        name_range,
    })
}

fn reference(
    builder: &mut SemanticGraphBuilder,
    module: ModuleId,
    at: (ScopeId, ContextId),
    spelling: &str,
    role: ReferenceRole,
    span: TextRange,
) -> ReferenceId {
    builder.add_reference(ReferenceInput {
        module,
        source_scope: at.0,
        source_context: at.1,
        source_spelling: spelling.to_owned(),
        semantic_name: spelling.to_owned(),
        lexical_target: Resolution::External,
        lookup: LookupSemantics::Direct,
        binding_state: ReferenceBindingState::NotApplicable,
        phase: ReferencePhase::BodyRuntime,
        role,
        origin_domain: OriginDomain::Production,
        annotation_semantics: None,
        span,
    })
}

struct Sample {
    graph: SemanticGraph,
    module_ids: (ScopeId, ContextId),
    function_ids: (ScopeId, ContextId),
    lambda_ids: (ScopeId, ContextId),
    f: SymbolId,
    f_binding: BindingId,
    params: (BindingId, BindingId),
    value_ref: ReferenceId,
    annotation_ref: ReferenceId,
}

fn sample() -> Sample {
    let mut builder = SemanticGraphBuilder::new();
    let other = module(&mut builder, 0, 10);
    let m = ModuleId::new(1);
    let module_ids = module(&mut builder, 1, 60);
    let f = builder.symbol(m, module_ids.0, "f");
    let f_binding = binding(&mut builder, m, module_ids.0, f, BindingKind::FunctionDefinition, TextRange::new(4, 5));
    let function_ids = scope(
        &mut builder,
        m,
        (ScopeKind::Function, ContextKind::FunctionBody),
        Some(module_ids),
        TextRange::new(0, 16),
    );
    builder.add_definition(DefinitionInput {
        module: m,
        binding: f_binding,
        scope: function_ids.0,
        context: function_ids.1,
        kind: DefinitionKind::Function,
        name: "f".to_owned(),
        qualified_name: "m1::f".to_owned(),
        range: TextRange::new(0, 16),
        name_range: TextRange::new(4, 5),
        reportable: true,
        is_async: false,
        origin_domain: OriginDomain::Production,
    });
    let x = builder.symbol(m, function_ids.0, "x");
    let y = builder.symbol(m, function_ids.0, "y");
    let px = binding(&mut builder, m, function_ids.0, x, BindingKind::Parameter, TextRange::new(6, 7));
    let py = binding(&mut builder, m, function_ids.0, y, BindingKind::Parameter, TextRange::new(9, 10));
    let g = builder.symbol(m, module_ids.0, "g");
    binding(&mut builder, m, module_ids.0, g, BindingKind::Assignment, TextRange::new(17, 18));
    let lambda_ids = scope(
        &mut builder,
        m,
        (ScopeKind::Lambda, ContextKind::LambdaBody),
        Some(module_ids),
        TextRange::new(21, 30),
    );
    let value_ref = reference(&mut builder, m, lambda_ids, "f", ReferenceRole::Value, TextRange::new(29, 30));
    let annotation_ref =
        reference(&mut builder, m, module_ids, "f", ReferenceRole::Annotation, TextRange::new(34, 37));
    // the other module's facts stay out
    let z = builder.symbol(ModuleId::new(0), other.0, "z");
    binding(&mut builder, ModuleId::new(0), other.0, z, BindingKind::Assignment, TextRange::new(4, 5));
    reference(&mut builder, ModuleId::new(0), other, "f", ReferenceRole::Value, TextRange::new(29, 30));
    Sample {
        graph: builder.finish(),
        module_ids,
        function_ids,
        lambda_ids,
        f,
        f_binding,
        params: (px, py),
        value_ref,
        annotation_ref,
    }
}

#[test]
fn facts_hold_only_the_module() {
    let s = sample();
    let facts = FlowFacts::new(&s.graph, ModuleId::new(1));
    assert_eq!(facts.module_context, Some(s.module_ids.1));
    assert_eq!(facts.module_scope, Some(s.module_ids.0));
    assert_eq!(facts.contexts.len(), 3);
    assert_eq!(facts.bindings.len(), 4);
    assert_eq!(facts.references.len(), 2);
    assert_eq!(facts.definitions.len(), 1);
    assert_eq!(facts.context_scope(s.function_ids.1), Some(s.function_ids.0));
    assert_eq!(facts.context_scope(ContextId::new(0)), None);
    assert_eq!(facts.scope_kind(s.lambda_ids.0), Some(ScopeKind::Lambda));
    assert_eq!(facts.scope_kind(ScopeId::new(0)), None);
}

#[test]
fn bindings_are_found_by_range_symbol_and_scope() {
    let s = sample();
    let facts = FlowFacts::new(&s.graph, ModuleId::new(1));
    assert_eq!(facts.binding_ids(TextRange::new(4, 5), BindingKind::FunctionDefinition), vec![s.f_binding]);
    assert_eq!(facts.binding_ids(TextRange::new(4, 5), BindingKind::Assignment), Vec::new());
    assert_eq!(facts.symbol_binding_ids(s.f), vec![s.f_binding]);
    assert_eq!(facts.parameter_binding_ids(s.function_ids.0), vec![s.params.0, s.params.1]);
    assert_eq!(facts.scope_symbols(s.function_ids.0).len(), 2);
    assert_eq!(facts.binding(s.params.1).map(|b| b.kind), Some(BindingKind::Parameter));
    assert!(facts.binding(BindingId::new(99)).is_none());
}

#[test]
fn definitions_and_anonymous_contexts_are_found_by_range() {
    let s = sample();
    let facts = FlowFacts::new(&s.graph, ModuleId::new(1));
    let def = facts.definition(TextRange::new(4, 5), DefinitionKind::Function).unwrap();
    assert_eq!((def.scope, def.context, def.binding), (s.function_ids.0, s.function_ids.1, s.f_binding));
    assert!(facts.definition(TextRange::new(4, 5), DefinitionKind::Class).is_none());
    assert_eq!(
        facts.anonymous_context(TextRange::new(21, 30), ScopeKind::Lambda),
        Some(ContextInfo { context: s.lambda_ids.1, scope: s.lambda_ids.0, kind: ContextKind::LambdaBody })
    );
    assert_eq!(facts.anonymous_context(TextRange::new(0, 16), ScopeKind::Function), None);
}

#[test]
fn references_are_found_exactly_or_inside_an_annotation() {
    let s = sample();
    let facts = FlowFacts::new(&s.graph, ModuleId::new(1));
    assert_eq!(facts.reference(s.lambda_ids.1, TextRange::new(29, 30), "f"), Some(s.value_ref));
    assert_eq!(facts.reference(s.module_ids.1, TextRange::new(35, 36), "f"), Some(s.annotation_ref));
    assert_eq!(facts.reference(s.module_ids.1, TextRange::new(35, 36), "g"), None);
    assert_eq!(facts.reference(s.module_ids.1, TextRange::new(29, 30), "f"), None);
}
