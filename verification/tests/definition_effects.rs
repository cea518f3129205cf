use cull::builder::SemanticGraphBuilder;
use cull::definition_effects::{
    build_internal_candidates, candidate_symbols_for_reference, derive_definition_effects,
    finalize_definition_effects, group_overloads, reference_belongs_to_definition,
};
use cull::diagnostic::DiagnosticSeverity;
use cull::ids::{
    BindingId, ContextId, DefId, FileId, ModuleId, OverloadGroupId, ReferenceId, ScopeId, SymbolId,
};
use cull::ir::DefinitionKind;
use cull::semantic::{
    BindingInput, BindingKind, ContextKind, DefinitionEffectKind, DefinitionInput, DefinitionRole,
    FlowFailureReason, InternalCandidateDisposition, InternalCandidateReason, LookupSemantics,
    OriginDomain, OriginEvidence, ReferenceBindingState, ReferenceFact, ReferenceInput,
    ReferencePhase, ReferenceRole, RemovalRisk, Resolution, ScopeContextInput, ScopeKind,
    SemanticModule,
};
use cull::source::TextRange;

#[test]
fn class_lookup_candidates_include_global_fallback_symbol() {
    let module = ModuleId::new(0);
    let class_symbol = SymbolId::new(1);
    let global_symbol = SymbolId::new(2);
    let reference = ReferenceFact {
        id: ReferenceId::new(0),
        module,
        source_scope: ScopeId::new(1),
        source_context: ContextId::new(1),
        source_spelling: "target".to_owned(),
        semantic_name: "target".to_owned(),
        lexical_target: Resolution::Resolved(class_symbol),
        lookup: LookupSemantics::ClassLocalThenGlobalThenBuiltin {
            class_symbol,
            global_symbol,
        },
        binding_state: ReferenceBindingState::NotAnalyzed(FlowFailureReason::UnsupportedFlow),
        phase: ReferencePhase::BodyRuntime,
        role: ReferenceRole::Value,
        origin_domain: OriginDomain::Production,
        annotation_semantics: None,
        span: TextRange::new(0, 6),
    };

    let symbols = candidate_symbols_for_reference(&reference);
    assert!(symbols.contains(&class_symbol));
    assert!(symbols.contains(&global_symbol));
}

struct Fixture {
    builder: SemanticGraphBuilder,
    module: ModuleId,
    module_scope: ScopeId,
    module_context: ContextId,
}

fn module_fixture() -> Fixture {
    let mut builder = SemanticGraphBuilder::new();
    let module = ModuleId::new(0);
    let (module_scope, module_context) = builder.add_scope_with_context(ScopeContextInput {
        module,
        scope_kind: ScopeKind::Module,
        context_kind: ContextKind::ModuleBody,
        parent_scope: None,
        parent_context: None,
        owner_definition: None,
        name: "pkg.mod".to_owned(),
        range: TextRange::new(0, 80),
    });
    builder.add_module(SemanticModule {
        id: module,
        file: FileId::new(0),
        name: "pkg.mod".to_owned(),
        path: "pkg/mod.py".to_owned(),
        future_annotations: false,
        origin_domain: OriginDomain::Production,
        origin_evidence: OriginEvidence::DefaultProduction,
        scope: module_scope,
        context: module_context,
    });
    Fixture {
        builder,
        module,
        module_scope,
        module_context,
    }
}

fn add_function(
    fixture: &mut Fixture,
    name: &str,
    range: TextRange,
    name_range: TextRange,
    kind: DefinitionKind,
) -> (SymbolId, BindingId, DefId) {
    let module = fixture.module;
    let scope = fixture.module_scope;
    let symbol = fixture.builder.symbol(module, scope, name);
    let binding = fixture.builder.add_binding(BindingInput {
        module,
        scope,
        symbol,
        kind: if kind == DefinitionKind::Class {
            BindingKind::ClassDefinition
        } else {
            BindingKind::FunctionDefinition
        },
        name: name.to_owned(),
        range,
        name_range,
    });
    let (definition_scope, definition_context) =
        fixture.builder.add_scope_with_context(ScopeContextInput {
            module,
            scope_kind: if kind == DefinitionKind::Class {
                ScopeKind::Class
            } else {
                ScopeKind::Function
            },
            context_kind: if kind == DefinitionKind::Class {
                ContextKind::ClassBody
            } else {
                ContextKind::FunctionBody
            },
            parent_scope: Some(scope),
            parent_context: Some(fixture.module_context),
            owner_definition: None,
            name: format!("pkg.mod::{name}"),
            range,
        });
    let definition = fixture.builder.add_definition(DefinitionInput {
        module,
        binding,
        scope: definition_scope,
        context: definition_context,
        kind,
        name: name.to_owned(),
        qualified_name: format!("pkg.mod::{name}"),
        range,
        name_range,
        reportable: true,
        is_async: false,
        origin_domain: OriginDomain::Production,
    });
    (symbol, binding, definition)
}

fn reference(
    fixture: &Fixture,
    symbol: SymbolId,
    state: ReferenceBindingState,
    role: ReferenceRole,
    phase: ReferencePhase,
    span: TextRange,
) -> ReferenceInput {
    ReferenceInput {
        module: fixture.module,
        source_scope: fixture.module_scope,
        source_context: fixture.module_context,
        source_spelling: "target".to_owned(),
        semantic_name: "target".to_owned(),
        lexical_target: Resolution::Resolved(symbol),
        lookup: LookupSemantics::GlobalThenBuiltin {
            global_symbol: symbol,
        },
        binding_state: state,
        phase,
        role,
        origin_domain: OriginDomain::Production,
        annotation_semantics: None,
        span,
    }
}

#[test]
fn unresolved_local_flow_suppresses_internal_candidates() {
    let mut fixture = module_fixture();
    let (symbol, _binding, definition) = add_function(
        &mut fixture,
        "target",
        TextRange::new(0, 20),
        TextRange::new(4, 10),
        DefinitionKind::Function,
    );
    let input = reference(
        &fixture,
        symbol,
        ReferenceBindingState::NotAnalyzed(FlowFailureReason::UnsupportedFlow),
        ReferenceRole::Value,
        ReferencePhase::DefinitionTime,
        TextRange::new(40, 46),
    );
    fixture.builder.add_reference(input);

    let mut diagnostics = Vec::new();
    finalize_definition_effects(&mut fixture.builder, &mut diagnostics);
    let graph = fixture.builder.finish();
    let candidate = graph
        .internal_candidates
        .iter()
        .find(|candidate| candidate.definition == definition)
        .expect("missing internal candidate");

    assert_eq!(
        candidate.disposition,
        InternalCandidateDisposition::Suppressed
    );
    assert_eq!(
        candidate.reasons,
        vec![InternalCandidateReason::UnresolvedOrUnsupportedReference]
    );
}

#[test]
fn unreferenced_function_stays_a_candidate() {
    let mut fixture = module_fixture();
    let (_symbol, _binding, definition) = add_function(
        &mut fixture,
        "lonely",
        TextRange::new(0, 20),
        TextRange::new(4, 10),
        DefinitionKind::Function,
    );
    let mut diagnostics = Vec::new();
    finalize_definition_effects(&mut fixture.builder, &mut diagnostics);
    let graph = fixture.builder.finish();
    assert!(diagnostics.is_empty());
    assert_eq!(graph.internal_candidates.len(), 1);
    let candidate = &graph.internal_candidates[0];
    assert_eq!(candidate.definition, definition);
    assert_eq!(candidate.disposition, InternalCandidateDisposition::Candidate);
    assert_eq!(
        candidate.reasons,
        vec![
            InternalCandidateReason::NoSameModuleReferences,
            InternalCandidateReason::CrossModuleAnalysisDeferred
        ]
    );
    assert!(candidate.inbound_references.is_empty());
    assert_eq!(
        graph.definitions[0].removal_risk,
        RemovalRisk::NoKnownDefinitionEffects
    );
}

#[test]
fn decorators_and_class_bodies_are_definition_effects() {
    let mut fixture = module_fixture();
    let (symbol, _binding, _function) = add_function(
        &mut fixture,
        "decorated",
        TextRange::new(10, 30),
        TextRange::new(14, 23),
        DefinitionKind::Function,
    );
    let (_class_symbol, _class_binding, _class) = add_function(
        &mut fixture,
        "Model",
        TextRange::new(40, 60),
        TextRange::new(46, 51),
        DefinitionKind::Class,
    );
    // a decorator line just above the function
    let decorator = reference(
        &fixture,
        symbol,
        ReferenceBindingState::NotApplicable,
        ReferenceRole::Decorator,
        ReferencePhase::DefinitionTime,
        TextRange::new(1, 8),
    );
    fixture.builder.add_reference(decorator);
    let mut diagnostics = Vec::new();
    derive_definition_effects(&mut fixture.builder);
    let graph = fixture.builder.graph();
    let function = &graph.definitions[0];
    let class = &graph.definitions[1];
    let function_effects = &graph.definition_effect_sets[function.definition_effects.as_u32() as usize];
    assert_eq!(
        function_effects.effects,
        vec![DefinitionEffectKind::DecoratorApplication]
    );
    assert_eq!(
        function.removal_risk,
        RemovalRisk::Review(function.definition_effects)
    );
    let class_effects = &graph.definition_effect_sets[class.definition_effects.as_u32() as usize];
    assert_eq!(
        class_effects.effects,
        vec![DefinitionEffectKind::ClassBodyExecution]
    );
    assert!(reference_belongs_to_definition(
        &graph.references[0],
        function,
        graph
    ));
    assert!(!reference_belongs_to_definition(
        &graph.references[0],
        class,
        graph
    ));
    group_overloads(&mut fixture.builder, &mut diagnostics);
    assert!(diagnostics.is_empty());
}

#[test]
fn overload_declarations_group_with_their_implementation() {
    let mut fixture = module_fixture();
    let (_s1, _b1, first) = add_function(
        &mut fixture,
        "parse",
        TextRange::new(0, 10),
        TextRange::new(4, 9),
        DefinitionKind::Function,
    );
    let (_s2, _b2, second) = add_function(
        &mut fixture,
        "parse",
        TextRange::new(11, 20),
        TextRange::new(15, 20),
        DefinitionKind::Function,
    );
    let (_s3, _b3, implementation) = add_function(
        &mut fixture,
        "parse",
        TextRange::new(21, 30),
        TextRange::new(25, 30),
        DefinitionKind::Function,
    );
    let (_s4, _b4, orphan) = add_function(
        &mut fixture,
        "render",
        TextRange::new(31, 40),
        TextRange::new(35, 40),
        DefinitionKind::Function,
    );
    for declaration in [first, second, orphan] {
        fixture
            .builder
            .set_definition_role(declaration, DefinitionRole::OverloadDeclaration, None);
    }
    let mut diagnostics = Vec::new();
    group_overloads(&mut fixture.builder, &mut diagnostics);
    build_internal_candidates(&mut fixture.builder);
    let graph = fixture.builder.finish();
    assert_eq!(graph.overload_groups.len(), 2);
    let parse = &graph.overload_groups[0];
    assert_eq!(parse.name, "parse");
    assert_eq!(parse.declarations, vec![first, second]);
    assert_eq!(parse.implementation, Some(implementation));
    let render = &graph.overload_groups[1];
    assert_eq!(render.name, "render");
    assert_eq!(render.implementation, None);
    assert_eq!(
        graph.definitions[implementation.as_u32() as usize].role,
        DefinitionRole::OverloadImplementation
    );
    assert_eq!(
        graph.definitions[first.as_u32() as usize].overload_group,
        Some(OverloadGroupId::new(0))
    );
    assert_eq!(diagnostics.len(), 1);
    assert_eq!(diagnostics[0].code, "CULL_P1107");
    assert_eq!(diagnostics[0].severity, DiagnosticSeverity::Warning);
    assert_eq!(
        diagnostics[0].message,
        "overload declarations for `render` have no implementation"
    );
    assert_eq!(diagnostics[0].path.as_deref(), Some("pkg/mod.py"));
    assert_eq!(diagnostics[0].range, Some(TextRange::new(35, 40)));
    let candidate = &graph.internal_candidates[first.as_u32() as usize];
    assert_eq!(candidate.disposition, InternalCandidateDisposition::Suppressed);
    assert_eq!(
        candidate.reasons,
        vec![InternalCandidateReason::OverloadDeclaration]
    );
}
