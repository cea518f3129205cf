//! Semantic fact arenas (scopes, contexts, symbols, bindings, definitions, references)
//! and the builder that assigns their identifiers.
use vstd::prelude::*;

use crate::ids::{
    BindingId, BindingSetId, ContextId, DefId, DefinitionEffectSetId, FileId,
    FlowUncertaintySetId, InternalCandidateId, LoopId, ModuleId, OverloadGroupId, ReferenceId,
    ScopeId, SymbolId,
};
use crate::ir::DefinitionKind;
use crate::source::TextRange;

verus! {

#[derive(Clone, Copy, Debug, PartialEq, Eq, Structural, Hash, PartialOrd, Ord)]
pub enum OriginDomain {
    Production,
    Test,
    Unknown,
}

/// Why a module was classified into its origin domain.
#[derive(Clone, Copy, Debug, PartialEq, Eq, Structural, Hash, PartialOrd, Ord)]
pub enum OriginEvidence {
    DefaultProduction,
    CullConfiguration,
    PytestTestPath,
    TestsDirectory,
    PytestFilenamePattern,
}

#[derive(Clone, Copy, Debug, PartialEq, Eq, Structural, Hash, PartialOrd, Ord)]
pub enum ScopeKind {
    Module,
    Function,
    Class,
    Lambda,
    Comprehension,
}

#[derive(Clone, Copy, Debug, PartialEq, Eq, Structural, Hash, PartialOrd, Ord)]
pub enum ContextKind {
    ModuleBody,
    FunctionBody,
    ClassBody,
    LambdaBody,
    ComprehensionBody,
}

#[derive(Clone, Copy, Debug, PartialEq, Eq, Structural, Hash, PartialOrd, Ord)]
pub enum BindingKind {
    Parameter,
    FunctionDefinition,
    ClassDefinition,
    Assignment,
    AnnotatedAssignment,
    AugmentedAssignment,
    Import,
    ImportFrom,
    TypeAlias,
    Delete,
    ForTarget,
    WithTarget,
    ExceptTarget,
    MatchCapture,
    NamedExpression,
}

#[derive(Clone, Copy, Debug, PartialEq, Eq, Structural, Hash, PartialOrd, Ord)]
pub enum ReferencePhase {
    DefinitionTime,
    BodyRuntime,
    ImportTime,
    ExportSurface,
    Root,
    TypeOnly,
    LazyAnnotation,
}

#[derive(Clone, Copy, Debug, PartialEq, Eq, Structural, Hash, PartialOrd, Ord)]
pub enum ReferenceRole {
    Value,
    Decorator,
    DefaultValue,
    BaseClass,
    ClassKeyword,
    ComprehensionIterable,
    Annotation,
    Metaclass,
    Import,
    ModuleAttribute,
    Export,
}

#[derive(Clone, Copy, Debug, PartialEq, Eq, Structural, Hash, PartialOrd, Ord)]
pub enum UnresolvedReason {
    UnsupportedSyntax,
    InvalidGlobalDeclaration,
    InvalidNonlocalDeclaration,
    MissingNonlocalBinding,
    ConflictingDeclaration,
    DeferredAnnotation,
    UnsupportedAnnotation,
}

/// Lexical resolution of a name reference.
#[derive(Clone, Debug, PartialEq, Eq)]
pub enum Resolution {
    Resolved(SymbolId),
    Ambiguous(Vec<SymbolId>),
    External,
    Unresolved(UnresolvedReason),
}

/// How a name is looked up at run time.
#[derive(Clone, Copy, Debug, PartialEq, Eq, Structural)]
pub enum LookupSemantics {
    Direct,
    GlobalThenBuiltin { global_symbol: SymbolId },
    ClassLocalThenGlobalThenBuiltin { class_symbol: SymbolId, global_symbol: SymbolId },
}

#[derive(Clone, Copy, Debug, PartialEq, Eq, Structural, Hash, PartialOrd, Ord)]
pub enum LocalReachability {
    MayExecute,
    Unreachable,
}

#[derive(Clone, Copy, Debug, PartialEq, Eq, Structural, Hash, PartialOrd, Ord)]
pub enum ResidualLookup {
    NoResidual,
    UnboundLocal,
    RuntimeGlobalThenBuiltin,
    RuntimeFreeVariable,
    BuiltinOrNameError,
}

#[derive(Clone, Copy, Debug, PartialEq, Eq, Structural, Hash, PartialOrd, Ord)]
pub enum FlowUncertaintyKind {
    OpaqueCallMayMutateGlobal,
    OpaqueCallMayMutateClosure,
    DynamicNamespaceMutation,
    SuspensionPoint,
    ComplexExceptionFlow,
    FailedPartialMatch,
    UnsupportedFlow,
}

#[derive(Clone, Copy, Debug, PartialEq, Eq, Structural, Hash, PartialOrd, Ord)]
pub enum FlowResourceBudget {
    BlockCount,
    WorklistIterations,
    StoredFlowFacts,
    BindingSetMemory,
}

#[derive(Clone, Copy, Debug, PartialEq, Eq, Structural)]
pub enum FlowFailureReason {
    ResourceBudgetExceeded(FlowResourceBudget),
    UnsupportedFlow,
}

#[derive(Clone, Copy, Debug, PartialEq, Eq, Structural)]
pub enum ContextFlowStatus {
    Complete,
    Unsupported(FlowFailureReason),
}

#[derive(Clone, Copy, Debug, PartialEq, Eq, Structural)]
pub enum CompletionKind {
    Normal,
    Return,
    Raise,
    Break(LoopId),
    Continue(LoopId),
}

/// Local flow facts at a reference: may it execute, which bindings may reach it, what
/// remains for run-time lookup, and which uncertainties apply.
#[derive(Clone, Copy, Debug, PartialEq, Eq, Structural)]
pub struct BindingState {
    pub reachability: LocalReachability,
    pub bindings: BindingSetId,
    pub residual: ResidualLookup,
    pub uncertainty: FlowUncertaintySetId,
}

#[derive(Clone, Copy, Debug, PartialEq, Eq, Structural)]
pub enum ReferenceBindingState {
    NotApplicable,
    Analyzed(BindingState),
    NotAnalyzed(FlowFailureReason),
}

/// When an annotation expression is evaluated.
#[derive(Clone, Copy, Debug, PartialEq, Eq, Structural)]
pub struct AnnotationSemantics {
    pub phase: ReferencePhase,
}

#[derive(Clone, Copy, Debug, PartialEq, Eq, Structural, Hash, PartialOrd, Ord)]
pub enum DefinitionRole {
    Ordinary,
    OverloadDeclaration,
    OverloadImplementation,
}

/// Effects that executing a definition statement has besides binding its name.
#[derive(Clone, Copy, Debug, PartialEq, Eq, Structural, Hash, PartialOrd, Ord)]
pub enum DefinitionEffectKind {
    DecoratorApplication,
    DefaultExpressionEvaluation,
    EagerAnnotationEvaluation,
    LazyAnnotationIntrospectionRisk,
    ClassBaseEvaluation,
    ClassKeywordEvaluation,
    MetaclassEvaluation,
    ClassBodyExecution,
}

/// Whether deleting a definition may change behavior through its definition-time effects.
#[derive(Clone, Copy, Debug, PartialEq, Eq, Structural)]
pub enum RemovalRisk {
    NoKnownDefinitionEffects,
    Review(DefinitionEffectSetId),
    Unknown,
}

#[derive(Clone, Copy, Debug, PartialEq, Eq, Structural, Hash, PartialOrd, Ord)]
pub enum InternalCandidateRule {
    UnreferencedFunction,
    UnreferencedClass,
}

#[derive(Clone, Copy, Debug, PartialEq, Eq, Structural, Hash, PartialOrd, Ord)]
pub enum InternalCandidateDisposition {
    Candidate,
    Suppressed,
}

#[derive(Clone, Copy, Debug, PartialEq, Eq, Structural, Hash, PartialOrd, Ord)]
pub enum InternalCandidateReason {
    OverloadDeclaration,
    NonReportableDefinition,
    NoSameModuleReferences,
    CrossModuleAnalysisDeferred,
    HasSameModuleReferences,
    UnresolvedOrUnsupportedReference,
}

#[derive(Clone, Debug, PartialEq, Eq)]
pub struct SemanticModule {
    pub id: ModuleId,
    pub file: FileId,
    pub name: String,
    pub path: String,
    pub future_annotations: bool,
    pub origin_domain: OriginDomain,
    pub origin_evidence: OriginEvidence,
    pub scope: ScopeId,
    pub context: ContextId,
}

#[derive(Clone, Debug, PartialEq, Eq)]
pub struct ScopeFact {
    pub id: ScopeId,
    pub module: ModuleId,
    pub kind: ScopeKind,
    pub parent: Option<ScopeId>,
    pub context: ContextId,
    pub owner_definition: Option<DefId>,
    pub name: String,
    pub range: TextRange,
}

#[derive(Clone, Debug, PartialEq, Eq)]
pub struct ContextFact {
    pub id: ContextId,
    pub module: ModuleId,
    pub kind: ContextKind,
    pub scope: ScopeId,
    pub parent: Option<ContextId>,
    pub owner_definition: Option<DefId>,
    pub range: TextRange,
}

#[derive(Clone, Debug, PartialEq, Eq)]
pub struct SymbolFact {
    pub id: SymbolId,
    pub module: ModuleId,
    pub scope: ScopeId,
    pub name: String,
}

#[derive(Clone, Debug, PartialEq, Eq)]
pub struct BindingFact {
    pub id: BindingId,
    pub module: ModuleId,
    pub scope: ScopeId,
    pub symbol: SymbolId,
    pub kind: BindingKind,
    pub name: String,
    pub order: u32,
    pub range: TextRange,
    pub name_range: TextRange,
    pub definition: Option<DefId>,
    pub replaces: Option<BindingId>,
}

#[derive(Clone, Debug, PartialEq, Eq)]
pub struct BindingSetFact {
    pub id: BindingSetId,
    pub bindings: Vec<BindingId>,
}

#[derive(Clone, Debug, PartialEq, Eq)]
pub struct FlowUncertaintySetFact {
    pub id: FlowUncertaintySetId,
    pub uncertainties: Vec<FlowUncertaintyKind>,
}

#[derive(Clone, Debug, PartialEq, Eq)]
pub struct DefinitionEffectSetFact {
    pub id: DefinitionEffectSetId,
    pub effects: Vec<DefinitionEffectKind>,
}

#[derive(Clone, Debug, PartialEq, Eq)]
pub struct SemanticDefinition {
    pub id: DefId,
    pub module: ModuleId,
    pub binding: BindingId,
    pub scope: ScopeId,
    pub context: ContextId,
    pub kind: DefinitionKind,
    pub name: String,
    pub qualified_name: String,
    pub range: TextRange,
    pub name_range: TextRange,
    pub reportable: bool,
    pub is_async: bool,
    pub origin_domain: OriginDomain,
    pub role: DefinitionRole,
    pub overload_group: Option<OverloadGroupId>,
    pub definition_effects: DefinitionEffectSetId,
    pub removal_risk: RemovalRisk,
}

#[derive(Clone, Debug, PartialEq, Eq)]
pub struct ReferenceFact {
    pub id: ReferenceId,
    pub module: ModuleId,
    pub source_scope: ScopeId,
    pub source_context: ContextId,
    pub source_spelling: String,
    pub semantic_name: String,
    pub lexical_target: Resolution,
    pub lookup: LookupSemantics,
    pub binding_state: ReferenceBindingState,
    pub phase: ReferencePhase,
    pub role: ReferenceRole,
    pub origin_domain: OriginDomain,
    pub annotation_semantics: Option<AnnotationSemantics>,
    pub span: TextRange,
}

#[derive(Clone, Debug, PartialEq, Eq)]
pub struct ContextFlowStatusFact {
    pub context: ContextId,
    pub status: ContextFlowStatus,
}

#[derive(Clone, Debug, PartialEq, Eq)]
pub struct OverloadGroupFact {
    pub id: OverloadGroupId,
    pub scope: ScopeId,
    pub name: String,
    pub declarations: Vec<DefId>,
    pub implementation: Option<DefId>,
}

#[derive(Clone, Debug, PartialEq, Eq)]
pub struct InternalCandidateFact {
    pub id: InternalCandidateId,
    pub definition: DefId,
    pub rule: InternalCandidateRule,
    pub disposition: InternalCandidateDisposition,
    pub reasons: Vec<InternalCandidateReason>,
    pub inbound_references: Vec<ReferenceId>,
    pub removal_risk: RemovalRisk,
}

/// All semantic facts of a project snapshot; each arena is indexed by its identifiers.
#[derive(Clone, Debug, PartialEq, Eq)]
pub struct SemanticGraph {
    pub modules: Vec<SemanticModule>,
    pub scopes: Vec<ScopeFact>,
    pub contexts: Vec<ContextFact>,
    pub symbols: Vec<SymbolFact>,
    pub bindings: Vec<BindingFact>,
    pub binding_sets: Vec<BindingSetFact>,
    pub flow_uncertainty_sets: Vec<FlowUncertaintySetFact>,
    pub definitions: Vec<SemanticDefinition>,
    pub references: Vec<ReferenceFact>,
    pub context_flow_statuses: Vec<ContextFlowStatusFact>,
    pub definition_effect_sets: Vec<DefinitionEffectSetFact>,
    pub overload_groups: Vec<OverloadGroupFact>,
    pub internal_candidates: Vec<InternalCandidateFact>,
}

#[derive(Clone, Debug)]
pub struct ScopeContextInput {
    pub module: ModuleId,
    pub scope_kind: ScopeKind,
    pub context_kind: ContextKind,
    pub parent_scope: Option<ScopeId>,
    pub parent_context: Option<ContextId>,
    pub owner_definition: Option<DefId>,
    pub name: String,
    pub range: TextRange,
}

#[derive(Clone, Debug)]
pub struct BindingInput {
    pub module: ModuleId,
    pub scope: ScopeId,
    pub symbol: SymbolId,
    pub kind: BindingKind,
    pub name: String,
    pub range: TextRange,
    pub name_range: TextRange,
}

#[derive(Clone, Debug)]
pub struct DefinitionInput {
    pub module: ModuleId,
    pub binding: BindingId,
    pub scope: ScopeId,
    pub context: ContextId,
    pub kind: DefinitionKind,
    pub name: String,
    pub qualified_name: String,
    pub range: TextRange,
    pub name_range: TextRange,
    pub reportable: bool,
    pub is_async: bool,
    pub origin_domain: OriginDomain,
}

#[derive(Clone, Debug)]
pub struct ReferenceInput {
    pub module: ModuleId,
    pub source_scope: ScopeId,
    pub source_context: ContextId,
    pub source_spelling: String,
    pub semantic_name: String,
    pub lexical_target: Resolution,
    pub lookup: LookupSemantics,
    pub binding_state: ReferenceBindingState,
    pub phase: ReferencePhase,
    pub role: ReferenceRole,
    pub origin_domain: OriginDomain,
    pub annotation_semantics: Option<AnnotationSemantics>,
    pub span: TextRange,
}

#[derive(Clone, Debug)]
pub struct InternalCandidateInput {
    pub definition: DefId,
    pub rule: InternalCandidateRule,
    pub disposition: InternalCandidateDisposition,
    pub reasons: Vec<InternalCandidateReason>,
    pub inbound_references: Vec<ReferenceId>,
    pub removal_risk: RemovalRisk,
}

impl SemanticGraph {
    /// A graph with every arena empty.
    pub fn empty() -> (g: Self)
        ensures
            g.modules@.len() == 0,
            g.scopes@.len() == 0,
            g.contexts@.len() == 0,
            g.symbols@.len() == 0,
            g.bindings@.len() == 0,
            g.binding_sets@.len() == 0,
            g.flow_uncertainty_sets@.len() == 0,
            g.definitions@.len() == 0,
            g.references@.len() == 0,
            g.context_flow_statuses@.len() == 0,
            g.definition_effect_sets@.len() == 0,
            g.overload_groups@.len() == 0,
            g.internal_candidates@.len() == 0,
    {
        SemanticGraph {
            modules: Vec::new(),
            scopes: Vec::new(),
            contexts: Vec::new(),
            symbols: Vec::new(),
            bindings: Vec::new(),
            binding_sets: Vec::new(),
            flow_uncertainty_sets: Vec::new(),
            definitions: Vec::new(),
            references: Vec::new(),
            context_flow_statuses: Vec::new(),
            definition_effect_sets: Vec::new(),
            overload_groups: Vec::new(),
            internal_candidates: Vec::new(),
        }
    }
}

} // verus!
