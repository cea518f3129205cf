//! The binding inventory of a module shaped like `pkg/sample.py`:
//!
//! ```python
//! def parse(): ...
//! def parse(): ...
//! parse = None
//! class Parser:
//!     def parse(self): ...
//! ```
use cull::binding_inventory::{
    collect_module_bindings, has_future_annotations_import, module_steps, record_module_bindings,
};
use cull::builder::SemanticGraphBuilder;
use cull::decode::DecodedSource;
use cull::frontend::ParseInput;
use cull::ids::{FileId, ModuleId, ScopeId};
use cull::ir::DefinitionKind;
use cull::semantic::{BindingKind, OriginDomain, OriginEvidence, SemanticGraph};
use cull::source::{DecodedSourceInfo, PythonVersion, TextRange};
use cull::syntax::{ParameterSyntax, StmtSyntax, TargetSyntax};

const SAMPLE: &str = "def parse(): ...\ndef parse(): ...\nparse = None\nclass Parser:\n    def parse(self): ...\n";

fn function(start: u32, name_start: u32, end: u32, parameters: Vec<ParameterSyntax>) -> StmtSyntax {
    StmtSyntax::FunctionDef {
        name: "parse".to_owned(),
        name_range: TextRange::new(name_start, name_start + 5),
        range: TextRange::new(start, end),
        is_async: false,
        parameters,
        body: vec![StmtSyntax::Other],
    }
}

/// The statements of `pkg/sample.py`, as the parser gives them.
fn sample_statements() -> Vec<StmtSyntax> {
    vec![
        function(0, 4, 16, Vec::new()),
        function(17, 21, 33, Vec::new()),
        StmtSyntax::Assign {
            targets: vec![TargetSyntax::Name { id: "parse".to_owned(), range: TextRange::new(34, 39), store: true }],
        },
        StmtSyntax::ClassDef {
            name: "Parser".to_owned(),
            name_range: TextRange::new(53, 59),
            range: TextRange::new(47, 85),
            body: vec![function(
                65,
                69,
                85,
                vec![ParameterSyntax {
                    name: "self".to_owned(),
                    range: TextRange::new(75, 79),
                    name_range: TextRange::new(75, 79),
                }],
            )],
        },
    ]
}

fn record(builder: &mut SemanticGraphBuilder, id: u32, name: &str, path: &str, text: &str, statements: &Vec<StmtSyntax>) {
    let source = DecodedSource {
        text: text.to_owned(),
        info: DecodedSourceInfo { encoding: "utf-8".to_owned(), had_utf8_bom: false },
    };
    let input = ParseInput {
        file_id: FileId::new(id),
        module_id: ModuleId::new(id),
        module_name: name,
        display_path: path,
        source: &source,
        target_python: PythonVersion::py312(),
    };
    let steps = module_steps(name, text, statements);
    record_module_bindings(
        builder,
        input,
        TextRange::new(0, text.len() as u32),
        has_future_annotations_import(statements),
        OriginDomain::Production,
        OriginEvidence::DefaultProduction,
        &steps,
    );
}

/// The binding inventory of the project `pkg/__init__.py` (empty) and `pkg/sample.py`.
fn bindings_graph() -> SemanticGraph {
    let mut builder = SemanticGraphBuilder::new();
    let empty = DecodedSource {
        text: String::new(),
        info: DecodedSourceInfo { encoding: "utf-8".to_owned(), had_utf8_bom: false },
    };
    collect_module_bindings(
        &mut builder,
        ParseInput {
            file_id: FileId::new(0),
            module_id: ModuleId::new(0),
            module_name: "pkg",
            display_path: "pkg/__init__.py",
            source: &empty,
            target_python: PythonVersion::py312(),
        },
        TextRange::new(0, 0),
        &Vec::new(),
        OriginDomain::Production,
        OriginEvidence::DefaultProduction,
    );
    record(&mut builder, 1, "pkg.sample", "pkg/sample.py", SAMPLE, &sample_statements());
    builder.finish()
}

#[test]
fn repeated_definitions_and_assignment_replacement_are_ordered() {
    let output = bindings_graph();
    let parse_bindings = output
        .bindings
        .iter()
        .filter(|binding| {
            binding.module.as_u32() == 1 && binding.scope.as_u32() == 1 && binding.name == "parse"
        })
        .collect::<Vec<_>>();

    assert_eq!(parse_bindings.len(), 3);
    assert_eq!(parse_bindings[0].kind, BindingKind::FunctionDefinition);
    assert_eq!(parse_bindings[1].kind, BindingKind::FunctionDefinition);
    assert_eq!(parse_bindings[2].kind, BindingKind::Assignment);
    assert_eq!(parse_bindings[0].replaces, None);
    assert_eq!(parse_bindings[1].replaces, Some(parse_bindings[0].id));
    assert_eq!(parse_bindings[2].replaces, Some(parse_bindings[1].id));
}

#[test]
fn arena_invariants_hold() {
    let output = bindings_graph();

    for (index, scope) in output.scopes.iter().enumerate() {
        assert_eq!(scope.id.as_u32() as usize, index);
        assert_eq!(
            output.contexts[scope.context.as_u32() as usize].scope,
            scope.id
        );
    }

    for (index, context) in output.contexts.iter().enumerate() {
        assert_eq!(context.id.as_u32() as usize, index);
        assert_eq!(
            output.scopes[context.scope.as_u32() as usize].context,
            context.id
        );
    }

    for (index, symbol) in output.symbols.iter().enumerate() {
        assert_eq!(symbol.id.as_u32() as usize, index);
        assert_eq!(
            output.scopes[symbol.scope.as_u32() as usize].id,
            symbol.scope
        );
    }

    for (index, binding) in output.bindings.iter().enumerate() {
        assert_eq!(binding.id.as_u32() as usize, index);
        assert_eq!(
            output.symbols[binding.symbol.as_u32() as usize].id,
            binding.symbol
        );
    }

    for (index, definition) in output.definitions.iter().enumerate() {
        assert_eq!(definition.id.as_u32() as usize, index);
        let binding = &output.bindings[definition.binding.as_u32() as usize];
        assert_eq!(binding.definition, Some(definition.id));
        assert!(
            matches!(
                binding.kind,
                BindingKind::FunctionDefinition | BindingKind::ClassDefinition
            ),
            "definition attached to non-definition binding: {binding:?}"
        );
    }

    for definition in output
        .definitions
        .iter()
        .filter(|definition| definition.reportable)
    {
        assert!(matches!(
            definition.kind,
            DefinitionKind::Function | DefinitionKind::Class
        ));
        let matching_bindings = output
            .bindings
            .iter()
            .filter(|binding| binding.definition == Some(definition.id))
            .count();
        assert_eq!(matching_bindings, 1);
    }
}

#[test]
fn class_scope_is_not_lexical_parent_of_method_scope() {
    let output = bindings_graph();
    let class_scope = output
        .scopes
        .iter()
        .find(|scope| scope.name == "pkg.sample::Parser")
        .unwrap();
    let method_scope = output
        .scopes
        .iter()
        .find(|scope| scope.name == "pkg.sample::Parser.parse")
        .unwrap();
    let method_context = &output.contexts[method_scope.context.as_u32() as usize];

    assert_ne!(method_scope.parent, Some(class_scope.id));
    assert_eq!(method_scope.parent, Some(ScopeId::new(1)));
    assert_eq!(method_context.parent, Some(class_scope.context));
}

#[test]
fn a_symbol_is_interned_once_per_scope_and_name() {
    let mut builder = SemanticGraphBuilder::new();
    let empty = DecodedSource {
        text: String::new(),
        info: DecodedSourceInfo { encoding: "utf-8".to_owned(), had_utf8_bom: false },
    };
    collect_module_bindings(
        &mut builder,
        ParseInput {
            file_id: FileId::new(0),
            module_id: ModuleId::new(0),
            module_name: "m",
            display_path: "m.py",
            source: &empty,
            target_python: PythonVersion::py312(),
        },
        TextRange::new(0, 0),
        &Vec::new(),
        OriginDomain::Production,
        OriginEvidence::DefaultProduction,
    );
    let first = builder.symbol(ModuleId::new(0), ScopeId::new(0), "x");
    let before = builder.graph().clone();
    let again = builder.symbol(ModuleId::new(7), ScopeId::new(0), "x");
    assert_eq!(first, again);
    assert_eq!(*builder.graph(), before);
    let other = builder.symbol(ModuleId::new(0), ScopeId::new(0), "y");
    assert_eq!(other.0, first.0 + 1);
}
