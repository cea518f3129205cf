use cull::decode::{decode_python_source, DecodedSource};
use cull::frontend::{ParseInput, PythonFrontend};
use cull::ids::{FileId, ModuleId};
use cull::ir::DefinitionKind;
use cull::ruff_frontend::{definition_statement_range, RuffFrontend};
use cull::source::{DecodedSourceInfo, PythonVersion, TextRange};

#[test]
fn lowers_top_level_definitions_only() {
    let source = decode_python_source(
        b"from __future__ import annotations\n\n@dec\ndef f[T]():\n    def nested(): pass\n\nclass C: pass\n",
    )
    .unwrap();
    let parsed = RuffFrontend
        .parse_module(ParseInput {
            file_id: FileId::new(0),
            module_id: ModuleId::new(0),
            module_name: "acme.mod",
            display_path: "src/acme/mod.py",
            source: &source,
            target_python: PythonVersion::py314(),
        })
        .unwrap();

    assert!(parsed.module.future_annotations);
    assert_eq!(parsed.module.definitions.len(), 2);
    assert_eq!(parsed.module.definitions[0].name, "f");
    assert_eq!(parsed.module.definitions[0].type_parameter_count, 1);
    assert_eq!(parsed.module.definitions[1].name, "C");
}

#[test]
fn syntax_errors_are_structured() {
    let source = DecodedSource {
        text: "def nope(:\n".to_owned(),
        info: DecodedSourceInfo {
            encoding: "utf-8".to_owned(),
            had_utf8_bom: false,
        },
    };
    let errors = RuffFrontend
        .parse_module(ParseInput {
            file_id: FileId::new(0),
            module_id: ModuleId::new(0),
            module_name: "bad",
            display_path: "bad.py",
            source: &source,
            target_python: PythonVersion::py314(),
        })
        .unwrap_err();

    assert!(!errors.is_empty());
    assert_eq!(errors[0].code, "CULL_P0201");
}

#[test]
fn parses_shared_modern_syntax_corpus() {
    let snippets = [
        "match value:\n    case {'x': y} if (z := y):\n        pass\n",
        "try:\n    pass\nexcept* ValueError as error:\n    pass\n",
        "type Response[T] = list[T]\n",
        "class Box[T]:\n    pass\n",
        "def collect[T](items: list[T]) -> list[T]:\n    return [item for item in items]\n",
        "message = f'{name=}'\n",
        "template = t'hello {name}'\n",
    ];

    for snippet in snippets {
        let source = decode_python_source(snippet.as_bytes()).unwrap();
        let parsed = RuffFrontend.parse_module(ParseInput {
            file_id: FileId::new(0),
            module_id: ModuleId::new(0),
            module_name: "syntax",
            display_path: "syntax.py",
            source: &source,
            target_python: PythonVersion::py314(),
        });
        assert!(parsed.is_ok(), "failed to parse snippet:\n{snippet}");
    }
}

#[test]
fn target_version_errors_are_structured() {
    let source = decode_python_source(b"type Response[T] = list[T]\n").unwrap();
    let errors = RuffFrontend
        .parse_module(ParseInput {
            file_id: FileId::new(0),
            module_id: ModuleId::new(0),
            module_name: "syntax",
            display_path: "syntax.py",
            source: &source,
            target_python: PythonVersion::py310(),
        })
        .unwrap_err();

    assert!(errors.iter().any(|error| error.code == "CULL_P0202"));
}

#[test]
fn decorated_definition_range_starts_at_keyword() {
    let source = decode_python_source(b"@dec\nasync def run():\n    pass\n\nclass K(Base):\n    x = 1\n").unwrap();
    let parsed = RuffFrontend
        .parse_module(ParseInput {
            file_id: FileId::new(3),
            module_id: ModuleId::new(4),
            module_name: "pkg.jobs",
            display_path: "pkg/jobs.py",
            source: &source,
            target_python: PythonVersion::py312(),
        })
        .unwrap();
    let module = parsed.module;
    assert_eq!(module.id, ModuleId::new(4));
    assert_eq!(module.file, FileId::new(3));
    assert_eq!(module.name, "pkg.jobs");
    assert_eq!(module.path, "pkg/jobs.py");
    assert!(!module.future_annotations);
    assert_eq!(module.definitions.len(), 2);
    let run = &module.definitions[0];
    assert_eq!(run.kind, DefinitionKind::Function);
    assert!(run.is_async);
    assert_eq!(run.decorator_count, 1);
    assert_eq!(run.range.start, 5);
    assert_eq!(run.name_range, TextRange::new(15, 18));
    assert_eq!(run.key.module, "pkg.jobs");
    assert_eq!(run.key.lexical_parent, None);
    let k = &module.definitions[1];
    assert_eq!(k.id.as_u32(), 1);
    assert_eq!(k.kind, DefinitionKind::Class);
    assert_eq!(k.range.start, 32);
    assert_eq!(k.name, "K");
}

#[test]
fn future_import_needs_level_zero_and_annotations() {
    let other = decode_python_source(b"from __future__ import division\n").unwrap();
    let parsed = RuffFrontend
        .parse_module(ParseInput {
            file_id: FileId::new(0),
            module_id: ModuleId::new(0),
            module_name: "m",
            display_path: "m.py",
            source: &other,
            target_python: PythonVersion::py314(),
        })
        .unwrap();
    assert!(!parsed.module.future_annotations);
}

#[test]
fn statement_range_falls_back_without_keyword() {
    let range = definition_statement_range(
        "x = 1\n  f",
        TextRange::new(2, 9),
        TextRange::new(8, 9),
        false,
        DefinitionKind::Function,
    );
    assert_eq!(range, TextRange::new(2, 9));
    let range = definition_statement_range(
        "a\nclass Foo: pass\n",
        TextRange::new(0, 17),
        TextRange::new(8, 11),
        false,
        DefinitionKind::Class,
    );
    assert_eq!(range, TextRange::new(2, 17));
}
