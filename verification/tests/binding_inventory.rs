use cull::binding_inventory::{child_qualified_name, import_root_name, module_steps, InventoryStep};
use cull::ir::DefinitionKind;
use cull::semantic::BindingKind;
use cull::source::TextRange;
use cull::syntax::{AliasSyntax, HandlerSyntax, NameSyntax, StmtSyntax, TargetSyntax};

fn r(start: u32, end: u32) -> TextRange {
    TextRange::new(start, end)
}

fn name(id: &str, start: u32, store: bool) -> TargetSyntax {
    TargetSyntax::Name { id: id.to_owned(), range: r(start, start + id.len() as u32), store }
}

fn bound(steps: &[InventoryStep]) -> Vec<(BindingKind, String)> {
    steps
        .iter()
        .filter_map(|s| match s {
            InventoryStep::Bind { kind, name, .. } => Some((*kind, name.clone())),
            _ => None,
        })
        .collect()
}

fn alias(n: &str, asname: Option<&str>) -> AliasSyntax {
    AliasSyntax {
        name: n.to_owned(),
        name_range: r(0, n.len() as u32),
        asname: asname.map(|a| NameSyntax { id: a.to_owned(), range: r(20, 20 + a.len() as u32) }),
        range: r(0, 30),
    }
}

#[test]
fn qualified_names_use_double_colon_once() {
    assert_eq!(child_qualified_name("pkg.mod", "f"), "pkg.mod::f");
    assert_eq!(child_qualified_name("pkg.mod::C", "m"), "pkg.mod::C.m");
    assert_eq!(import_root_name("os.path"), "os");
    assert_eq!(import_root_name("json"), "json");
}

#[test]
fn imports_bind_roots_and_aliases_but_not_star() {
    let statements = vec![
        StmtSyntax::Import { names: vec![alias("os.path", None), alias("json", Some("j"))] },
        StmtSyntax::ImportFrom { module: Some("m".to_owned()), level: 0, names: vec![alias("*", None), alias("x", None), alias("y", Some("z"))] },
    ];
    let steps = module_steps("m", "", &statements);
    assert_eq!(
        bound(&steps),
        vec![
            (BindingKind::Import, "os".to_owned()),
            (BindingKind::Import, "j".to_owned()),
            (BindingKind::ImportFrom, "x".to_owned()),
            (BindingKind::ImportFrom, "z".to_owned()),
        ]
    );
}

#[test]
fn only_stored_targets_bind() {
    let statements = vec![
        StmtSyntax::Assign {
            targets: vec![TargetSyntax::Tuple {
                elts: vec![
                    name("a", 0, true),
                    TargetSyntax::Starred { value: Box::new(name("b", 3, true)) },
                    TargetSyntax::Other,
                ],
                store: true,
            }],
        },
        StmtSyntax::AnnAssign { target: name("c", 10, true), has_value: false },
        StmtSyntax::AnnAssign { target: name("d", 20, true), has_value: true },
        StmtSyntax::AugAssign { target: name("e", 30, false) },
        StmtSyntax::Delete { targets: vec![TargetSyntax::List { elts: vec![name("f", 40, true)], store: true }] },
    ];
    let steps = module_steps("m", "", &statements);
    assert_eq!(
        bound(&steps),
        vec![
            (BindingKind::Assignment, "a".to_owned()),
            (BindingKind::Assignment, "b".to_owned()),
            (BindingKind::AnnotatedAssignment, "d".to_owned()),
            (BindingKind::Delete, "f".to_owned()),
        ]
    );
}

#[test]
fn compound_statements_bind_in_source_order() {
    let statements = vec![
        StmtSyntax::For {
            target: name("i", 4, true),
            body: vec![StmtSyntax::Assign { targets: vec![name("x", 10, true)] }],
            orelse: vec![StmtSyntax::Assign { targets: vec![name("y", 20, true)] }],
        },
        StmtSyntax::With {
            targets: vec![None, Some(name("fh", 30, true))],
            body: vec![StmtSyntax::Other],
        },
        StmtSyntax::Try {
            body: vec![StmtSyntax::Assign { targets: vec![name("t", 40, true)] }],
            handlers: vec![HandlerSyntax {
                name: Some(NameSyntax { id: "err".to_owned(), range: r(50, 53) }),
                body: vec![StmtSyntax::Other],
            }],
            orelse: Vec::new(),
            finalbody: vec![StmtSyntax::Assign { targets: vec![name("z", 60, true)] }],
        },
        StmtSyntax::If {
            body: Vec::new(),
            clauses: vec![vec![StmtSyntax::Assign { targets: vec![name("w", 70, true)] }]],
        },
    ];
    let steps = module_steps("m", "", &statements);
    assert_eq!(
        bound(&steps),
        vec![
            (BindingKind::ForTarget, "i".to_owned()),
            (BindingKind::Assignment, "x".to_owned()),
            (BindingKind::Assignment, "y".to_owned()),
            (BindingKind::WithTarget, "fh".to_owned()),
            (BindingKind::Assignment, "t".to_owned()),
            (BindingKind::ExceptTarget, "err".to_owned()),
            (BindingKind::Assignment, "z".to_owned()),
            (BindingKind::Assignment, "w".to_owned()),
        ]
    );
}

#[test]
fn definitions_enter_and_leave_their_scope() {
    let source = "class C:\n    async def m(self): ...\n";
    let statements = vec![StmtSyntax::ClassDef {
        name: "C".to_owned(),
        name_range: r(6, 7),
        range: r(0, 36),
        body: vec![StmtSyntax::FunctionDef {
            name: "m".to_owned(),
            name_range: r(23, 24),
            range: r(13, 36),
            is_async: true,
            parameters: Vec::new(),
            body: vec![StmtSyntax::Other],
        }],
    }];
    let steps = module_steps("pkg", source, &statements);
    assert_eq!(steps.len(), 4);
    match &steps[0] {
        InventoryStep::Enter { kind, qualified_name, reportable, range, .. } => {
            assert_eq!(*kind, DefinitionKind::Class);
            assert_eq!(qualified_name, "pkg::C");
            assert!(*reportable);
            assert_eq!(*range, r(0, 36));
        },
        other => panic!("unexpected step {other:?}"),
    }
    match &steps[1] {
        InventoryStep::Enter { qualified_name, reportable, range, is_async, .. } => {
            assert_eq!(qualified_name, "pkg::C.m");
            assert!(!*reportable);
            assert!(*is_async);
            assert_eq!(*range, r(13, 36));
        },
        other => panic!("unexpected step {other:?}"),
    }
    assert_eq!(steps[2], InventoryStep::Leave);
    assert_eq!(steps[3], InventoryStep::Leave);
}
