use cull::diagnostic::DiagnosticSeverity;
use cull::ids::{DefId, ModuleId};
use cull::output::{ProjectMode, ReachabilityDomain, RootInvocation, RootKind};
use cull::seeds::{
    seed_roots, Activation, ConfiguredRootFact, DefinitionUse, ModuleExecutionMode, ModuleMark,
    ModuleRef, ScriptRootFact, SeedModuleFact, SurfaceCandidate,
};
use cull::semantic::OriginDomain;

fn module(id: u32, name: &str) -> ModuleRef {
    ModuleRef { id: ModuleId::new(id), name: name.to_owned() }
}

fn seed_module(id: u32, name: &str, origin: OriginDomain, guard: bool, defs: &[u32]) -> SeedModuleFact {
    SeedModuleFact {
        module: module(id, name),
        origin,
        has_main_guard: guard,
        reportable_definitions: defs.iter().map(|d| DefId::new(*d)).collect(),
    }
}

#[test]
fn configured_roots_resolve_or_report_an_error() {
    let configured = vec![
        ConfiguredRootFact { raw: "app.main".to_owned(), module_root: true, module: Some(module(1, "app.main")), definition: None },
        ConfiguredRootFact { raw: "app.cli:run".to_owned(), module_root: false, module: Some(module(2, "app.cli")), definition: Some(DefId::new(7)) },
        ConfiguredRootFact { raw: "missing".to_owned(), module_root: true, module: None, definition: None },
    ];
    let seeds = seed_roots(ProjectMode::Application, &configured, &vec![], &vec![], &vec![], &vec![]);
    assert_eq!(seeds.roots.len(), 3);
    for (k, root) in seeds.roots.iter().enumerate() {
        assert_eq!(root.id.0 as usize, k);
    }
    assert_eq!(seeds.roots[0].kind, RootKind::ConfiguredModule);
    assert_eq!(seeds.roots[0].invocation, RootInvocation::ExecuteModule);
    assert_eq!(seeds.roots[0].module.as_deref(), Some("app.main"));
    assert_eq!(seeds.roots[0].detail, "configured module root executes as top-level code");
    assert_eq!(seeds.roots[1].kind, RootKind::ConfiguredObject);
    assert_eq!(seeds.roots[1].invocation, RootInvocation::ExternalUse);
    assert!(seeds.roots[1].resolved);
    assert!(!seeds.roots[2].resolved);
    assert_eq!(seeds.roots[2].detail, "configured root could not be resolved exactly");
    assert_eq!(
        seeds.marks,
        vec![
            ModuleMark { domain: ReachabilityDomain::Production, module: ModuleId::new(1), mode: ModuleExecutionMode::TopLevel },
            ModuleMark { domain: ReachabilityDomain::Production, module: ModuleId::new(2), mode: ModuleExecutionMode::Imported },
        ]
    );
    assert_eq!(
        seeds.activations,
        vec![Activation { domain: ReachabilityDomain::Production, definition: DefId::new(7), usage: DefinitionUse::ExternalUse }]
    );
    assert_eq!(seeds.diagnostics.len(), 1);
    assert_eq!(seeds.diagnostics[0].code, "CULL_P3001");
    assert_eq!(seeds.diagnostics[0].severity, DiagnosticSeverity::Error);
    assert_eq!(seeds.diagnostics[0].message, "configured root `missing` could not be resolved exactly");
}

#[test]
fn scripts_are_called_or_left_unresolved() {
    let scripts = vec![
        ScriptRootFact { name: "tool".to_owned(), raw: "app.cli:main".to_owned(), definition: Some(DefId::new(3)), module: Some(module(2, "app.cli")) },
        ScriptRootFact { name: "other".to_owned(), raw: "gone:main".to_owned(), definition: None, module: None },
    ];
    let gui = vec![ScriptRootFact { name: "win".to_owned(), raw: "app.gui:main".to_owned(), definition: Some(DefId::new(4)), module: None }];
    let seeds = seed_roots(ProjectMode::Application, &vec![], &scripts, &gui, &vec![], &vec![]);
    assert_eq!(seeds.roots.len(), 3);
    assert_eq!(seeds.roots[0].target, "tool=app.cli:main");
    assert_eq!(seeds.roots[0].kind, RootKind::ConsoleScript);
    assert_eq!(seeds.roots[0].invocation, RootInvocation::Call);
    assert_eq!(seeds.roots[1].target, "other=gone:main");
    assert!(!seeds.roots[1].resolved);
    assert_eq!(seeds.roots[1].detail, "script target is valid metadata but not locally resolved");
    assert_eq!(seeds.roots[2].kind, RootKind::GuiScript);
    assert_eq!(seeds.roots[2].module, None);
    assert_eq!(seeds.marks.len(), 1);
    assert_eq!(seeds.activations.len(), 2);
    assert_eq!(seeds.activations[1].usage, DefinitionUse::Callable);
    assert!(seeds.diagnostics.is_empty());
}

#[test]
fn module_roots_follow_origin_guard_and_name() {
    let modules = vec![
        seed_module(1, "app.main", OriginDomain::Production, true, &[]),
        seed_module(2, "app.__main__", OriginDomain::Production, false, &[]),
        seed_module(3, "tests.test_app", OriginDomain::Test, true, &[10, 11]),
        seed_module(4, "lib.__main__", OriginDomain::Unknown, true, &[]),
    ];
    let seeds = seed_roots(ProjectMode::Application, &vec![], &vec![], &vec![], &modules, &vec![]);
    let kinds: Vec<RootKind> = seeds.roots.iter().map(|r| r.kind).collect();
    assert_eq!(kinds, vec![RootKind::MainGuard, RootKind::PackageMain, RootKind::TestRoot]);
    assert_eq!(seeds.roots[2].domain, ReachabilityDomain::Test);
    assert_eq!(seeds.marks[2].mode, ModuleExecutionMode::Imported);
    assert_eq!(seeds.activations.len(), 2);
    assert_eq!(seeds.activations[0].domain, ReachabilityDomain::Test);
}

#[test]
fn the_surface_is_seeded_outside_applications() {
    let candidates = vec![
        SurfaceCandidate { definition: DefId::new(1), reportable: true, name: "api".to_owned(), qualified_name: "lib.api".to_owned(), module: module(5, "lib"), exported: false },
        SurfaceCandidate { definition: DefId::new(2), reportable: true, name: "_private".to_owned(), qualified_name: "lib._private".to_owned(), module: module(5, "lib"), exported: false },
        SurfaceCandidate { definition: DefId::new(3), reportable: false, name: "_exported".to_owned(), qualified_name: "lib._exported".to_owned(), module: module(5, "lib"), exported: true },
    ];
    let library = seed_roots(ProjectMode::Library, &vec![], &vec![], &vec![], &vec![], &candidates);
    let targets: Vec<&str> = library.roots.iter().map(|r| r.target.as_str()).collect();
    assert_eq!(targets, vec!["lib.api", "lib._exported"]);
    assert_eq!(library.roots[0].kind, RootKind::LibrarySurface);
    let auto = seed_roots(ProjectMode::Auto, &vec![], &vec![], &vec![], &vec![], &candidates);
    assert_eq!(auto.roots.len(), 1);
    let app = seed_roots(ProjectMode::Application, &vec![], &vec![], &vec![], &vec![], &candidates);
    assert!(app.roots.is_empty());
}
