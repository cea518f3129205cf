use cull::discovery::DiscoveredModule;
use cull::ids::{FileId, ModuleId};
use cull::ir::DefinitionKind;
use cull::module_namespace::{
    advance, finish_resolution, has_module_getattr, is_package_module, namespace_fact, next_prefix,
    package_context_name, provider_kind, provider_status, relative_module_name, resolve_segment,
    start_resolution, EntryProbe, LocalModuleResolution, ModuleProviderFact, ModuleProviderKind,
    ModuleProviderStatus, ResolveStep, SegmentResolution,
};
use cull::module_namespace::{ModuleNamespaceIndex, NamespacePackageFact};
use cull::order::sort_by_key;
use cull::ruff_frontend::{DefinitionSyntax, TopStatement};
use cull::semantic::{OriginDomain, OriginEvidence};
use cull::source::TextRange;

fn module(name: &str, path: &str) -> DiscoveredModule {
    DiscoveredModule {
        id: ModuleId::new(3),
        file: FileId::new(3),
        name: name.to_owned(),
        path: path.to_owned(),
        display_path: path.trim_start_matches("/repo/").to_owned(),
        origin_domain: OriginDomain::Production,
        origin_evidence: OriginEvidence::DefaultProduction,
    }
}

#[test]
fn packages_are_init_files() {
    let package = module("pkg.sub", "/repo/src/pkg/sub/__init__.py");
    let file = module("pkg.sub.mod", "/repo/src/pkg/sub/mod.py");
    assert!(is_package_module(&package));
    assert!(!is_package_module(&file));
    assert_eq!(provider_kind(&package), ModuleProviderKind::RegularPackage);
    assert_eq!(provider_kind(&file), ModuleProviderKind::ModuleFile);
    assert_eq!(package_context_name(&package), vec!["pkg".to_owned(), "sub".to_owned()]);
    assert_eq!(package_context_name(&file), vec!["pkg".to_owned(), "sub".to_owned()]);
}

#[test]
fn relative_imports_climb_from_the_package_context() {
    let file = module("pkg.sub.mod", "/repo/src/pkg/sub/mod.py");
    assert_eq!(relative_module_name(&file, 0, Some("os.path")), Some("os.path".to_owned()));
    assert_eq!(relative_module_name(&file, 0, None), None);
    assert_eq!(relative_module_name(&file, 1, Some("util")), Some("pkg.sub.util".to_owned()));
    assert_eq!(relative_module_name(&file, 1, None), Some("pkg.sub".to_owned()));
    assert_eq!(relative_module_name(&file, 2, Some("core.x")), Some("pkg.core.x".to_owned()));
    assert_eq!(relative_module_name(&file, 3, None), None);
    assert_eq!(relative_module_name(&file, 4, Some("x")), None);
    let package = module("pkg", "/repo/src/pkg/__init__.py");
    assert_eq!(relative_module_name(&package, 1, Some("a")), Some("pkg.a".to_owned()));
}

#[test]
fn provider_status_prefers_duplicates_then_selection() {
    let id = ModuleId::new(1);
    assert_eq!(provider_status(true, Some(id), id), ModuleProviderStatus::DuplicatePhysicalFile);
    assert_eq!(provider_status(false, Some(id), id), ModuleProviderStatus::Selected);
    assert_eq!(provider_status(false, Some(ModuleId::new(2)), id), ModuleProviderStatus::Shadowed);
    assert_eq!(provider_status(false, None, id), ModuleProviderStatus::Shadowed);
}

fn provider(name: &str, path: &str, kind: ModuleProviderKind) -> ModuleProviderFact {
    ModuleProviderFact {
        module_name: name.to_owned(),
        path: path.to_owned(),
        kind,
        status: ModuleProviderStatus::Selected,
        module: None,
    }
}

#[test]
fn providers_sort_by_name_path_and_kind_name() {
    let sorted = sort_by_key(vec![
        provider("pkg", "src/pkg", ModuleProviderKind::RegularPackage),
        provider("pkg", "src/pkg", ModuleProviderKind::NamespacePackagePortion),
        provider("pkg", "lib/pkg", ModuleProviderKind::ModuleFile),
        provider("a", "z", ModuleProviderKind::RegularPackage),
    ]);
    let order: Vec<(&str, &str, ModuleProviderKind)> =
        sorted.iter().map(|p| (p.module_name.as_str(), p.path.as_str(), p.kind)).collect();
    assert_eq!(
        order,
        vec![
            ("a", "z", ModuleProviderKind::RegularPackage),
            ("pkg", "lib/pkg", ModuleProviderKind::ModuleFile),
            ("pkg", "src/pkg", ModuleProviderKind::NamespacePackagePortion),
            ("pkg", "src/pkg", ModuleProviderKind::RegularPackage),
        ]
    );
}

fn probe(dir: &str) -> EntryProbe {
    EntryProbe {
        package_dir: dir.to_owned(),
        package_init: format!("{dir}/__init__.py"),
        init_exists: false,
        init_module: None,
        module_file: format!("{dir}.py"),
        file_exists: false,
        file_module: None,
        dir_exists: false,
    }
}

#[test]
fn first_provider_wins_a_segment() {
    let mut a = probe("/repo/src/pkg");
    a.dir_exists = true;
    let mut b = probe("/repo/lib/pkg");
    b.init_exists = true;
    b.init_module = Some(ModuleId::new(7));
    let mut c = probe("/repo/extra/pkg");
    c.file_exists = true;
    c.file_module = Some(ModuleId::new(8));
    assert_eq!(
        resolve_segment(&vec![a, b, c], "pkg"),
        SegmentResolution::Package(ModuleId::new(7), "/repo/lib/pkg".to_owned())
    );
    let mut only_file = probe("/repo/src/mod");
    only_file.file_exists = true;
    assert_eq!(
        resolve_segment(&vec![only_file], "mod"),
        SegmentResolution::Unsupported("module provider is outside included modules: /repo/src/mod.py".to_owned())
    );
}

#[test]
fn directories_without_providers_form_namespace_packages() {
    let mut a = probe("/repo/src/ns");
    a.dir_exists = true;
    let b = probe("/repo/lib/ns");
    let mut c = probe("/repo/extra/ns");
    c.dir_exists = true;
    assert_eq!(
        resolve_segment(&vec![a, b, c], "ns"),
        SegmentResolution::Namespace(
            "ns".to_owned(),
            vec!["/repo/src/ns".to_owned(), "/repo/extra/ns".to_owned()]
        )
    );
    assert_eq!(resolve_segment(&vec![probe("/repo/src/x")], "x"), SegmentResolution::External);
    let fact = namespace_fact("/repo", "ns", &vec!["/repo/src/ns".to_owned(), "/repo/extra/ns".to_owned()]);
    assert_eq!(fact.portions, vec!["src/ns".to_owned(), "extra/ns".to_owned()]);
}

#[test]
fn resolution_steps_through_segments() {
    let state = start_resolution(&vec!["/repo/src".to_owned()]);
    assert_eq!(state.entries, vec!["/repo/src".to_owned()]);
    assert_eq!(next_prefix(&state.prefix, "pkg"), "pkg");
    assert_eq!(next_prefix("pkg", "sub"), "pkg.sub");
    let step = advance("pkg".to_owned(), SegmentResolution::Package(ModuleId::new(1), "/repo/src/pkg".to_owned()));
    let state = match step {
        ResolveStep::Continue(state) => state,
        ResolveStep::Done(_) => panic!("expected to continue"),
    };
    assert_eq!(state.entries, vec!["/repo/src/pkg".to_owned()]);
    assert_eq!(finish_resolution(state), LocalModuleResolution::Module(ModuleId::new(1)));
    match advance("pkg.x".to_owned(), SegmentResolution::External) {
        ResolveStep::Done(r) => assert_eq!(r, LocalModuleResolution::External),
        ResolveStep::Continue(_) => panic!("expected to stop"),
    }
    assert_eq!(finish_resolution(start_resolution(&Vec::new())), LocalModuleResolution::External);
}

#[test]
fn module_getattr_is_a_top_level_function() {
    let def = |kind: DefinitionKind, name: &str| {
        TopStatement::Definition(DefinitionSyntax {
            kind,
            name: name.to_owned(),
            name_range: TextRange::new(0, 1),
            range: TextRange::new(0, 1),
            is_async: false,
            decorator_count: 0,
            type_parameter_count: 0,
        })
    };
    assert!(has_module_getattr(&vec![TopStatement::Other, def(DefinitionKind::Function, "__getattr__")]));
    assert!(!has_module_getattr(&vec![def(DefinitionKind::Class, "__getattr__")]));
    assert!(!has_module_getattr(&vec![def(DefinitionKind::Function, "__dir__")]));
}

#[test]
fn the_index_answers_names_paths_and_namespaces() {
    let mut a = module("pkg", "/repo/src/pkg/__init__.py");
    a.id = ModuleId::new(0);
    let mut b = module("pkg.mod", "/repo/src/pkg/mod.py");
    b.id = ModuleId::new(1);
    let mut c = module("pkg.mod", "/repo/lib/pkg/mod.py");
    c.id = ModuleId::new(2);
    let mut index = ModuleNamespaceIndex::new("/repo", &vec!["/repo/src".to_owned(), "/repo/lib".to_owned()], vec![a, b, c]);
    assert_eq!(index.source_roots[1].path, "lib");
    assert_eq!(index.source_roots[1].order, 1);
    assert_eq!(index.module_for_path("/repo/lib/pkg/mod.py"), Some(ModuleId::new(2)));
    assert_eq!(index.module_for_path("/repo/other.py"), None);
    assert_eq!(index.module(ModuleId::new(1)).unwrap().name, "pkg.mod");
    assert!(matches!(index.begin_resolution(""), ResolveStep::Done(LocalModuleResolution::External)));
    assert!(matches!(index.begin_resolution("pkg.mod"), ResolveStep::Continue(_)));
    index.select_module("pkg".to_owned(), ModuleId::new(0));
    index.select_module("pkg.mod".to_owned(), ModuleId::new(1));
    assert_eq!(index.module_for_name("pkg.mod"), Some(ModuleId::new(1)));
    assert_eq!(index.module_for_name("pkg.other"), None);
    index.record_namespace(NamespacePackageFact { name: "ns".to_owned(), portions: vec!["src/ns".to_owned()] });
    index.record_namespace(NamespacePackageFact { name: "ns".to_owned(), portions: vec!["lib/ns".to_owned()] });
    assert_eq!(index.namespace_packages.len(), 1);
    assert!(matches!(index.begin_resolution("ns"), ResolveStep::Done(LocalModuleResolution::Namespace(_))));
    index.finish_providers();
    let rows: Vec<(&str, &str, ModuleProviderStatus)> =
        index.providers.iter().map(|p| (p.module_name.as_str(), p.path.as_str(), p.status)).collect();
    assert_eq!(
        rows,
        vec![
            ("ns", "src/ns", ModuleProviderStatus::NamespaceContributor),
            ("pkg", "src/pkg/__init__.py", ModuleProviderStatus::Selected),
            ("pkg.mod", "lib/pkg/mod.py", ModuleProviderStatus::Shadowed),
            ("pkg.mod", "src/pkg/mod.py", ModuleProviderStatus::Selected),
        ]
    );
}

#[test]
fn the_index_resolves_relative_imports_of_its_modules() {
    let file = module("pkg.sub.mod", "/repo/src/pkg/sub/mod.py");
    let index = ModuleNamespaceIndex::new("/repo", &vec!["/repo/src".to_owned()], vec![file]);
    assert_eq!(index.relative_module_name(ModuleId::new(3), 1, Some("util")), Some("pkg.sub.util".to_owned()));
    assert_eq!(index.relative_module_name(ModuleId::new(3), 2, None), Some("pkg".to_owned()));
    assert_eq!(index.relative_module_name(ModuleId::new(9), 1, Some("util")), None);
}
