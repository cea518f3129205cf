use cull::config::{ProjectConfig, SourceRootKind};
use cull::discovery::{
    choose_source_roots, module_name_for_path, module_name_from_parts, DiscoveredProject,
    DiscoveryError, SourceRoot,
};
use cull::diagnostic::DiagnosticSeverity;
use cull::discovery::WalkedEntry;
use cull::discovery::classify_origin;
use cull::discovery::detect_module_collisions;
use cull::discovery::is_default_excluded_dir;
use cull::discovery::is_excluded;
use cull::discovery::module_for_entry;
use cull::discovery::order_modules;
use cull::discovery::should_visit_entry;
use cull::discovery::source_root_problem;
use cull::discovery::trim_slashes_exec;
use cull::semantic::OriginDomain;
use cull::semantic::OriginEvidence;
use cull::output::ProjectMode;
use cull::paths::{relative_slash_path, slash_path};
use cull::source::PythonVersion;

#[test]
fn names_package_modules() {
    let root = "/repo/src";
    assert_eq!(
        module_name_for_path(root, "/repo/src/acme/cache.py"),
        Some("acme.cache".to_owned())
    );
    assert_eq!(
        module_name_for_path(root, "/repo/src/acme/__init__.py"),
        Some("acme".to_owned())
    );
}

#[test]
fn files_outside_the_root_or_not_python_have_no_module() {
    assert_eq!(module_name_for_path("/repo/src", "/other/acme.py"), None);
    assert_eq!(module_name_for_path("/repo/src", "/repo/src/notes.txt"), None);
    assert_eq!(module_name_for_path("/repo/src", "/repo/src/__init__.py"), None);
    assert_eq!(
        module_name_for_path("/repo", "/repo/top.py"),
        Some("top".to_owned())
    );
}

#[test]
fn module_names_join_parts_with_dots() {
    let parts = vec!["a".to_owned(), "b".to_owned(), "c.py".to_owned()];
    assert_eq!(module_name_from_parts(&parts), Some("a.b.c".to_owned()));
    assert_eq!(module_name_from_parts(&Vec::new()), None);
}

#[test]
fn relative_paths_use_slashes_and_dot_for_the_root() {
    assert_eq!(relative_slash_path("/repo", "/repo/src/pkg"), "src/pkg");
    assert_eq!(relative_slash_path("/repo", "/repo"), ".");
    assert_eq!(relative_slash_path("/repo", "/elsewhere/x"), "/elsewhere/x");
    assert_eq!(slash_path("a/b"), "a/b");
}

#[test]
fn source_roots_prefer_explicit_then_configured_then_src() {
    let explicit = vec!["/repo/lib".to_owned()];
    let configured = vec!["/repo/code".to_owned()];
    let none: Vec<String> = Vec::new();
    let roots = choose_source_roots("/repo", &explicit, &configured, "/repo/src", true);
    assert_eq!(roots.len(), 1);
    assert_eq!(roots[0].kind, SourceRootKind::Explicit);
    assert_eq!(roots[0].path, "/repo/lib");
    let roots = choose_source_roots("/repo", &none, &configured, "/repo/src", true);
    assert_eq!(roots[0].kind, SourceRootKind::ToolCull);
    let roots = choose_source_roots("/repo", &none, &none, "/repo/src", true);
    assert_eq!(roots[0].kind, SourceRootKind::ConventionalSrc);
    assert_eq!(roots[0].path, "/repo/src");
    let roots = choose_source_roots("/repo", &none, &none, "/repo/src", false);
    assert_eq!(roots[0].kind, SourceRootKind::FlatProject);
    assert_eq!(roots[0].path, "/repo");
}

#[test]
fn source_root_output_is_relative_with_kind() {
    let config = ProjectConfig::empty();
    let project = DiscoveredProject {
        project_root: "/repo".to_owned(),
        target_python: PythonVersion::default_version(),
        mode: ProjectMode::Auto,
        source_roots: vec![SourceRoot {
            path: "/repo/src".to_owned(),
            kind: SourceRootKind::ConventionalSrc,
        }],
        modules: Vec::new(),
        configured_roots: config.roots,
        root_coverage: None,
        scripts: Vec::new(),
        gui_scripts: Vec::new(),
        dynamic_scripts: false,
        dynamic_gui_scripts: false,
        allow_partial: false,
        diagnostics: Vec::new(),
    };
    let output = project.source_root_output();
    assert_eq!(output.len(), 1);
    assert_eq!(output[0].path, "src");
    assert_eq!(output[0].kind, "conventional-src");
}

#[test]
fn discovery_errors_have_messages() {
    assert_eq!(
        DiscoveryError::MissingRoot("/nope".to_owned()).message(),
        "project root does not exist: /nope"
    );
    assert_eq!(
        DiscoveryError::RootNotDirectory("/file".to_owned()).message(),
        "project path is not a directory: /file"
    );
}

fn module(name: &str, display_path: &str) -> cull::discovery::DiscoveredModule {
    cull::discovery::DiscoveredModule {
        id: cull::ids::ModuleId::new(0),
        file: cull::ids::FileId::new(0),
        name: name.to_owned(),
        path: format!("/repo/{display_path}"),
        display_path: display_path.to_owned(),
        origin_domain: cull::semantic::OriginDomain::Production,
        origin_evidence: cull::semantic::OriginEvidence::DefaultProduction,
    }
}

#[test]
fn origin_follows_configured_test_paths_first() {
    let mut config = ProjectConfig::empty();
    config.test_paths = vec!["/checks/".to_owned(), "".to_owned()];
    assert_eq!(
        classify_origin("checks/unit/a.py", &config),
        (OriginDomain::Test, OriginEvidence::CullConfiguration)
    );
    assert_eq!(classify_origin("checks", &config), (OriginDomain::Test, OriginEvidence::CullConfiguration));
    assert_eq!(
        classify_origin("checksum.py", &config),
        (OriginDomain::Production, OriginEvidence::DefaultProduction)
    );
    config.test_path_origin_evidence = Some(OriginEvidence::PytestTestPath);
    assert_eq!(classify_origin("checks/a.py", &config), (OriginDomain::Test, OriginEvidence::PytestTestPath));
}

#[test]
fn origin_recognizes_tests_directories_and_pytest_names() {
    let config = ProjectConfig::empty();
    assert_eq!(classify_origin("tests/a.py", &config), (OriginDomain::Test, OriginEvidence::TestsDirectory));
    assert_eq!(classify_origin("src/pkg/tests/a.py", &config), (OriginDomain::Test, OriginEvidence::TestsDirectory));
    assert_eq!(
        classify_origin("src/pkg/test_cache.py", &config),
        (OriginDomain::Test, OriginEvidence::PytestFilenamePattern)
    );
    assert_eq!(
        classify_origin("src/pkg/cache_test.py", &config),
        (OriginDomain::Test, OriginEvidence::PytestFilenamePattern)
    );
    assert_eq!(
        classify_origin("src/pkg/contest.py", &config),
        (OriginDomain::Production, OriginEvidence::DefaultProduction)
    );
}

#[test]
fn trims_slashes_from_both_ends() {
    assert_eq!(trim_slashes_exec("//a/b//"), vec!['a', '/', 'b']);
    assert_eq!(trim_slashes_exec("///"), Vec::<char>::new());
    assert_eq!(trim_slashes_exec("x"), vec!['x']);
}

#[test]
fn collisions_are_reported_once_per_name_in_name_order() {
    let modules = vec![
        module("pkg.b", "src/pkg/b.py"),
        module("pkg.a", "src/pkg/a.py"),
        module("pkg.b", "lib/pkg/b.py"),
        module("pkg.a", "lib/pkg/a/__init__.py"),
        module("pkg.c", "src/pkg/c.py"),
    ];
    let mut diagnostics = Vec::new();
    detect_module_collisions(&modules, &mut diagnostics);
    assert_eq!(diagnostics.len(), 2);
    assert_eq!(diagnostics[0].code, "CULL_P0005");
    assert_eq!(diagnostics[0].severity, DiagnosticSeverity::Warning);
    assert_eq!(
        diagnostics[0].message,
        "multiple source files map to module `pkg.a`: src/pkg/a.py, lib/pkg/a/__init__.py"
    );
    assert_eq!(
        diagnostics[1].message,
        "multiple source files map to module `pkg.b`: src/pkg/b.py, lib/pkg/b.py"
    );
}

#[test]
fn modules_are_ordered_numbered_and_classified() {
    let discovered = vec![
        module("pkg.z", "src/pkg/z.py"),
        module("pkg.tests.t", "src/pkg/tests/t.py"),
        module("pkg", "src/pkg/__init__.py"),
    ];
    let mut diagnostics = Vec::new();
    let modules = order_modules(discovered, &ProjectConfig::empty(), &mut diagnostics);
    let names: Vec<&str> = modules.iter().map(|m| m.name.as_str()).collect();
    assert_eq!(names, vec!["pkg", "pkg.tests.t", "pkg.z"]);
    let ids: Vec<u32> = modules.iter().map(|m| m.id.0).collect();
    assert_eq!(ids, vec![0, 1, 2]);
    assert_eq!(modules[2].file.0, 2);
    assert_eq!(modules[1].origin_domain, OriginDomain::Test);
    assert_eq!(modules[0].origin_domain, OriginDomain::Production);
    assert!(diagnostics.is_empty());
}

#[test]
fn default_excluded_directories_are_not_walked() {
    assert!(is_default_excluded_dir(".venv"));
    assert!(is_default_excluded_dir("__pycache__"));
    assert!(!is_default_excluded_dir("pkg"));
    let none = Vec::new();
    assert!(!should_visit_entry("/repo", "/repo/src/.git", ".git", true, &none));
    assert!(should_visit_entry("/repo", "/repo/src/build.py", "build", false, &none));
    assert!(should_visit_entry("/repo", "/repo/src/pkg", "pkg", true, &none));
}

#[test]
fn exclude_globs_match_paths_relative_to_the_project() {
    let excludes = vec!["src/generated/**".to_owned(), "[".to_owned()];
    assert!(is_excluded(&excludes, "src/generated/a.py"));
    assert!(!is_excluded(&excludes, "src/pkg/a.py"));
    assert!(!should_visit_entry("/repo", "/repo/src/generated/a.py", "a.py", false, &excludes));
    assert!(should_visit_entry("/repo", "/repo/src/pkg/a.py", "a.py", false, &excludes));
    assert!(should_visit_entry("/repo", "/elsewhere/src/generated/a.py", "a.py", false, &excludes));
}

#[test]
fn walked_python_files_become_modules() {
    match module_for_entry("/repo", "/repo/src", "/repo/src/pkg/mod.py", true, false) {
        WalkedEntry::Module(m) => {
            assert_eq!(m.name, "pkg.mod");
            assert_eq!(m.display_path, "src/pkg/mod.py");
            assert_eq!(m.path, "/repo/src/pkg/mod.py");
        },
        _ => panic!("expected a module"),
    }
    assert!(matches!(module_for_entry("/repo", "/repo/src", "/repo/src/pkg/notes.txt", true, false), WalkedEntry::Skipped));
    assert!(matches!(module_for_entry("/repo", "/repo/src", "/repo/src/pkg/mod.py", true, true), WalkedEntry::Skipped));
    assert!(matches!(module_for_entry("/repo", "/repo/src", "/repo/src/pkg", false, false), WalkedEntry::Skipped));
    match module_for_entry("/repo", "/repo/src", "/repo/src/__init__.py", true, false) {
        WalkedEntry::Unnamed(d) => {
            assert_eq!(d.code, "CULL_P0004");
            assert_eq!(d.path, Some("src/__init__.py".to_owned()));
        },
        _ => panic!("expected a diagnostic"),
    }
}

#[test]
fn missing_source_roots_are_errors() {
    assert!(source_root_problem("/repo", "/repo/src", true, true).is_none());
    let missing = source_root_problem("/repo", "/repo/lib", false, false).unwrap();
    assert_eq!(missing.code, "CULL_P0001");
    assert_eq!(missing.message, "source root does not exist: /repo/lib");
    assert_eq!(missing.path, Some("lib".to_owned()));
    let file = source_root_problem("/repo", "/repo/setup.py", true, false).unwrap();
    assert_eq!(file.code, "CULL_P0002");
    assert_eq!(file.message, "source root is not a directory: /repo/setup.py");
}

#[test]
fn relative_paths_of_files_under_the_project() {
    assert_eq!(relative_slash_path("/repo", "/repo/src/pkg/a.py"), "src/pkg/a.py");
    assert_eq!(relative_slash_path("/repo", "/repo"), ".");
    assert_eq!(relative_slash_path("/repo", "/other/x.py"), "/other/x.py");
}

#[test]
fn unparsable_exclude_patterns_leave_the_others_in_force() {
    let excludes = vec!["a[".to_owned(), "**/gen_*.py".to_owned()];
    assert!(is_excluded(&excludes, "src/gen_api.py"));
    assert!(!is_excluded(&excludes, "src/api.py"));
    assert!(!is_excluded(&Vec::new(), "src/gen_api.py"));
}
