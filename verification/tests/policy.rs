use cull::config::RootSelector;
use cull::diagnostic::{Diagnostic, DiagnosticSeverity};
use cull::findings::apply_partial_analysis_policy;
use cull::ids::{ContextId, ModuleId, ReferenceId, ScopeId, SymbolId};
use cull::output::{FindingReferenceKind, ProjectCompleteness, SkippedFile};
use cull::report::finding_reference;
use cull::semantic::{
    LookupSemantics, OriginDomain, ReferenceBindingState, ReferenceFact, ReferencePhase,
    ReferenceRole, Resolution,
};
use cull::source::{PythonVersion, TextRange};

#[test]
fn python_versions_display_and_classify() {
    let v = PythonVersion { major: 3, minor: 12 };
    assert_eq!(v.to_display_string(), "3.12");
    assert!(v.is_candidate_semantic_version());
    assert!(!v.is_forward_canary());
    let canary = PythonVersion { major: 3, minor: 15 };
    assert!(canary.is_forward_canary());
    assert!(!canary.is_candidate_semantic_version());
    assert!(!PythonVersion { major: 3, minor: 9 }.is_candidate_semantic_version());
}

#[test]
fn module_roots_have_no_attributes() {
    let module = RootSelector { raw: "app.main".to_owned(), module: "app.main".to_owned(), attributes: vec![] };
    assert!(module.is_module_root());
    let object = RootSelector { raw: "app.main:run".to_owned(), module: "app.main".to_owned(), attributes: vec!["run".to_owned()] };
    assert!(!object.is_module_root());
}

#[test]
fn partial_analysis_downgrades_skipped_file_errors() {
    let skipped = vec![SkippedFile {
        path: "src/bad.py".to_owned(),
        reason: "syntax error".to_owned(),
        diagnostic_code: "CULL_P0200".to_owned(),
    }];
    let completeness = ProjectCompleteness::partial(skipped);
    let mut diagnostics = vec![
        Diagnostic::error("CULL_P0200", "cannot parse").with_path("src/bad.py".to_owned()),
        Diagnostic::error("CULL_P3001", "configured root `x` could not be resolved exactly"),
    ];
    apply_partial_analysis_policy(&mut diagnostics, &completeness, true);
    assert_eq!(diagnostics.len(), 3);
    assert_eq!(diagnostics[0].severity, DiagnosticSeverity::Warning);
    assert_eq!(diagnostics[1].severity, DiagnosticSeverity::Error);
    assert_eq!(diagnostics[2].code, "CULL_P0400");
    assert_eq!(
        diagnostics[2].message,
        "partial project analysis skipped 1 included source file(s); high-confidence findings are capped at Review"
    );

    let mut untouched = vec![Diagnostic::error("CULL_P0200", "cannot parse").with_path("src/bad.py".to_owned())];
    apply_partial_analysis_policy(&mut untouched, &completeness, false);
    assert_eq!(untouched.len(), 1);
    assert_eq!(untouched[0].severity, DiagnosticSeverity::Error);
    apply_partial_analysis_policy(&mut untouched, &ProjectCompleteness::complete(), true);
    assert_eq!(untouched.len(), 1);
}

#[test]
fn finding_references_need_a_known_file() {
    let reference = ReferenceFact {
        id: ReferenceId(0),
        module: ModuleId(1),
        source_scope: ScopeId(0),
        source_context: ContextId(0),
        source_spelling: "helper".to_owned(),
        semantic_name: "helper".to_owned(),
        lexical_target: Resolution::Resolved(SymbolId(2)),
        lookup: LookupSemantics::Direct,
        binding_state: ReferenceBindingState::NotApplicable,
        phase: ReferencePhase::BodyRuntime,
        role: ReferenceRole::Value,
        origin_domain: OriginDomain::Production,
        annotation_semantics: None,
        span: TextRange { start: 10, end: 16 },
    };
    assert!(finding_reference(&reference, "app.util", None).is_none());
    let found = finding_reference(&reference, "app.util", Some("src/app/util.py")).unwrap();
    assert_eq!(found.source_module, "app.util");
    assert_eq!(found.file, "src/app/util.py");
    assert_eq!(found.source, "helper");
    assert_eq!(found.range, TextRange { start: 10, end: 16 });
    assert_eq!(found.kind, FindingReferenceKind::SameModule);
}

#[test]
fn displayed_versions_parse_back() {
    for major in [0u8, 3, 10, 99, 255] {
        for minor in [0u8, 9, 12, 100, 255] {
            let v = PythonVersion { major, minor };
            assert_eq!(PythonVersion::parse(&v.to_display_string()), Ok(v));
        }
    }
    assert_eq!(PythonVersion::parse("py3.12"), Ok(PythonVersion::py312()));
    assert!(PythonVersion::parse("3").is_err());
}
