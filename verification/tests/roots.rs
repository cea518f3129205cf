use cull::config::RootCoverageAssertion;
use cull::diagnostic::{Diagnostic, DiagnosticSeverity};
use cull::ids::RootId;
use cull::output::{
    ProjectMode, ReachabilityDomain, RootCoverage, RootInvocation, RootKind, RootOutput,
};
use cull::roots::derive_root_coverage;

fn root(domain: ReachabilityDomain, resolved: bool) -> RootOutput {
    RootOutput {
        id: RootId(0),
        kind: RootKind::ConfiguredModule,
        invocation: RootInvocation::ExecuteModule,
        domain,
        target: "app.main".to_owned(),
        module: Some("app.main".to_owned()),
        resolved,
        detail: String::new(),
    }
}

fn coverage(
    mode: ProjectMode,
    assertion: Option<RootCoverageAssertion>,
    dynamic: bool,
    roots: Vec<RootOutput>,
) -> (RootCoverage, Vec<Diagnostic>) {
    let mut diagnostics = Vec::new();
    let c = derive_root_coverage(mode, assertion, dynamic, false, &roots, &mut diagnostics);
    (c, diagnostics)
}

#[test]
fn libraries_have_no_root_coverage() {
    let (c, d) = coverage(ProjectMode::Library, Some(RootCoverageAssertion::Complete), false, vec![]);
    assert_eq!(c, RootCoverage::NotApplicable);
    assert!(d.is_empty());
}

#[test]
fn no_roots_is_absent_coverage() {
    let (c, d) = coverage(ProjectMode::Auto, None, false, vec![root(ReachabilityDomain::Test, true)]);
    assert_eq!(c, RootCoverage::Absent);
    assert!(d.is_empty());
    let (c, _) = coverage(ProjectMode::Application, Some(RootCoverageAssertion::Partial), false, vec![]);
    assert_eq!(c, RootCoverage::Absent);
}

#[test]
fn resolved_roots_without_assertion_are_partial() {
    let (c, d) = coverage(ProjectMode::Application, None, false, vec![root(ReachabilityDomain::Production, true)]);
    assert_eq!(c, RootCoverage::Partial);
    assert!(d.is_empty());
    let (c, _) = coverage(ProjectMode::Application, None, true, vec![]);
    assert_eq!(c, RootCoverage::Partial);
}

#[test]
fn asserted_complete_coverage_is_accepted_when_valid() {
    let (c, d) = coverage(
        ProjectMode::Application,
        Some(RootCoverageAssertion::Complete),
        false,
        vec![root(ReachabilityDomain::Production, true)],
    );
    assert_eq!(c, RootCoverage::Complete);
    assert!(d.is_empty());
}

#[test]
fn asserted_complete_coverage_is_refused_with_an_error() {
    let (c, d) = coverage(
        ProjectMode::Application,
        Some(RootCoverageAssertion::Complete),
        false,
        vec![
            root(ReachabilityDomain::Production, true),
            root(ReachabilityDomain::Production, false),
        ],
    );
    assert_eq!(c, RootCoverage::Partial);
    assert_eq!(d.len(), 1);
    assert_eq!(d[0].code, "CULL_P3002");
    assert_eq!(d[0].severity, DiagnosticSeverity::Error);
    assert_eq!(
        d[0].message,
        "root_coverage = \"complete\" was asserted, but Cull could not validate a complete production root set"
    );
    let (c, d) = coverage(ProjectMode::Auto, Some(RootCoverageAssertion::Complete), true, vec![root(ReachabilityDomain::Production, true)]);
    assert_eq!(c, RootCoverage::Partial);
    assert_eq!(d.len(), 1);
}
