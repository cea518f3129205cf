//! How completely the production roots of a check cover the project.
use vstd::prelude::*;

use crate::config::RootCoverageAssertion;
use crate::diagnostic::{Diagnostic, DiagnosticSeverity};
use crate::output::{ProjectMode, ReachabilityDomain, RootCoverage, RootOutput};

verus! {

/// Some production root resolved to a definition or module.
pub open spec fn has_resolved_production(roots: Seq<RootOutput>) -> bool {
    exists|i: int| 0 <= i < roots.len() && (#[trigger] roots[i]).domain == ReachabilityDomain::Production && roots[i].resolved
}

/// Some declared production root did not resolve.
pub open spec fn has_unresolved_production(roots: Seq<RootOutput>) -> bool {
    exists|i: int| 0 <= i < roots.len() && (#[trigger] roots[i]).domain == ReachabilityDomain::Production && !roots[i].resolved
}

/// Whether the project's production roots are all known: a library has none to check; an
/// asserted complete set is accepted only when some root resolved, none failed and no script
/// entry point is computed at run time (otherwise it is partial, and the assertion is refused);
/// without that assertion, no root at all, with nothing failed or dynamic, is absent coverage,
/// anything else partial.
pub open spec fn coverage_of(
    mode: ProjectMode,
    assertion: Option<RootCoverageAssertion>,
    resolved: bool,
    unresolved: bool,
    dynamic_unavailable: bool,
) -> RootCoverage {
    if mode == ProjectMode::Library {
        RootCoverage::NotApplicable
    } else if assertion == Some(RootCoverageAssertion::Complete) {
        if !resolved || unresolved || dynamic_unavailable {
            RootCoverage::Partial
        } else {
            RootCoverage::Complete
        }
    } else if !resolved && !unresolved && !dynamic_unavailable {
        RootCoverage::Absent
    } else {
        RootCoverage::Partial
    }
}

/// The asserted complete root set could not be validated.
pub open spec fn complete_assertion_refused(
    mode: ProjectMode,
    assertion: Option<RootCoverageAssertion>,
    resolved: bool,
    unresolved: bool,
    dynamic_unavailable: bool,
) -> bool {
    mode != ProjectMode::Library && assertion == Some(RootCoverageAssertion::Complete) && (!resolved || unresolved
        || dynamic_unavailable)
}

/// Whether some root of the domain has the given resolution.
fn any_production_root(roots: &Vec<RootOutput>, resolved: bool) -> (yes: bool)
    ensures
        yes == (exists|i: int|
            0 <= i < roots@.len() && (#[trigger] roots@[i]).domain == ReachabilityDomain::Production
                && roots@[i].resolved == resolved),
{
    let mut i: usize = 0;
    while i < roots.len()
        invariant
            0 <= i <= roots@.len(),
            forall|j: int|
                0 <= j < i ==> !((#[trigger] roots@[j]).domain == ReachabilityDomain::Production && roots@[j].resolved
                    == resolved),
        decreases roots@.len() - i,
    {
        let production = match roots[i].domain {
            ReachabilityDomain::Production => true,
            _ => false,
        };
        if production && roots[i].resolved == resolved {
            return true;
        }
        i = i + 1;
    }
    false
}

/// The root coverage of a check. When a complete root set was asserted and cannot be
/// validated, an error diagnostic saying so is appended to `diagnostics`; nothing else is.
pub fn derive_root_coverage(
    mode: ProjectMode,
    assertion: Option<RootCoverageAssertion>,
    dynamic_scripts: bool,
    dynamic_gui_scripts: bool,
    roots: &Vec<RootOutput>,
    diagnostics: &mut Vec<Diagnostic>,
) -> (coverage: RootCoverage)
    ensures
        coverage == coverage_of(
            mode,
            assertion,
            has_resolved_production(roots@),
            has_unresolved_production(roots@),
            dynamic_scripts || dynamic_gui_scripts,
        ),
        complete_assertion_refused(
            mode,
            assertion,
            has_resolved_production(roots@),
            has_unresolved_production(roots@),
            dynamic_scripts || dynamic_gui_scripts,
        ) ==> {
            &&& final(diagnostics)@.len() == old(diagnostics)@.len() + 1
            &&& final(diagnostics)@.take(old(diagnostics)@.len() as int) == old(diagnostics)@
            &&& final(diagnostics)@.last().code@ == "CULL_P3002"@
            &&& final(diagnostics)@.last().severity == DiagnosticSeverity::Error
            &&& final(diagnostics)@.last().message@
                == "root_coverage = \"complete\" was asserted, but Cull could not validate a complete production root set"@
        },
        !complete_assertion_refused(
            mode,
            assertion,
            has_resolved_production(roots@),
            has_unresolved_production(roots@),
            dynamic_scripts || dynamic_gui_scripts,
        ) ==> final(diagnostics)@ == old(diagnostics)@,
{
    if mode == ProjectMode::Library {
        return RootCoverage::NotApplicable;
    }
    let unresolved_declared = any_production_root(roots, false);
    let dynamic_unavailable = dynamic_scripts || dynamic_gui_scripts;
    let resolved = any_production_root(roots, true);
    match assertion {
        Some(RootCoverageAssertion::Complete) => {
            if !resolved || unresolved_declared || dynamic_unavailable {
                let ghost before = diagnostics@;
                diagnostics.push(
                    Diagnostic::error(
                        "CULL_P3002",
                        "root_coverage = \"complete\" was asserted, but Cull could not validate a complete production root set",
                    ),
                );
                assert(diagnostics@.take(before.len() as int) =~= before);
                RootCoverage::Partial
            } else {
                RootCoverage::Complete
            }
        },
        _ => {
            if !resolved && !unresolved_declared && !dynamic_unavailable {
                RootCoverage::Absent
            } else {
                RootCoverage::Partial
            }
        },
    }
}

} // verus!
