//! The roots a check starts from: configured roots, console and GUI scripts, `__main__`
//! guards, package `__main__` modules, test modules and the external surface, with the
//! modules each root runs, the definitions it uses and the errors of roots that do not
//! resolve.
use vstd::prelude::*;

use crate::diagnostic::{Diagnostic, DiagnosticSeverity};
use crate::findings::is_public_name;
use crate::ids::{DefId, ModuleId, RootId};
use crate::output::{ProjectMode, ReachabilityDomain, RootInvocation, RootKind, RootOutput};
use crate::semantic::OriginDomain;
use crate::text::str_ends_with;

verus! {

/// How a module reached from a root is run.
#[derive(Clone, Copy, Debug, PartialEq, Eq, Structural)]
pub enum ModuleExecutionMode {
    Imported,
    TopLevel,
}

/// A module to run in a reachability domain.
#[derive(Clone, Copy, Debug, PartialEq, Eq, Structural)]
pub struct ModuleMark {
    pub domain: ReachabilityDomain,
    pub module: ModuleId,
    pub mode: ModuleExecutionMode,
}

/// How a root uses a definition: it calls it, or something outside the project uses it.
#[derive(Clone, Copy, Debug, PartialEq, Eq, Structural)]
pub enum DefinitionUse {
    Callable,
    ExternalUse,
}

/// A definition used from a root in a reachability domain.
#[derive(Clone, Copy, Debug, PartialEq, Eq, Structural)]
pub struct Activation {
    pub domain: ReachabilityDomain,
    pub definition: DefId,
    pub usage: DefinitionUse,
}

/// A project module and its dotted name.
#[derive(Clone, Debug)]
pub struct ModuleRef {
    pub id: ModuleId,
    pub name: String,
}

/// A configured root and what it resolved to: for a module root, the module; for an object
/// root, the single definition it selects and that definition's module.
#[derive(Clone, Debug)]
pub struct ConfiguredRootFact {
    pub raw: String,
    pub module_root: bool,
    pub module: Option<ModuleRef>,
    pub definition: Option<DefId>,
}

/// A project script, and the definition its target selects with that definition's module.
#[derive(Clone, Debug)]
pub struct ScriptRootFact {
    pub name: String,
    pub raw: String,
    pub definition: Option<DefId>,
    pub module: Option<ModuleRef>,
}

/// A parsed module of the project.
#[derive(Clone, Debug)]
pub struct SeedModuleFact {
    pub module: ModuleRef,
    pub origin: OriginDomain,
    pub has_main_guard: bool,
    /// The module's reportable definitions, in graph order.
    pub reportable_definitions: Vec<DefId>,
}

/// A definition that may belong to the external surface.
#[derive(Clone, Debug)]
pub struct SurfaceCandidate {
    pub definition: DefId,
    pub reportable: bool,
    pub name: String,
    pub qualified_name: String,
    pub module: ModuleRef,
    /// A static export of the project names the definition.
    pub exported: bool,
}

/// What seeding the roots produced.
#[derive(Debug)]
pub struct RootSeeds {
    pub roots: Vec<RootOutput>,
    pub marks: Vec<ModuleMark>,
    pub activations: Vec<Activation>,
    pub diagnostics: Vec<Diagnostic>,
}

/// A root record, without its id.
pub struct RootPlan {
    pub kind: RootKind,
    pub invocation: RootInvocation,
    pub domain: ReachabilityDomain,
    pub target: Seq<char>,
    pub module: Option<Seq<char>>,
    pub resolved: bool,
    pub detail: Seq<char>,
}

/// Seeds as plain values: root records, marks, activations, and the codes and messages of
/// the error diagnostics.
#[verifier::ext_equal]
pub struct SeedPlan {
    pub roots: Seq<RootPlan>,
    pub marks: Seq<ModuleMark>,
    pub activations: Seq<Activation>,
    pub diagnostics: Seq<(Seq<char>, Seq<char>)>,
}

pub open spec fn opt_name(m: Option<String>) -> Option<Seq<char>> {
    match m {
        Some(s) => Some(s@),
        None => None,
    }
}

pub open spec fn plan_of(r: RootOutput) -> RootPlan {
    RootPlan {
        kind: r.kind,
        invocation: r.invocation,
        domain: r.domain,
        target: r.target@,
        module: opt_name(r.module),
        resolved: r.resolved,
        detail: r.detail@,
    }
}

/// Seeds are well formed: each root's id is its position (as a `u32`), and every diagnostic
/// is an error with no location.
pub open spec fn seeds_wf(s: RootSeeds) -> bool {
    &&& forall|k: int| 0 <= k < s.roots@.len() ==> (#[trigger] s.roots@[k]).id.0 == k as u32
    &&& forall|k: int|
        0 <= k < s.diagnostics@.len() ==> (#[trigger] s.diagnostics@[k]).severity == DiagnosticSeverity::Error
            && s.diagnostics@[k].path is None && s.diagnostics@[k].range is None
}

pub open spec fn seeds_view(s: RootSeeds) -> SeedPlan {
    SeedPlan {
        roots: s.roots@.map_values(|r: RootOutput| plan_of(r)),
        marks: s.marks@,
        activations: s.activations@,
        diagnostics: s.diagnostics@.map_values(|d: Diagnostic| (d.code@, d.message@)),
    }
}

pub open spec fn no_seeds() -> SeedPlan {
    SeedPlan { roots: Seq::empty(), marks: Seq::empty(), activations: Seq::empty(), diagnostics: Seq::empty() }
}

pub open spec fn plan_concat(a: SeedPlan, b: SeedPlan) -> SeedPlan {
    SeedPlan {
        roots: a.roots + b.roots,
        marks: a.marks + b.marks,
        activations: a.activations + b.activations,
        diagnostics: a.diagnostics + b.diagnostics,
    }
}

/// The seeds of a list of contributions, in order.
pub open spec fn plans_concat(ps: Seq<SeedPlan>) -> SeedPlan
    decreases ps.len(),
{
    if ps.len() == 0 {
        no_seeds()
    } else {
        plan_concat(plans_concat(ps.drop_last()), ps.last())
    }
}

proof fn lemma_plan_concat_assoc(a: SeedPlan, b: SeedPlan, c: SeedPlan)
    ensures
        plan_concat(plan_concat(a, b), c) == plan_concat(a, plan_concat(b, c)),
{
    assert(plan_concat(plan_concat(a, b), c) =~= plan_concat(a, plan_concat(b, c)));
}

proof fn lemma_plan_concat_empty(a: SeedPlan)
    ensures
        plan_concat(a, no_seeds()) == a,
{
    assert(plan_concat(a, no_seeds()) =~= a);
}

/// One root and nothing else.
pub open spec fn root_only(p: RootPlan) -> SeedPlan {
    SeedPlan { roots: seq![p], marks: Seq::empty(), activations: Seq::empty(), diagnostics: Seq::empty() }
}

/// One mark and nothing else.
pub open spec fn mark_only(m: ModuleMark) -> SeedPlan {
    SeedPlan { roots: Seq::empty(), marks: seq![m], activations: Seq::empty(), diagnostics: Seq::empty() }
}

/// One activation and nothing else.
pub open spec fn activation_only(a: Activation) -> SeedPlan {
    SeedPlan { roots: Seq::empty(), marks: Seq::empty(), activations: seq![a], diagnostics: Seq::empty() }
}

/// One error and nothing else.
pub open spec fn error_only(code: Seq<char>, message: Seq<char>) -> SeedPlan {
    SeedPlan { roots: Seq::empty(), marks: Seq::empty(), activations: Seq::empty(), diagnostics: seq![(code, message)] }
}

impl RootSeeds {
    /// No seeds yet.
    pub fn new() -> (s: Self)
        ensures
            seeds_wf(s),
            seeds_view(s) == no_seeds(),
    {
        let s = RootSeeds { roots: Vec::new(), marks: Vec::new(), activations: Vec::new(), diagnostics: Vec::new() };
        proof {
            assert(seeds_view(s) =~= no_seeds());
        }
        s
    }

    /// Appends a root whose id is its position.
    fn push_root(
        &mut self,
        kind: RootKind,
        invocation: RootInvocation,
        domain: ReachabilityDomain,
        target: String,
        module: Option<String>,
        resolved: bool,
        detail: &str,
    )
        requires
            seeds_wf(*old(self)),
        ensures
            seeds_wf(*final(self)),
            seeds_view(*final(self)) == plan_concat(
                seeds_view(*old(self)),
                root_only(
                    RootPlan {
                        kind,
                        invocation,
                        domain,
                        target: target@,
                        module: opt_name(module),
                        resolved,
                        detail: detail@,
                    },
                ),
            ),
    {
        let id = RootId::new(self.roots.len() as u32);
        let ghost before = self.roots@;
        let ghost p = RootPlan { kind, invocation, domain, target: target@, module: opt_name(module), resolved, detail: detail@ };
        self.roots.push(
            RootOutput { id, kind, invocation, domain, target, module, resolved, detail: detail.to_owned() },
        );
        proof {
            assert(self.roots@ == before.push(self.roots@.last()));
            assert(self.roots@.map_values(|r: RootOutput| plan_of(r)) =~= before.map_values(|r: RootOutput| plan_of(r)) + seq![p]);
            assert(seeds_view(*self) =~= plan_concat(seeds_view(*old(self)), root_only(p)));
        }
    }

    /// Appends a module mark.
    fn push_mark(&mut self, domain: ReachabilityDomain, module: ModuleId, mode: ModuleExecutionMode)
        requires
            seeds_wf(*old(self)),
        ensures
            seeds_wf(*final(self)),
            seeds_view(*final(self)) == plan_concat(seeds_view(*old(self)), mark_only(ModuleMark { domain, module, mode })),
    {
        self.marks.push(ModuleMark { domain, module, mode });
        proof {
            assert(seeds_view(*self) =~= plan_concat(seeds_view(*old(self)), mark_only(ModuleMark { domain, module, mode })));
        }
    }

    /// Appends an activation.
    fn push_activation(&mut self, domain: ReachabilityDomain, definition: DefId, usage: DefinitionUse)
        requires
            seeds_wf(*old(self)),
        ensures
            seeds_wf(*final(self)),
            seeds_view(*final(self)) == plan_concat(
                seeds_view(*old(self)),
                activation_only(Activation { domain, definition, usage }),
            ),
    {
        self.activations.push(Activation { domain, definition, usage });
        proof {
            assert(seeds_view(*self) =~= plan_concat(
                seeds_view(*old(self)),
                activation_only(Activation { domain, definition, usage }),
            ));
        }
    }

    /// Appends an error diagnostic with no location.
    fn push_error(&mut self, code: &str, message: &str)
        requires
            seeds_wf(*old(self)),
        ensures
            seeds_wf(*final(self)),
            seeds_view(*final(self)) == plan_concat(seeds_view(*old(self)), error_only(code@, message@)),
    {
        let ghost before = self.diagnostics@;
        self.diagnostics.push(Diagnostic::error(code, message));
        proof {
            assert(self.diagnostics@.map_values(|d: Diagnostic| (d.code@, d.message@)) =~= before.map_values(
                |d: Diagnostic| (d.code@, d.message@),
            ) + seq![(code@, message@)]);
            assert(seeds_view(*self) =~= plan_concat(seeds_view(*old(self)), error_only(code@, message@)));
        }
    }
}

pub open spec fn name_of(m: Option<ModuleRef>) -> Option<Seq<char>> {
    match m {
        Some(r) => Some(r.name@),
        None => None,
    }
}

/// The mark that imports a root's module, when the module is known.
pub open spec fn import_mark(domain: ReachabilityDomain, m: Option<ModuleRef>) -> SeedPlan {
    match m {
        Some(r) => mark_only(ModuleMark { domain, module: r.id, mode: ModuleExecutionMode::Imported }),
        None => no_seeds(),
    }
}

// ----- configured roots -----

/// What one configured root contributes: a module root that resolved runs its module as
/// top-level code; an object root that selected a definition uses it from outside (importing
/// its module when known); any other root is recorded unresolved, with an error.
pub open spec fn configured_plan(f: ConfiguredRootFact) -> SeedPlan {
    if f.module_root {
        match f.module {
            Some(m) => plan_concat(
                root_only(
                    RootPlan {
                        kind: RootKind::ConfiguredModule,
                        invocation: RootInvocation::ExecuteModule,
                        domain: ReachabilityDomain::Production,
                        target: f.raw@,
                        module: Some(m.name@),
                        resolved: true,
                        detail: "configured module root executes as top-level code"@,
                    },
                ),
                mark_only(ModuleMark { domain: ReachabilityDomain::Production, module: m.id, mode: ModuleExecutionMode::TopLevel }),
            ),
            None => unresolved_configured(f.raw@, RootKind::ConfiguredModule),
        }
    } else {
        match f.definition {
            Some(d) => plan_concat(
                plan_concat(
                    import_mark(ReachabilityDomain::Production, f.module),
                    root_only(
                        RootPlan {
                            kind: RootKind::ConfiguredObject,
                            invocation: RootInvocation::ExternalUse,
                            domain: ReachabilityDomain::Production,
                            target: f.raw@,
                            module: name_of(f.module),
                            resolved: true,
                            detail: "configured object root is treated as externally used"@,
                        },
                    ),
                ),
                activation_only(Activation { domain: ReachabilityDomain::Production, definition: d, usage: DefinitionUse::ExternalUse }),
            ),
            None => unresolved_configured(f.raw@, RootKind::ConfiguredObject),
        }
    }
}

/// An unresolved configured root and its error.
pub open spec fn unresolved_configured(raw: Seq<char>, kind: RootKind) -> SeedPlan {
    plan_concat(
        root_only(
            RootPlan {
                kind,
                invocation: RootInvocation::ExternalUse,
                domain: ReachabilityDomain::Production,
                target: raw,
                module: None,
                resolved: false,
                detail: "configured root could not be resolved exactly"@,
            },
        ),
        error_only("CULL_P3001"@, "configured root `"@ + raw + "` could not be resolved exactly"@),
    )
}

fn seed_unresolved_configured(seeds: &mut RootSeeds, raw: &String, kind: RootKind)
    requires
        seeds_wf(*old(seeds)),
    ensures
        seeds_wf(*final(seeds)),
        seeds_view(*final(seeds)) == plan_concat(seeds_view(*old(seeds)), unresolved_configured(raw@, kind)),
{
    let ghost start = seeds_view(*seeds);
    seeds.push_root(
        kind,
        RootInvocation::ExternalUse,
        ReachabilityDomain::Production,
        raw.clone(),
        None,
        false,
        "configured root could not be resolved exactly",
    );
    let mut message = <String as StringExecFns>::from_str("configured root `");
    message.append(raw.as_str());
    message.append("` could not be resolved exactly");
    seeds.push_error("CULL_P3001", message.as_str());
    proof {
        let r = root_only(
            RootPlan {
                kind,
                invocation: RootInvocation::ExternalUse,
                domain: ReachabilityDomain::Production,
                target: raw@,
                module: None,
                resolved: false,
                detail: "configured root could not be resolved exactly"@,
            },
        );
        lemma_plan_concat_assoc(start, r, error_only("CULL_P3001"@, message@));
    }
}

fn seed_configured_root(seeds: &mut RootSeeds, f: &ConfiguredRootFact)
    requires
        seeds_wf(*old(seeds)),
    ensures
        seeds_wf(*final(seeds)),
        seeds_view(*final(seeds)) == plan_concat(seeds_view(*old(seeds)), configured_plan(*f)),
{
    let ghost start = seeds_view(*seeds);
    if f.module_root {
        match &f.module {
            Some(m) => {
                seeds.push_root(
                    RootKind::ConfiguredModule,
                    RootInvocation::ExecuteModule,
                    ReachabilityDomain::Production,
                    f.raw.clone(),
                    Some(m.name.clone()),
                    true,
                    "configured module root executes as top-level code",
                );
                let ghost mid = seeds_view(*seeds);
                seeds.push_mark(ReachabilityDomain::Production, m.id, ModuleExecutionMode::TopLevel);
                proof {
                    lemma_plan_concat_assoc(
                        start,
                        root_only(
                            RootPlan {
                                kind: RootKind::ConfiguredModule,
                                invocation: RootInvocation::ExecuteModule,
                                domain: ReachabilityDomain::Production,
                                target: f.raw@,
                                module: Some(m.name@),
                                resolved: true,
                                detail: "configured module root executes as top-level code"@,
                            },
                        ),
                        mark_only(ModuleMark { domain: ReachabilityDomain::Production, module: m.id, mode: ModuleExecutionMode::TopLevel }),
                    );
                }
            },
            None => seed_unresolved_configured(seeds, &f.raw, RootKind::ConfiguredModule),
        }
    } else {
        match f.definition {
            Some(d) => {
                let marks = match &f.module {
                    Some(m) => {
                        seeds.push_mark(ReachabilityDomain::Production, m.id, ModuleExecutionMode::Imported);
                        Some(m.name.clone())
                    },
                    None => {
                        proof {
                            lemma_plan_concat_empty(start);
                        }
                        None
                    },
                };
                let ghost after_mark = seeds_view(*seeds);
                seeds.push_root(
                    RootKind::ConfiguredObject,
                    RootInvocation::ExternalUse,
                    ReachabilityDomain::Production,
                    f.raw.clone(),
                    marks,
                    true,
                    "configured object root is treated as externally used",
                );
                let ghost after_root = seeds_view(*seeds);
                seeds.push_activation(ReachabilityDomain::Production, d, DefinitionUse::ExternalUse);
                proof {
                    let mk = import_mark(ReachabilityDomain::Production, f.module);
                    let rt = root_only(
                        RootPlan {
                            kind: RootKind::ConfiguredObject,
                            invocation: RootInvocation::ExternalUse,
                            domain: ReachabilityDomain::Production,
                            target: f.raw@,
                            module: name_of(f.module),
                            resolved: true,
                            detail: "configured object root is treated as externally used"@,
                        },
                    );
                    let ac = activation_only(
                        Activation { domain: ReachabilityDomain::Production, definition: d, usage: DefinitionUse::ExternalUse },
                    );
                    assert(after_mark == plan_concat(start, mk));
                    lemma_plan_concat_assoc(start, mk, rt);
                    lemma_plan_concat_assoc(start, plan_concat(mk, rt), ac);
                }
            },
            None => seed_unresolved_configured(seeds, &f.raw, RootKind::ConfiguredObject),
        }
    }
}

/// Adding a contribution after the others.
proof fn lemma_plans_step(ps: Seq<SeedPlan>, p: SeedPlan)
    ensures
        plans_concat(ps.push(p)) == plan_concat(plans_concat(ps), p),
{
    assert(ps.push(p).drop_last() =~= ps);
}

// ----- scripts -----

/// What one script contributes: a resolved target imports its module when known and calls
/// its definition; otherwise the script is recorded unresolved. The target reads
/// `name=target`.
pub open spec fn script_plan(kind: RootKind, f: ScriptRootFact) -> SeedPlan {
    let target = f.name@ + "="@ + f.raw@;
    match f.definition {
        Some(d) => plan_concat(
            plan_concat(
                import_mark(ReachabilityDomain::Production, f.module),
                root_only(
                    RootPlan {
                        kind,
                        invocation: RootInvocation::Call,
                        domain: ReachabilityDomain::Production,
                        target,
                        module: name_of(f.module),
                        resolved: true,
                        detail: "project script wrapper imports and calls this target"@,
                    },
                ),
            ),
            activation_only(Activation { domain: ReachabilityDomain::Production, definition: d, usage: DefinitionUse::Callable }),
        ),
        None => root_only(
            RootPlan {
                kind,
                invocation: RootInvocation::Call,
                domain: ReachabilityDomain::Production,
                target,
                module: None,
                resolved: false,
                detail: "script target is valid metadata but not locally resolved"@,
            },
        ),
    }
}

fn seed_script_root(seeds: &mut RootSeeds, kind: RootKind, f: &ScriptRootFact)
    requires
        seeds_wf(*old(seeds)),
    ensures
        seeds_wf(*final(seeds)),
        seeds_view(*final(seeds)) == plan_concat(seeds_view(*old(seeds)), script_plan(kind, *f)),
{
    let ghost start = seeds_view(*seeds);
    let mut target = f.name.clone();
    target.append("=");
    target.append(f.raw.as_str());
    match f.definition {
        Some(d) => {
            let module_name = match &f.module {
                Some(m) => {
                    seeds.push_mark(ReachabilityDomain::Production, m.id, ModuleExecutionMode::Imported);
                    Some(m.name.clone())
                },
                None => {
                    proof {
                        lemma_plan_concat_empty(start);
                    }
                    None
                },
            };
            let ghost after_mark = seeds_view(*seeds);
            seeds.push_root(
                kind,
                RootInvocation::Call,
                ReachabilityDomain::Production,
                target,
                module_name,
                true,
                "project script wrapper imports and calls this target",
            );
            seeds.push_activation(ReachabilityDomain::Production, d, DefinitionUse::Callable);
            proof {
                let mk = import_mark(ReachabilityDomain::Production, f.module);
                let rt = root_only(
                    RootPlan {
                        kind,
                        invocation: RootInvocation::Call,
                        domain: ReachabilityDomain::Production,
                        target: f.name@ + "="@ + f.raw@,
                        module: name_of(f.module),
                        resolved: true,
                        detail: "project script wrapper imports and calls this target"@,
                    },
                );
                let ac = activation_only(
                    Activation { domain: ReachabilityDomain::Production, definition: d, usage: DefinitionUse::Callable },
                );
                assert(after_mark == plan_concat(start, mk));
                lemma_plan_concat_assoc(start, mk, rt);
                lemma_plan_concat_assoc(start, plan_concat(mk, rt), ac);
            }
        },
        None => {
            seeds.push_root(
                kind,
                RootInvocation::Call,
                ReachabilityDomain::Production,
                target,
                None,
                false,
                "script target is valid metadata but not locally resolved",
            );
        },
    }
}

// ----- module roots -----

/// The module name ends with `.__main__`.
pub open spec fn is_package_main_name(name: Seq<char>) -> bool {
    ".__main__"@.len() <= name.len() && name.subrange(name.len() - ".__main__"@.len(), name.len() as int) == ".__main__"@
}

/// A root that runs a whole module, and its mark.
pub open spec fn module_root_plan(
    kind: RootKind,
    domain: ReachabilityDomain,
    m: ModuleRef,
    detail: Seq<char>,
    mode: ModuleExecutionMode,
) -> SeedPlan {
    plan_concat(
        root_only(
            RootPlan {
                kind,
                invocation: RootInvocation::ExecuteModule,
                domain,
                target: m.name@,
                module: Some(m.name@),
                resolved: true,
                detail,
            },
        ),
        mark_only(ModuleMark { domain, module: m.id, mode }),
    )
}

/// A production module with a recognized `__main__` guard runs as top-level code.
pub open spec fn main_guard_plan(f: SeedModuleFact) -> SeedPlan {
    if f.origin == OriginDomain::Production && f.has_main_guard {
        module_root_plan(
            RootKind::MainGuard,
            ReachabilityDomain::Production,
            f.module,
            "module contains a recognized __main__ guard"@,
            ModuleExecutionMode::TopLevel,
        )
    } else {
        no_seeds()
    }
}

/// A production `__main__` module of a package runs as top-level code.
pub open spec fn package_main_plan(f: SeedModuleFact) -> SeedPlan {
    if f.origin == OriginDomain::Production && is_package_main_name(f.module.name@) {
        module_root_plan(
            RootKind::PackageMain,
            ReachabilityDomain::Production,
            f.module,
            "local __main__.py can be executed with python -m"@,
            ModuleExecutionMode::TopLevel,
        )
    } else {
        no_seeds()
    }
}

/// A test module is imported in the test domain, and each of its reportable definitions is
/// called there.
pub open spec fn test_plan(f: SeedModuleFact) -> SeedPlan {
    if f.origin == OriginDomain::Test {
        plan_concat(
            module_root_plan(
                RootKind::TestRoot,
                ReachabilityDomain::Test,
                f.module,
                "test-origin module is analyzed in the isolated test domain"@,
                ModuleExecutionMode::Imported,
            ),
            SeedPlan {
                roots: Seq::empty(),
                marks: Seq::empty(),
                activations: f.reportable_definitions@.map_values(
                    |d: DefId| Activation { domain: ReachabilityDomain::Test, definition: d, usage: DefinitionUse::Callable },
                ),
                diagnostics: Seq::empty(),
            },
        )
    } else {
        no_seeds()
    }
}

fn seed_module_root(
    seeds: &mut RootSeeds,
    kind: RootKind,
    domain: ReachabilityDomain,
    m: &ModuleRef,
    detail: &str,
    mode: ModuleExecutionMode,
)
    requires
        seeds_wf(*old(seeds)),
    ensures
        seeds_wf(*final(seeds)),
        seeds_view(*final(seeds)) == plan_concat(seeds_view(*old(seeds)), module_root_plan(kind, domain, *m, detail@, mode)),
{
    let ghost start = seeds_view(*seeds);
    seeds.push_root(kind, RootInvocation::ExecuteModule, domain, m.name.clone(), Some(m.name.clone()), true, detail);
    seeds.push_mark(domain, m.id, mode);
    proof {
        lemma_plan_concat_assoc(
            start,
            root_only(
                RootPlan {
                    kind,
                    invocation: RootInvocation::ExecuteModule,
                    domain,
                    target: m.name@,
                    module: Some(m.name@),
                    resolved: true,
                    detail: detail@,
                },
            ),
            mark_only(ModuleMark { domain, module: m.id, mode }),
        );
    }
}

fn seed_main_guard(seeds: &mut RootSeeds, f: &SeedModuleFact)
    requires
        seeds_wf(*old(seeds)),
    ensures
        seeds_wf(*final(seeds)),
        seeds_view(*final(seeds)) == plan_concat(seeds_view(*old(seeds)), main_guard_plan(*f)),
{
    let production = match f.origin {
        OriginDomain::Production => true,
        _ => false,
    };
    if production && f.has_main_guard {
        seed_module_root(
            seeds,
            RootKind::MainGuard,
            ReachabilityDomain::Production,
            &f.module,
            "module contains a recognized __main__ guard",
            ModuleExecutionMode::TopLevel,
        );
    } else {
        proof {
            lemma_plan_concat_empty(seeds_view(*seeds));
        }
    }
}

fn seed_package_main(seeds: &mut RootSeeds, f: &SeedModuleFact)
    requires
        seeds_wf(*old(seeds)),
    ensures
        seeds_wf(*final(seeds)),
        seeds_view(*final(seeds)) == plan_concat(seeds_view(*old(seeds)), package_main_plan(*f)),
{
    let production = match f.origin {
        OriginDomain::Production => true,
        _ => false,
    };
    if production && str_ends_with(f.module.name.as_str(), ".__main__") {
        seed_module_root(
            seeds,
            RootKind::PackageMain,
            ReachabilityDomain::Production,
            &f.module,
            "local __main__.py can be executed with python -m",
            ModuleExecutionMode::TopLevel,
        );
    } else {
        proof {
            lemma_plan_concat_empty(seeds_view(*seeds));
        }
    }
}

fn seed_test_module(seeds: &mut RootSeeds, f: &SeedModuleFact)
    requires
        seeds_wf(*old(seeds)),
    ensures
        seeds_wf(*final(seeds)),
        seeds_view(*final(seeds)) == plan_concat(seeds_view(*old(seeds)), test_plan(*f)),
{
    let test = match f.origin {
        OriginDomain::Test => true,
        _ => false,
    };
    if !test {
        proof {
            lemma_plan_concat_empty(seeds_view(*seeds));
        }
        return;
    }
    let ghost start = seeds_view(*seeds);
    seed_module_root(
        seeds,
        RootKind::TestRoot,
        ReachabilityDomain::Test,
        &f.module,
        "test-origin module is analyzed in the isolated test domain",
        ModuleExecutionMode::Imported,
    );
    let ghost mid = seeds_view(*seeds);
    let ghost defs = f.reportable_definitions@;
    let mut i: usize = 0;
    proof {
        assert(plan_concat(mid, SeedPlan {
            roots: Seq::empty(),
            marks: Seq::empty(),
            activations: defs.take(0).map_values(
                |d: DefId| Activation { domain: ReachabilityDomain::Test, definition: d, usage: DefinitionUse::Callable },
            ),
            diagnostics: Seq::empty(),
        }) =~= mid);
    }
    while i < f.reportable_definitions.len()
        invariant
            0 <= i <= defs.len(),
            defs == f.reportable_definitions@,
            seeds_wf(*seeds),
            seeds_view(*seeds) == plan_concat(
                mid,
                SeedPlan {
                    roots: Seq::empty(),
                    marks: Seq::empty(),
                    activations: defs.take(i as int).map_values(
                        |d: DefId| Activation { domain: ReachabilityDomain::Test, definition: d, usage: DefinitionUse::Callable },
                    ),
                    diagnostics: Seq::empty(),
                },
            ),
        decreases defs.len() - i,
    {
        seeds.push_activation(ReachabilityDomain::Test, f.reportable_definitions[i], DefinitionUse::Callable);
        proof {
            assert(defs.take(i + 1).map_values(
                |d: DefId| Activation { domain: ReachabilityDomain::Test, definition: d, usage: DefinitionUse::Callable },
            ) =~= defs.take(i as int).map_values(
                |d: DefId| Activation { domain: ReachabilityDomain::Test, definition: d, usage: DefinitionUse::Callable },
            ).push(Activation { domain: ReachabilityDomain::Test, definition: defs[i as int], usage: DefinitionUse::Callable }));
            assert(seeds_view(*seeds) =~= plan_concat(
                mid,
                SeedPlan {
                    roots: Seq::empty(),
                    marks: Seq::empty(),
                    activations: defs.take(i + 1).map_values(
                        |d: DefId| Activation { domain: ReachabilityDomain::Test, definition: d, usage: DefinitionUse::Callable },
                    ),
                    diagnostics: Seq::empty(),
                },
            ));
        }
        i = i + 1;
    }
    proof {
        assert(defs.take(defs.len() as int) =~= defs);
        let acts = SeedPlan {
            roots: Seq::empty(),
            marks: Seq::empty(),
            activations: defs.map_values(
                |d: DefId| Activation { domain: ReachabilityDomain::Test, definition: d, usage: DefinitionUse::Callable },
            ),
            diagnostics: Seq::empty(),
        };
        lemma_plan_concat_assoc(
            start,
            module_root_plan(
                RootKind::TestRoot,
                ReachabilityDomain::Test,
                f.module,
                "test-origin module is analyzed in the isolated test domain"@,
                ModuleExecutionMode::Imported,
            ),
            acts,
        );
    }
}

// ----- external surface -----

/// A definition is on the external surface when a static export names it, or, for a
/// library, when it is reportable and public; it is then used from outside and its module
/// imported.
pub open spec fn surface_plan(mode: ProjectMode, c: SurfaceCandidate) -> SeedPlan {
    if c.exported || (mode == ProjectMode::Library && c.reportable && !(c.name@.len() > 0 && c.name@[0] == '_')) {
        plan_concat(
            plan_concat(
                root_only(
                    RootPlan {
                        kind: RootKind::LibrarySurface,
                        invocation: RootInvocation::ExternalUse,
                        domain: ReachabilityDomain::ExternalSurface,
                        target: c.qualified_name@,
                        module: Some(c.module.name@),
                        resolved: true,
                        detail: "public or exported surface is externally reachable in this mode"@,
                    },
                ),
                mark_only(
                    ModuleMark { domain: ReachabilityDomain::ExternalSurface, module: c.module.id, mode: ModuleExecutionMode::Imported },
                ),
            ),
            activation_only(
                Activation { domain: ReachabilityDomain::ExternalSurface, definition: c.definition, usage: DefinitionUse::ExternalUse },
            ),
        )
    } else {
        no_seeds()
    }
}

fn seed_surface(seeds: &mut RootSeeds, mode: ProjectMode, c: &SurfaceCandidate)
    requires
        seeds_wf(*old(seeds)),
    ensures
        seeds_wf(*final(seeds)),
        seeds_view(*final(seeds)) == plan_concat(seeds_view(*old(seeds)), surface_plan(mode, *c)),
{
    let library = match mode {
        ProjectMode::Library => true,
        _ => false,
    };
    if c.exported || (library && c.reportable && is_public_name(c.name.as_str())) {
        let ghost start = seeds_view(*seeds);
        seeds.push_root(
            RootKind::LibrarySurface,
            RootInvocation::ExternalUse,
            ReachabilityDomain::ExternalSurface,
            c.qualified_name.clone(),
            Some(c.module.name.clone()),
            true,
            "public or exported surface is externally reachable in this mode",
        );
        let ghost a = seeds_view(*seeds);
        seeds.push_mark(ReachabilityDomain::ExternalSurface, c.module.id, ModuleExecutionMode::Imported);
        let ghost b = seeds_view(*seeds);
        seeds.push_activation(ReachabilityDomain::ExternalSurface, c.definition, DefinitionUse::ExternalUse);
        proof {
            let rt = root_only(
                RootPlan {
                    kind: RootKind::LibrarySurface,
                    invocation: RootInvocation::ExternalUse,
                    domain: ReachabilityDomain::ExternalSurface,
                    target: c.qualified_name@,
                    module: Some(c.module.name@),
                    resolved: true,
                    detail: "public or exported surface is externally reachable in this mode"@,
                },
            );
            let mk = mark_only(
                ModuleMark { domain: ReachabilityDomain::ExternalSurface, module: c.module.id, mode: ModuleExecutionMode::Imported },
            );
            let ac = activation_only(
                Activation { domain: ReachabilityDomain::ExternalSurface, definition: c.definition, usage: DefinitionUse::ExternalUse },
            );
            lemma_plan_concat_assoc(start, rt, mk);
            lemma_plan_concat_assoc(start, plan_concat(rt, mk), ac);
        }
    } else {
        proof {
            lemma_plan_concat_empty(seeds_view(*seeds));
        }
    }
}


/// Seeds every configured root, in order.
pub fn seed_configured_roots(seeds: &mut RootSeeds, items: &Vec<ConfiguredRootFact>)
    requires
        seeds_wf(*old(seeds)),
    ensures
        seeds_wf(*final(seeds)),
        seeds_view(*final(seeds)) == plan_concat(
            seeds_view(*old(seeds)),
            plans_concat(items@.map_values(|x: ConfiguredRootFact| configured_plan(x))),
        ),
{
    let ghost start = seeds_view(*seeds);
    proof {
        assert(items@.take(0).map_values(|x: ConfiguredRootFact| configured_plan(x)) =~= Seq::<SeedPlan>::empty());
        lemma_plan_concat_empty(start);
    }
    let mut i: usize = 0;
    while i < items.len()
        invariant
            0 <= i <= items@.len(),
            seeds_wf(*seeds),
            seeds_view(*seeds) == plan_concat(start, plans_concat(items@.take(i as int).map_values(|x: ConfiguredRootFact| configured_plan(x)))),
        decreases items@.len() - i,
    {
        let ghost done = items@.take(i as int).map_values(|x: ConfiguredRootFact| configured_plan(x));
        seed_configured_root(seeds, &items[i]);
        proof {
            let x = items@[i as int];
            assert(items@.take(i + 1).map_values(|x: ConfiguredRootFact| configured_plan(x)) =~= done.push(configured_plan(x)));
            lemma_plans_step(done, configured_plan(x));
            lemma_plan_concat_assoc(start, plans_concat(done), configured_plan(x));
        }
        i = i + 1;
    }
    proof {
        assert(items@.take(items@.len() as int) =~= items@);
    }
}

/// Seeds every script of one kind, in order.
pub fn seed_script_roots(seeds: &mut RootSeeds, kind: RootKind, items: &Vec<ScriptRootFact>)
    requires
        seeds_wf(*old(seeds)),
    ensures
        seeds_wf(*final(seeds)),
        seeds_view(*final(seeds)) == plan_concat(
            seeds_view(*old(seeds)),
            plans_concat(items@.map_values(|x: ScriptRootFact| script_plan(kind, x))),
        ),
{
    let ghost start = seeds_view(*seeds);
    proof {
        assert(items@.take(0).map_values(|x: ScriptRootFact| script_plan(kind, x)) =~= Seq::<SeedPlan>::empty());
        lemma_plan_concat_empty(start);
    }
    let mut i: usize = 0;
    while i < items.len()
        invariant
            0 <= i <= items@.len(),
            seeds_wf(*seeds),
            seeds_view(*seeds) == plan_concat(start, plans_concat(items@.take(i as int).map_values(|x: ScriptRootFact| script_plan(kind, x)))),
        decreases items@.len() - i,
    {
        let ghost done = items@.take(i as int).map_values(|x: ScriptRootFact| script_plan(kind, x));
        seed_script_root(seeds, kind, &items[i]);
        proof {
            let x = items@[i as int];
            assert(items@.take(i + 1).map_values(|x: ScriptRootFact| script_plan(kind, x)) =~= done.push(script_plan(kind, x)));
            lemma_plans_step(done, script_plan(kind, x));
            lemma_plan_concat_assoc(start, plans_concat(done), script_plan(kind, x));
        }
        i = i + 1;
    }
    proof {
        assert(items@.take(items@.len() as int) =~= items@);
    }
}

/// Seeds the production modules with a `__main__` guard, in order.
pub fn seed_main_guard_roots(seeds: &mut RootSeeds, items: &Vec<SeedModuleFact>)
    requires
        seeds_wf(*old(seeds)),
    ensures
        seeds_wf(*final(seeds)),
        seeds_view(*final(seeds)) == plan_concat(
            seeds_view(*old(seeds)),
            plans_concat(items@.map_values(|x: SeedModuleFact| main_guard_plan(x))),
        ),
{
    let ghost start = seeds_view(*seeds);
    proof {
        assert(items@.take(0).map_values(|x: SeedModuleFact| main_guard_plan(x)) =~= Seq::<SeedPlan>::empty());
        lemma_plan_concat_empty(start);
    }
    let mut i: usize = 0;
    while i < items.len()
        invariant
            0 <= i <= items@.len(),
            seeds_wf(*seeds),
            seeds_view(*seeds) == plan_concat(start, plans_concat(items@.take(i as int).map_values(|x: SeedModuleFact| main_guard_plan(x)))),
        decreases items@.len() - i,
    {
        let ghost done = items@.take(i as int).map_values(|x: SeedModuleFact| main_guard_plan(x));
        seed_main_guard(seeds, &items[i]);
        proof {
            let x = items@[i as int];
            assert(items@.take(i + 1).map_values(|x: SeedModuleFact| main_guard_plan(x)) =~= done.push(main_guard_plan(x)));
            lemma_plans_step(done, main_guard_plan(x));
            lemma_plan_concat_assoc(start, plans_concat(done), main_guard_plan(x));
        }
        i = i + 1;
    }
    proof {
        assert(items@.take(items@.len() as int) =~= items@);
    }
}

/// Seeds the production `__main__` modules of packages, in order.
pub fn seed_package_main_roots(seeds: &mut RootSeeds, items: &Vec<SeedModuleFact>)
    requires
        seeds_wf(*old(seeds)),
    ensures
        seeds_wf(*final(seeds)),
        seeds_view(*final(seeds)) == plan_concat(
            seeds_view(*old(seeds)),
            plans_concat(items@.map_values(|x: SeedModuleFact| package_main_plan(x))),
        ),
{
    let ghost start = seeds_view(*seeds);
    proof {
        assert(items@.take(0).map_values(|x: SeedModuleFact| package_main_plan(x)) =~= Seq::<SeedPlan>::empty());
        lemma_plan_concat_empty(start);
    }
    let mut i: usize = 0;
    while i < items.len()
        invariant
            0 <= i <= items@.len(),
            seeds_wf(*seeds),
            seeds_view(*seeds) == plan_concat(start, plans_concat(items@.take(i as int).map_values(|x: SeedModuleFact| package_main_plan(x)))),
        decreases items@.len() - i,
    {
        let ghost done = items@.take(i as int).map_values(|x: SeedModuleFact| package_main_plan(x));
        seed_package_main(seeds, &items[i]);
        proof {
            let x = items@[i as int];
            assert(items@.take(i + 1).map_values(|x: SeedModuleFact| package_main_plan(x)) =~= done.push(package_main_plan(x)));
            lemma_plans_step(done, package_main_plan(x));
            lemma_plan_concat_assoc(start, plans_concat(done), package_main_plan(x));
        }
        i = i + 1;
    }
    proof {
        assert(items@.take(items@.len() as int) =~= items@);
    }
}

/// Seeds the test modules and their reportable definitions, in order.
pub fn seed_test_roots(seeds: &mut RootSeeds, items: &Vec<SeedModuleFact>)
    requires
        seeds_wf(*old(seeds)),
    ensures
        seeds_wf(*final(seeds)),
        seeds_view(*final(seeds)) == plan_concat(
            seeds_view(*old(seeds)),
            plans_concat(items@.map_values(|x: SeedModuleFact| test_plan(x))),
        ),
{
    let ghost start = seeds_view(*seeds);
    proof {
        assert(items@.take(0).map_values(|x: SeedModuleFact| test_plan(x)) =~= Seq::<SeedPlan>::empty());
        lemma_plan_concat_empty(start);
    }
    let mut i: usize = 0;
    while i < items.len()
        invariant
            0 <= i <= items@.len(),
            seeds_wf(*seeds),
            seeds_view(*seeds) == plan_concat(start, plans_concat(items@.take(i as int).map_values(|x: SeedModuleFact| test_plan(x)))),
        decreases items@.len() - i,
    {
        let ghost done = items@.take(i as int).map_values(|x: SeedModuleFact| test_plan(x));
        seed_test_module(seeds, &items[i]);
        proof {
            let x = items@[i as int];
            assert(items@.take(i + 1).map_values(|x: SeedModuleFact| test_plan(x)) =~= done.push(test_plan(x)));
            lemma_plans_step(done, test_plan(x));
            lemma_plan_concat_assoc(start, plans_concat(done), test_plan(x));
        }
        i = i + 1;
    }
    proof {
        assert(items@.take(items@.len() as int) =~= items@);
    }
}

/// Seeds the external surface, in the order of the candidates.
pub fn seed_external_surface_roots(seeds: &mut RootSeeds, mode: ProjectMode, items: &Vec<SurfaceCandidate>)
    requires
        seeds_wf(*old(seeds)),
    ensures
        seeds_wf(*final(seeds)),
        seeds_view(*final(seeds)) == plan_concat(
            seeds_view(*old(seeds)),
            plans_concat(items@.map_values(|x: SurfaceCandidate| surface_plan(mode, x))),
        ),
{
    let ghost start = seeds_view(*seeds);
    proof {
        assert(items@.take(0).map_values(|x: SurfaceCandidate| surface_plan(mode, x)) =~= Seq::<SeedPlan>::empty());
        lemma_plan_concat_empty(start);
    }
    let mut i: usize = 0;
    while i < items.len()
        invariant
            0 <= i <= items@.len(),
            seeds_wf(*seeds),
            seeds_view(*seeds) == plan_concat(start, plans_concat(items@.take(i as int).map_values(|x: SurfaceCandidate| surface_plan(mode, x)))),
        decreases items@.len() - i,
    {
        let ghost done = items@.take(i as int).map_values(|x: SurfaceCandidate| surface_plan(mode, x));
        seed_surface(seeds, mode, &items[i]);
        proof {
            let x = items@[i as int];
            assert(items@.take(i + 1).map_values(|x: SurfaceCandidate| surface_plan(mode, x)) =~= done.push(surface_plan(mode, x)));
            lemma_plans_step(done, surface_plan(mode, x));
            lemma_plan_concat_assoc(start, plans_concat(done), surface_plan(mode, x));
        }
        i = i + 1;
    }
    proof {
        assert(items@.take(items@.len() as int) =~= items@);
    }
}

/// Every seed of a check, in the order the roots are considered: configured roots, console
/// scripts, GUI scripts, `__main__` guards, package `__main__` modules, test modules and, but
/// for an application, the external surface.
pub open spec fn all_seeds(
    mode: ProjectMode,
    configured: Seq<ConfiguredRootFact>,
    scripts: Seq<ScriptRootFact>,
    gui_scripts: Seq<ScriptRootFact>,
    modules: Seq<SeedModuleFact>,
    surface: Seq<SurfaceCandidate>,
) -> SeedPlan {
    let base = plan_concat(
        plan_concat(
            plan_concat(
                plan_concat(
                    plan_concat(
                        plans_concat(configured.map_values(|x: ConfiguredRootFact| configured_plan(x))),
                        plans_concat(scripts.map_values(|x: ScriptRootFact| script_plan(RootKind::ConsoleScript, x))),
                    ),
                    plans_concat(gui_scripts.map_values(|x: ScriptRootFact| script_plan(RootKind::GuiScript, x))),
                ),
                plans_concat(modules.map_values(|x: SeedModuleFact| main_guard_plan(x))),
            ),
            plans_concat(modules.map_values(|x: SeedModuleFact| package_main_plan(x))),
        ),
        plans_concat(modules.map_values(|x: SeedModuleFact| test_plan(x))),
    );
    if mode == ProjectMode::Application {
        base
    } else {
        plan_concat(base, plans_concat(surface.map_values(|x: SurfaceCandidate| surface_plan(mode, x))))
    }
}

/// Seeds the roots of a check. Each root's id is its position.
pub fn seed_roots(
    mode: ProjectMode,
    configured: &Vec<ConfiguredRootFact>,
    scripts: &Vec<ScriptRootFact>,
    gui_scripts: &Vec<ScriptRootFact>,
    modules: &Vec<SeedModuleFact>,
    surface: &Vec<SurfaceCandidate>,
) -> (seeds: RootSeeds)
    ensures
        seeds_wf(seeds),
        seeds_view(seeds) == all_seeds(mode, configured@, scripts@, gui_scripts@, modules@, surface@),
{
    let mut seeds = RootSeeds::new();
    seed_configured_roots(&mut seeds, configured);
    seed_script_roots(&mut seeds, RootKind::ConsoleScript, scripts);
    seed_script_roots(&mut seeds, RootKind::GuiScript, gui_scripts);
    seed_main_guard_roots(&mut seeds, modules);
    seed_package_main_roots(&mut seeds, modules);
    seed_test_roots(&mut seeds, modules);
    proof {
        assert(plan_concat(no_seeds(), plans_concat(configured@.map_values(|x: ConfiguredRootFact| configured_plan(x))))
            =~= plans_concat(configured@.map_values(|x: ConfiguredRootFact| configured_plan(x))));
    }
    let application = match mode {
        ProjectMode::Application => true,
        _ => false,
    };
    if !application {
        seed_external_surface_roots(&mut seeds, mode, surface);
    }
    seeds
}

} // verus!
