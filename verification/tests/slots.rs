use cull::findings::Part2Uncertainty;
use cull::ids::{BindingId, DefId, ModuleId, ScopeId, SymbolId};
use cull::module_namespace::LocalModuleResolution;
use cull::output::FindingExportKind;
use cull::semantic::{BindingFact, BindingKind};
use cull::slots::{add_cross_references, record_binding_value, record_exports, split_parent, ExportRecord, ModuleSlots};
use cull::source::TextRange;
use std::collections::BTreeMap;
use cull::values::ValueSet;

fn names(v: &[(String, ValueSet)]) -> Vec<&str> {
    v.iter().map(|(n, _)| n.as_str()).collect()
}

#[test]
fn union_into_creates_and_grows_slots() {
    let mut slots = ModuleSlots::new();
    let m = ModuleId::new(1);
    assert!(slots.union_into(m, "api", ValueSet::definition(DefId::new(3))));
    assert!(!slots.union_into(m, "api", ValueSet::definition(DefId::new(3))));
    assert!(slots.union_into(m, "api", ValueSet::definition(DefId::new(4))));
    assert!(!slots.union_into(m, "empty", ValueSet::empty()));
    assert_eq!(slots.entries.len(), 2);
    let v = slots.value_of(m, "api");
    assert_eq!(v.definitions.len(), 2);
    assert!(slots.value_of(m, "missing").is_empty());
    assert!(slots.value_of(ModuleId::new(2), "api").is_empty());
}

#[test]
fn public_slots_are_sorted_and_skip_private_names() {
    let mut slots = ModuleSlots::new();
    let m = ModuleId::new(1);
    slots.union_into(m, "zeta", ValueSet::definition(DefId::new(1)));
    slots.union_into(m, "_hidden", ValueSet::definition(DefId::new(2)));
    slots.union_into(m, "alpha", ValueSet::definition(DefId::new(3)));
    slots.union_into(ModuleId::new(2), "beta", ValueSet::definition(DefId::new(4)));
    let public = slots.public_slots(m);
    assert_eq!(names(&public), vec!["alpha", "zeta"]);
    assert_eq!(public[0].1.definitions, vec![DefId::new(3)]);
}

#[test]
fn export_surface_prefers_all_when_given() {
    let mut slots = ModuleSlots::new();
    let m = ModuleId::new(1);
    slots.union_into(m, "zeta", ValueSet::definition(DefId::new(1)));
    slots.union_into(m, "_hidden", ValueSet::definition(DefId::new(2)));
    let all = vec!["_hidden".to_owned(), "ghost".to_owned()];
    let surface = slots.export_surface(m, Some(&all), false);
    assert_eq!(names(&surface), vec!["_hidden", "ghost"]);
    assert!(surface[1].1.is_empty());
    let merged = slots.export_surface(m, Some(&all), true);
    assert_eq!(names(&merged), vec!["_hidden", "ghost", "zeta"]);
    let fallback = slots.export_surface(m, Some(&vec![]), false);
    assert_eq!(names(&fallback), vec!["zeta"]);
    let unknown = slots.export_surface(m, None, false);
    assert_eq!(names(&unknown), vec!["zeta"]);
}

#[test]
fn submodules_become_package_attributes() {
    assert_eq!(split_parent("pkg.sub.mod"), Some(("pkg.sub".to_owned(), "mod".to_owned())));
    assert_eq!(split_parent("top"), None);
    let mut slots = ModuleSlots::new();
    assert!(slots.add_package_attribute(ModuleId::new(1), "sub", ModuleId::new(2)));
    assert!(!slots.add_package_attribute(ModuleId::new(1), "sub", ModuleId::new(2)));
    let v = slots.value_of(ModuleId::new(1), "sub");
    assert_eq!(v.modules, vec![ModuleId::new(2)]);
    assert!(v.uncertainties.contains(&Part2Uncertainty::PartialInitialization));
    assert!(v.uncertainties.contains(&Part2Uncertainty::NamespaceOrder));
}

#[test]
fn exports_are_recorded_once() {
    let mut exports: Vec<ExportRecord> = Vec::new();
    let mut cross: Vec<DefId> = Vec::new();
    let mut value = ValueSet::definition(DefId::new(5));
    value.union_with(ValueSet::definition(DefId::new(6)));
    assert!(record_exports(&mut exports, &mut cross, &value, "api", FindingExportKind::ExplicitAll, ModuleId::new(1)));
    assert_eq!(exports.len(), 2);
    assert_eq!(cross, vec![DefId::new(5), DefId::new(6)]);
    assert!(!record_exports(&mut exports, &mut cross, &value, "api", FindingExportKind::ExplicitAll, ModuleId::new(1)));
    assert!(record_exports(&mut exports, &mut cross, &value, "api", FindingExportKind::PackagePublicBinding, ModuleId::new(1)));
    assert_eq!(exports.len(), 4);
    assert_eq!(cross.len(), 4);
}

#[test]
fn from_imports_prefer_the_slot_then_the_submodule() {
    let mut slots = ModuleSlots::new();
    let pkg = ModuleId::new(1);
    slots.union_into(pkg, "api", ValueSet::definition(DefId::new(9)));
    let module = LocalModuleResolution::Module(pkg);
    let sub = LocalModuleResolution::Module(ModuleId::new(2));
    let (v, attr) = slots.import_from_target(Some(&module), "api", &sub);
    assert_eq!(v.definitions, vec![DefId::new(9)]);
    assert!(!attr);
    let (v, attr) = slots.import_from_target(Some(&module), "sub", &sub);
    assert_eq!(v.modules, vec![ModuleId::new(2)]);
    assert!(attr);
    let (v, _) = slots.import_from_target(Some(&module), "gone", &LocalModuleResolution::External);
    assert!(v.external);
    assert_eq!(v.uncertainties, vec![Part2Uncertainty::ExternalImport]);
    let ns = LocalModuleResolution::Namespace("ns".to_owned());
    let (v, attr) = slots.import_from_target(Some(&ns), "x", &LocalModuleResolution::External);
    assert!(v.is_empty() && !attr);
    assert_eq!(v.uncertainties, vec![Part2Uncertainty::UnsupportedNamespace]);
    let (v, _) = slots.import_from_target(None, "x", &sub);
    assert_eq!(v.uncertainties, vec![Part2Uncertainty::ImportResolution]);
}

#[test]
fn star_imports_bind_each_surface_name() {
    let mut slots = ModuleSlots::new();
    let source = ModuleId::new(1);
    let target = ModuleId::new(2);
    slots.union_into(source, "api", ValueSet::definition(DefId::new(1)));
    slots.union_into(source, "util", ValueSet::definition(DefId::new(2)));
    let surface = slots.public_slots(source);
    assert!(slots.star_import_into(target, &surface));
    assert!(!slots.star_import_into(target, &surface));
    assert_eq!(slots.value_of(target, "api").definitions, vec![DefId::new(1)]);
    assert_eq!(slots.value_of(target, "util").definitions, vec![DefId::new(2)]);
    assert!(!slots.star_import_into(target, &vec![]));
}

#[test]
fn cross_references_are_added_once() {
    let mut cross: Vec<DefId> = vec![DefId::new(1)];
    let mut value = ValueSet::definition(DefId::new(1));
    value.union_with(ValueSet::definition(DefId::new(2)));
    add_cross_references(&mut cross, &value);
    assert_eq!(cross, vec![DefId::new(1), DefId::new(2)]);
    add_cross_references(&mut cross, &value);
    assert_eq!(cross.len(), 2);
}

#[test]
fn module_level_bindings_also_fill_slots() {
    let mut bindings: BTreeMap<u32, ValueSet> = BTreeMap::new();
    let mut slots = ModuleSlots::new();
    let fact = BindingFact {
        id: BindingId(4),
        module: ModuleId(1),
        scope: ScopeId(0),
        symbol: SymbolId(0),
        kind: BindingKind::Import,
        name: "os".to_owned(),
        order: 0,
        range: TextRange { start: 0, end: 2 },
        name_range: TextRange { start: 0, end: 2 },
        definition: None,
        replaces: None,
    };
    let changed = record_binding_value(&mut bindings, &mut slots, BindingId(4), Some(&fact), Some(ScopeId(0)), ValueSet::module(ModuleId::new(9)));
    assert!(changed);
    assert_eq!(bindings[&4].modules, vec![ModuleId::new(9)]);
    assert_eq!(slots.value_of(ModuleId(1), "os").modules, vec![ModuleId::new(9)]);
    let again = record_binding_value(&mut bindings, &mut slots, BindingId(4), Some(&fact), Some(ScopeId(0)), ValueSet::module(ModuleId::new(9)));
    assert!(!again);
    let local = record_binding_value(&mut bindings, &mut slots, BindingId(5), Some(&fact), Some(ScopeId(3)), ValueSet::module(ModuleId::new(8)));
    assert!(local);
    assert_eq!(slots.entries.len(), 1);
}
