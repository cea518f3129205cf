use cull::findings::Part2Uncertainty;
use cull::ids::{DefId, ModuleId};
use cull::module_namespace::LocalModuleResolution;
use cull::values::ValueSet;

fn module_ids(v: &ValueSet) -> Vec<u32> {
    let mut out: Vec<u32> = v.modules.iter().map(|m| m.0).collect();
    out.sort();
    out
}

#[test]
fn constructors_denote_one_thing() {
    let m = ValueSet::module(ModuleId::new(2));
    assert_eq!(module_ids(&m), vec![2]);
    assert!(!m.is_empty());
    let d = ValueSet::definition(DefId::new(5));
    assert_eq!(d.definitions.len(), 1);
    assert!(!d.external);
    let e = ValueSet::external(Part2Uncertainty::ExternalImport);
    assert!(e.external && !e.is_empty());
    assert_eq!(e.uncertainties, vec![Part2Uncertainty::ExternalImport]);
    assert!(ValueSet::importlib_module().importlib_module);
    assert!(ValueSet::importlib_import_module().importlib_import_module);
    assert!(ValueSet::empty().is_empty());
}

#[test]
fn union_reports_growth_only() {
    let mut v = ValueSet::module(ModuleId::new(1));
    assert!(v.union_with(ValueSet::module(ModuleId::new(2))));
    assert!(!v.union_with(ValueSet::module(ModuleId::new(1))));
    assert!(!v.union_with(ValueSet::empty()));
    assert_eq!(module_ids(&v), vec![1, 2]);
    assert!(v.union_with(ValueSet::importlib_module()));
    assert!(!v.union_with(ValueSet::importlib_module()));
    assert!(v.union_with(ValueSet::external(Part2Uncertainty::DynamicImport)));
    assert!(!v.union_with(ValueSet::external(Part2Uncertainty::DynamicImport)));
}

#[test]
fn uncertainty_alone_does_not_make_a_value() {
    let v = ValueSet::empty().with_uncertainty(Part2Uncertainty::ModuleGetattr);
    assert!(v.is_empty());
    let v = v.with_uncertainty(Part2Uncertainty::ModuleGetattr);
    assert_eq!(v.uncertainties, vec![Part2Uncertainty::ModuleGetattr]);
    let mut w = ValueSet::empty();
    assert!(w.union_with(v));
}

#[test]
fn import_binds_the_first_segment_unless_aliased() {
    assert_eq!(cull::values::import_target_name("pkg.sub.mod", false), "pkg");
    assert_eq!(cull::values::import_target_name("pkg.sub.mod", true), "pkg.sub.mod");
    assert_eq!(cull::values::import_target_name("single", false), "single");
    assert_eq!(cull::values::import_target_name("", false), "");
}

#[test]
fn import_values_follow_the_resolution() {
    let local = cull::values::import_value(&LocalModuleResolution::Module(ModuleId::new(4)), "pkg");
    assert_eq!(module_ids(&local), vec![4]);
    assert!(!local.external);
    let importlib = cull::values::import_value(&LocalModuleResolution::External, "importlib");
    assert!(importlib.external && importlib.importlib_module);
    let outside = cull::values::import_value(&LocalModuleResolution::External, "requests");
    assert!(outside.external && !outside.importlib_module);
    assert_eq!(outside.uncertainties, vec![Part2Uncertainty::ExternalImport]);
    let ns = cull::values::import_value(&LocalModuleResolution::Namespace("ns".to_owned()), "ns");
    assert!(ns.is_empty());
    assert_eq!(ns.uncertainties, vec![Part2Uncertainty::UnsupportedNamespace]);
    let bad = cull::values::import_value(&LocalModuleResolution::Unsupported("x".to_owned()), "x");
    assert_eq!(bad.uncertainties, vec![Part2Uncertainty::ImportResolution]);
}

#[test]
fn from_importlib_import_module_is_recognized() {
    let v = cull::values::import_from_value(0, Some("importlib"), "import_module", ValueSet::empty());
    assert!(v.importlib_import_module && v.external);
    let relative = cull::values::import_from_value(1, Some("importlib"), "import_module", ValueSet::module(ModuleId::new(1)));
    assert_eq!(module_ids(&relative), vec![1]);
    let other = cull::values::import_from_value(0, Some("os"), "path", ValueSet::empty());
    assert!(other.is_empty());
}
