use cull::cycles::{circular_import_modules, circular_imports, import_graph};
use cull::ids::ModuleId;

fn graph(edges: &[(u32, &[u32])]) -> Vec<(ModuleId, Vec<ModuleId>)> {
    edges
        .iter()
        .map(|(from, to)| (ModuleId::new(*from), to.iter().map(|t| ModuleId::new(*t)).collect()))
        .collect()
}

fn circular(edges: &[(u32, &[u32])]) -> Vec<u32> {
    let mut out: Vec<u32> = circular_import_modules(&graph(edges)).iter().map(|m| m.0).collect();
    out.sort();
    out
}

#[test]
fn a_three_module_cycle_marks_its_members_only() {
    assert_eq!(circular(&[(1, &[2]), (2, &[3]), (3, &[1]), (4, &[1])]), vec![1, 2, 3]);
}

#[test]
fn a_module_importing_itself_is_circular() {
    assert_eq!(circular(&[(5, &[5]), (6, &[5])]), vec![5]);
}

#[test]
fn an_acyclic_graph_has_no_circular_module() {
    assert!(circular(&[(1, &[2, 3]), (2, &[3]), (3, &[])]).is_empty());
    assert!(circular(&[]).is_empty());
}

#[test]
fn two_cycles_sharing_a_module_mark_both() {
    assert_eq!(
        circular(&[(1, &[2]), (2, &[1, 3]), (3, &[4]), (4, &[2]), (7, &[8])]),
        vec![1, 2, 3, 4]
    );
}

#[test]
fn each_module_is_listed_once() {
    let found = circular_import_modules(&graph(&[(1, &[2]), (2, &[1]), (3, &[1, 2])]));
    let mut ids: Vec<u32> = found.iter().map(|m| m.0).collect();
    ids.sort();
    let mut unique = ids.clone();
    unique.dedup();
    assert_eq!(ids, unique);
}

fn pairs(p: &[(u32, u32)]) -> Vec<(ModuleId, ModuleId)> {
    p.iter().map(|(a, b)| (ModuleId::new(*a), ModuleId::new(*b))).collect()
}

#[test]
fn the_import_graph_is_sorted_and_deduplicated() {
    let graph = import_graph(&pairs(&[(3, 1), (1, 2), (3, 1), (1, 0), (2, 3)]));
    let shape: Vec<(u32, Vec<u32>)> = graph.iter().map(|(a, t)| (a.0, t.iter().map(|m| m.0).collect())).collect();
    assert_eq!(shape, vec![(1, vec![0, 2]), (2, vec![3]), (3, vec![1])]);
}

#[test]
fn circular_imports_of_pairs() {
    let mut found: Vec<u32> = circular_imports(&pairs(&[(1, 2), (2, 3), (3, 1), (4, 1), (5, 5)])).iter().map(|m| m.0).collect();
    found.sort();
    assert_eq!(found, vec![1, 2, 3, 5]);
    assert!(circular_imports(&pairs(&[(1, 2), (2, 3)])).is_empty());
}
