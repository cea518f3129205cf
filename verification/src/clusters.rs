//! Dead clusters: groups of unreachable definitions that only reach one another. A reportable
//! definition is in a dead cluster when its group, taken without edge direction, holds another
//! reportable definition or a reportable definition that reaches itself.
use vstd::prelude::*;

use std::collections::BTreeMap;

use crate::definition_effects::{list_of, push_to_list};
use crate::findings::{
    definition_surface, effectively_reachable, is_effectively_reachable, surface_of,
    ReachabilityAnalysis,
};
use crate::output::ProjectMode;
use crate::semantic::{DefinitionRole, SemanticDefinition};

verus! {

/// Definition `a` reaches definition `b` in one step of the reachability graph.
pub open spec fn has_edge(r: ReachabilityAnalysis, a: int, b: int) -> bool {
    list_of(r.graph_edges@, a as u32).contains(b as u32)
}

/// Definition `i` is not effectively reachable and is no overload declaration.
pub open spec fn cluster_node(defs: Seq<SemanticDefinition>, r: ReachabilityAnalysis, mode: ProjectMode, i: int) -> bool {
    &&& 0 <= i < defs.len()
    &&& !effectively_reachable(
        defs[i],
        r,
        mode,
        surface_of(defs[i].name@, r.external_values@.contains(defs[i].id.0)),
    )
    &&& defs[i].role != DefinitionRole::OverloadDeclaration
}

/// Two cluster nodes joined by an edge in either direction.
pub open spec fn linked(defs: Seq<SemanticDefinition>, r: ReachabilityAnalysis, mode: ProjectMode, a: int, b: int) -> bool {
    &&& cluster_node(defs, r, mode, a)
    &&& cluster_node(defs, r, mode, b)
    &&& (has_edge(r, a, b) || has_edge(r, b, a))
}

/// A cluster node with an edge to itself.
pub open spec fn self_linked(defs: Seq<SemanticDefinition>, r: ReachabilityAnalysis, mode: ProjectMode, i: int) -> bool {
    cluster_node(defs, r, mode, i) && has_edge(r, i, i)
}

/// `s` contains every node linked to one of its members.
pub open spec fn link_closed(defs: Seq<SemanticDefinition>, r: ReachabilityAnalysis, mode: ProjectMode, s: Set<int>) -> bool {
    forall|a: int, b: int| #[trigger] s.contains(a) && #[trigger] linked(defs, r, mode, a, b) ==> s.contains(b)
}

/// `b` lies in every link-closed set that holds `a`: the two are joined by a chain of links.
pub open spec fn same_cluster(defs: Seq<SemanticDefinition>, r: ReachabilityAnalysis, mode: ProjectMode, a: int, b: int) -> bool {
    forall|s: Set<int>| #[trigger] link_closed(defs, r, mode, s) && s.contains(a) ==> s.contains(b)
}

/// A reportable cluster node whose cluster holds another reportable definition, or a reportable
/// definition with an edge to itself.
pub open spec fn in_dead_cluster(defs: Seq<SemanticDefinition>, r: ReachabilityAnalysis, mode: ProjectMode, i: int) -> bool {
    &&& cluster_node(defs, r, mode, i)
    &&& defs[i].reportable
    &&& ((exists|j: int|
        #![trigger same_cluster(defs, r, mode, i, j)]
        j != i && 0 <= j < defs.len() && defs[j].reportable && same_cluster(defs, r, mode, i, j))
        || (exists|j: int|
        #![trigger same_cluster(defs, r, mode, i, j)]
        0 <= j < defs.len() && defs[j].reportable && same_cluster(defs, r, mode, i, j)
            && self_linked(defs, r, mode, j)))
}

pub proof fn lemma_same_cluster_reflexive(defs: Seq<SemanticDefinition>, r: ReachabilityAnalysis, mode: ProjectMode, a: int)
    ensures
        same_cluster(defs, r, mode, a, a),
{
}

pub proof fn lemma_same_cluster_transitive(
    defs: Seq<SemanticDefinition>,
    r: ReachabilityAnalysis,
    mode: ProjectMode,
    a: int,
    b: int,
    c: int,
)
    requires
        same_cluster(defs, r, mode, a, b),
        same_cluster(defs, r, mode, b, c),
    ensures
        same_cluster(defs, r, mode, a, c),
{
    assert forall|s: Set<int>| #[trigger] link_closed(defs, r, mode, s) && s.contains(a) implies s.contains(c) by {
        assert(s.contains(b));
    }
}

pub proof fn lemma_same_cluster_symmetric(defs: Seq<SemanticDefinition>, r: ReachabilityAnalysis, mode: ProjectMode, a: int, b: int)
    requires
        same_cluster(defs, r, mode, a, b),
    ensures
        same_cluster(defs, r, mode, b, a),
{
    assert forall|s: Set<int>| #[trigger] link_closed(defs, r, mode, s) && s.contains(b) implies s.contains(a) by {
        if !s.contains(a) {
            let outside = Set::new(|x: int| !s.contains(x));
            assert forall|x: int, y: int| #[trigger] outside.contains(x) && #[trigger] linked(defs, r, mode, x, y) implies outside.contains(y) by {
                if s.contains(y) {
                    assert(linked(defs, r, mode, y, x));
                }
            }
            assert(link_closed(defs, r, mode, outside));
            assert(outside.contains(a));
            assert(outside.contains(b));
        }
    }
}

/// Members of a link-closed set keep their cluster inside it.
pub proof fn lemma_closed_holds_cluster(
    defs: Seq<SemanticDefinition>,
    r: ReachabilityAnalysis,
    mode: ProjectMode,
    s: Set<int>,
    a: int,
    b: int,
)
    requires
        link_closed(defs, r, mode, s),
        s.contains(a),
        same_cluster(defs, r, mode, a, b),
    ensures
        s.contains(b),
{
}

/// Nodes that share a link share a cluster.
pub proof fn lemma_linked_same_cluster(
    defs: Seq<SemanticDefinition>,
    r: ReachabilityAnalysis,
    mode: ProjectMode,
    a: int,
    b: int,
)
    requires
        linked(defs, r, mode, a, b),
    ensures
        same_cluster(defs, r, mode, a, b),
{
    assert forall|s: Set<int>| #[trigger] link_closed(defs, r, mode, s) && s.contains(a) implies s.contains(b) by {
        assert(s.contains(a) && linked(defs, r, mode, a, b));
    }
}

fn is_cluster_node(definition: &SemanticDefinition, reachability: &ReachabilityAnalysis, mode: ProjectMode) -> (yes: bool)
    ensures
        yes == (!effectively_reachable(
            *definition,
            *reachability,
            mode,
            surface_of(definition.name@, reachability.external_values@.contains(definition.id.0)),
        ) && definition.role != DefinitionRole::OverloadDeclaration),
{
    let surface = definition_surface(definition, reachability.external_values.contains(&definition.id.0));
    !is_effectively_reachable(definition, reachability, mode, surface)
        && definition.role != DefinitionRole::OverloadDeclaration
}

/// The cluster-node flag of every definition.
fn cluster_nodes(defs: &Vec<SemanticDefinition>, reachability: &ReachabilityAnalysis, mode: ProjectMode) -> (node: Vec<bool>)
    ensures
        node@.len() == defs@.len(),
        forall|i: int| 0 <= i < defs@.len() ==> (#[trigger] node@[i] <==> cluster_node(defs@, *reachability, mode, i)),
{
    let mut node: Vec<bool> = Vec::new();
    let mut i: usize = 0;
    while i < defs.len()
        invariant
            0 <= i <= defs@.len(),
            node@.len() == i,
            forall|k: int| 0 <= k < i ==> (#[trigger] node@[k] <==> cluster_node(defs@, *reachability, mode, k)),
        decreases defs@.len() - i,
    {
        node.push(is_cluster_node(&defs[i], reachability, mode));
        i = i + 1;
    }
    node
}

/// The adjacency lists hold exactly the links between cluster nodes.
pub open spec fn adjacency_exact(
    defs: Seq<SemanticDefinition>,
    r: ReachabilityAnalysis,
    mode: ProjectMode,
    adj: Map<u32, Vec<u32>>,
) -> bool {
    &&& forall|k: u32, x: u32| #[trigger] list_of(adj, k).contains(x) ==> linked(defs, r, mode, k as int, x as int)
    &&& forall|a: int, b: int|
        0 <= a < defs.len() && 0 <= b < defs.len() && #[trigger] linked(defs, r, mode, a, b)
            ==> list_of(adj, a as u32).contains(b as u32)
}

/// Undirected adjacency lists between cluster nodes, and which nodes have a self edge.
fn link_lists(
    defs: &Vec<SemanticDefinition>,
    node: &Vec<bool>,
    reachability: &ReachabilityAnalysis,
    mode: ProjectMode,
) -> (out: (BTreeMap<u32, Vec<u32>>, Vec<bool>))
    requires
        node@.len() == defs@.len(),
        defs@.len() <= u32::MAX + 1,
        forall|i: int| 0 <= i < defs@.len() ==> (#[trigger] node@[i] <==> cluster_node(defs@, *reachability, mode, i)),
    ensures
        adjacency_exact(defs@, *reachability, mode, out.0@),
        out.1@.len() == defs@.len(),
        forall|i: int| 0 <= i < defs@.len() ==> (#[trigger] out.1@[i] <==> self_linked(defs@, *reachability, mode, i)),
{
    let ghost ds = defs@;
    let ghost r = *reachability;
    let n = defs.len();
    let mut adj: BTreeMap<u32, Vec<u32>> = BTreeMap::new();
    let mut self_edge: Vec<bool> = Vec::new();
    let mut k: usize = 0;
    while k < n
        invariant
            0 <= k <= n,
            self_edge@.len() == k,
            forall|i: int| 0 <= i < k ==> !(#[trigger] self_edge@[i]),
        decreases n - k,
    {
        self_edge.push(false);
        k = k + 1;
    }
    proof {
        assert forall|k: u32, x: u32| #[trigger] list_of(adj@, k).contains(x) implies linked(ds, r, mode, k as int, x as int) by {
            assert(!adj@.contains_key(k));
        }
    }
    let mut s: usize = 0;
    while s < n
        invariant
            n == ds.len(),
            ds == defs@,
            r == *reachability,
            n <= u32::MAX + 1,
            node@.len() == n,
            forall|i: int| 0 <= i < n ==> (#[trigger] node@[i] <==> cluster_node(ds, r, mode, i)),
            0 <= s <= n,
            self_edge@.len() == n,
            forall|i: int| 0 <= i < n ==> (#[trigger] self_edge@[i] <==> (i < s && self_linked(ds, r, mode, i))),
            forall|k: u32, x: u32| #[trigger] list_of(adj@, k).contains(x) ==> linked(ds, r, mode, k as int, x as int),
            forall|a: int, b: int|
                0 <= a < s && 0 <= b < n && #[trigger] linked(ds, r, mode, a, b) && has_edge(r, a, b)
                    ==> list_of(adj@, a as u32).contains(b as u32) && list_of(adj@, b as u32).contains(a as u32),
        decreases n - s,
    {
        if node[s] {
            match reachability.graph_edges.get(&(s as u32)) {
                Some(targets) => {
                    let ghost targets_view = targets@;
                    proof {
                        assert(targets_view == list_of(r.graph_edges@, s as u32));
                    }
                    let mut j: usize = 0;
                    while j < targets.len()
                        invariant
                            n == ds.len(),
                            ds == defs@,
                            r == *reachability,
                            n <= u32::MAX + 1,
                            node@.len() == n,
                            forall|i: int| 0 <= i < n ==> (#[trigger] node@[i] <==> cluster_node(ds, r, mode, i)),
                            0 <= s < n,
                            node@[s as int],
                            targets@ == targets_view,
                            targets_view == list_of(r.graph_edges@, s as u32),
                            0 <= j <= targets@.len(),
                            self_edge@.len() == n,
                            forall|i: int| 0 <= i < n ==> (#[trigger] self_edge@[i] <==> ((i < s && self_linked(ds, r, mode, i))
                                || (i == s && targets_view.take(j as int).contains(s as u32)))),
                            forall|k: u32, x: u32| #[trigger] list_of(adj@, k).contains(x) ==> linked(ds, r, mode, k as int, x as int),
                            forall|a: int, b: int|
                                0 <= a < s && 0 <= b < n && #[trigger] linked(ds, r, mode, a, b) && has_edge(r, a, b)
                                    ==> list_of(adj@, a as u32).contains(b as u32) && list_of(adj@, b as u32).contains(a as u32),
                            forall|b: int|
                                0 <= b < n && #[trigger] node@[b] && targets_view.take(j as int).contains(b as u32)
                                    ==> list_of(adj@, s as u32).contains(b as u32) && list_of(adj@, b as u32).contains(s as u32),
                        decreases targets@.len() - j,
                    {
                        let t = targets[j];
                        let ghost adj0 = adj@;
                        let ghost take0 = targets_view.take(j as int);
                        let ghost take1 = targets_view.take(j as int + 1);
                        proof {
                            assert(targets_view.take(j as int + 1) =~= take0.push(t));
                            assert(take1[j as int] == t);
                        }
                        if (t as usize) < n && node[t as usize] {
                            proof {
                                assert(targets_view.contains(t));
                                assert(has_edge(r, s as int, t as int));
                                assert(linked(ds, r, mode, s as int, t as int));
                                assert(linked(ds, r, mode, t as int, s as int));
                            }
                            push_to_list(&mut adj, s as u32, t);
                            push_to_list(&mut adj, t, s as u32);
                            proof {
                                assert forall|k: u32, x: u32| #[trigger] list_of(adj@, k).contains(x) implies linked(ds, r, mode, k as int, x as int) by {
                                    if !list_of(adj0, k).contains(x) {
                                        if k == s as u32 && x == t {
                                        } else if k == t && x == s as u32 {
                                        } else {
                                            if k == s as u32 || k == t {
                                                let i = choose|i: int| 0 <= i < list_of(adj@, k).len() && list_of(adj@, k)[i] == x;
                                                if k == s as u32 && k == t {
                                                    assert(x == s as u32);
                                                } else if k == s as u32 {
                                                    assert(list_of(adj@, k) == list_of(adj0, k).push(t));
                                                    if i < list_of(adj0, k).len() {
                                                        assert(list_of(adj0, k)[i] == x);
                                                    }
                                                } else {
                                                    assert(list_of(adj@, k) == list_of(adj0, k).push(s as u32));
                                                    if i < list_of(adj0, k).len() {
                                                        assert(list_of(adj0, k)[i] == x);
                                                    }
                                                }
                                            }
                                        }
                                    }
                                }
                                assert forall|a: int, b: int|
                                    0 <= a < s && 0 <= b < n && #[trigger] linked(ds, r, mode, a, b) && has_edge(r, a, b)
                                        implies list_of(adj@, a as u32).contains(b as u32) && list_of(adj@, b as u32).contains(a as u32) by {
                                    assert(list_of(adj0, a as u32).contains(b as u32));
                                    assert(list_of(adj0, b as u32).contains(a as u32));
                                    lemma_push_keeps(adj0, adj@, s as u32, t, a as u32, b as u32);
                                    lemma_push_keeps(adj0, adj@, s as u32, t, b as u32, a as u32);
                                }
                                assert forall|b: int|
                                    0 <= b < n && #[trigger] node@[b] && targets_view.take(j as int + 1).contains(b as u32)
                                        implies list_of(adj@, s as u32).contains(b as u32) && list_of(adj@, b as u32).contains(s as u32) by {
                                    if b as u32 == t {
                                        lemma_push_has(adj0, adj@, s as u32, t);
                                    } else {
                                        let i = choose|i: int| 0 <= i < take1.len() && take1[i] == b as u32;
                                        assert(take0[i] == b as u32);
                                        assert(take0.contains(b as u32));
                                        lemma_push_keeps(adj0, adj@, s as u32, t, s as u32, b as u32);
                                        lemma_push_keeps(adj0, adj@, s as u32, t, b as u32, s as u32);
                                    }
                                }
                            }
                            if t as usize == s {
                                self_edge.set(s, true);
                            }
                        } else {
                            proof {
                                assert forall|b: int|
                                    0 <= b < n && #[trigger] node@[b] && targets_view.take(j as int + 1).contains(b as u32)
                                        implies list_of(adj@, s as u32).contains(b as u32) && list_of(adj@, b as u32).contains(s as u32) by {
                                    let i = choose|i: int| 0 <= i < take1.len() && take1[i] == b as u32;
                                    if i < j {
                                        assert(take0[i] == b as u32);
                                    } else {
                                        assert(b as u32 == t);
                                        assert(b == t as int);
                                    }
                                }
                            }
                        }
                        proof {
                            assert forall|i: int| 0 <= i < n implies (#[trigger] self_edge@[i] <==> ((i < s && self_linked(ds, r, mode, i))
                                || (i == s && targets_view.take(j as int + 1).contains(s as u32)))) by {
                                if i == s {
                                    if take0.contains(s as u32) {
                                        let q = choose|q: int| 0 <= q < take0.len() && take0[q] == s as u32;
                                        assert(targets_view.take(j as int + 1)[q] == s as u32);
                                    }
                                    if targets_view.take(j as int + 1).contains(s as u32) && !take0.contains(s as u32) {
                                        let q = choose|q: int| 0 <= q < take1.len() && take1[q] == s as u32;
                                        if q < j {
                                            assert(take0[q] == s as u32);
                                        }
                                        assert(t == s as u32);
                                    }
                                }
                            }
                        }
                        j = j + 1;
                    }
                    proof {
                        assert(targets_view.take(targets_view.len() as int) =~= targets_view);
                        assert(self_linked(ds, r, mode, s as int) == targets_view.contains(s as u32));
                        assert forall|a: int, b: int|
                            0 <= a < s + 1 && 0 <= b < n && #[trigger] linked(ds, r, mode, a, b) && has_edge(r, a, b)
                                implies list_of(adj@, a as u32).contains(b as u32) && list_of(adj@, b as u32).contains(a as u32) by {
                            if a == s {
                                assert(node@[b]);
                                assert(targets_view.contains(b as u32));
                            }
                        }
                    }
                },
                None => {
                    proof {
                        assert(list_of(r.graph_edges@, s as u32) =~= Seq::<u32>::empty());
                        assert(!has_edge(r, s as int, s as int));
                        assert forall|a: int, b: int|
                            0 <= a < s + 1 && 0 <= b < n && #[trigger] linked(ds, r, mode, a, b) && has_edge(r, a, b)
                                implies list_of(adj@, a as u32).contains(b as u32) && list_of(adj@, b as u32).contains(a as u32) by {
                            if a == s {
                                assert(!list_of(r.graph_edges@, s as u32).contains(b as u32));
                            }
                        }
                    }
                },
            }
        } else {
            proof {
                assert(!self_linked(ds, r, mode, s as int));
            }
        }
        s = s + 1;
    }
    proof {
        assert forall|a: int, b: int|
            0 <= a < ds.len() && 0 <= b < ds.len() && #[trigger] linked(ds, r, mode, a, b)
                implies list_of(adj@, a as u32).contains(b as u32) by {
            if has_edge(r, a, b) {
            } else {
                assert(linked(ds, r, mode, b, a) && has_edge(r, b, a));
            }
        }
    }
    (adj, self_edge)
}

/// A value already in a list stays there after two appends.
proof fn lemma_push_keeps(before: Map<u32, Vec<u32>>, after: Map<u32, Vec<u32>>, s: u32, t: u32, k: u32, x: u32)
    requires
        list_of(before, k).contains(x),
        forall|key: u32| key != s && key != t ==> list_of(after, key) == list_of(before, key),
        s == t ==> list_of(after, s) == list_of(before, s).push(t).push(s),
        s != t ==> list_of(after, s) == list_of(before, s).push(t),
        s != t ==> list_of(after, t) == list_of(before, t).push(s),
    ensures
        list_of(after, k).contains(x),
{
    let i = choose|i: int| 0 <= i < list_of(before, k).len() && list_of(before, k)[i] == x;
    if k == s || k == t {
        assert(list_of(after, k)[i] == x);
    }
}

proof fn lemma_push_has(before: Map<u32, Vec<u32>>, after: Map<u32, Vec<u32>>, s: u32, t: u32)
    requires
        s == t ==> list_of(after, s) == list_of(before, s).push(t).push(s),
        s != t ==> list_of(after, s) == list_of(before, s).push(t),
        s != t ==> list_of(after, t) == list_of(before, t).push(s),
    ensures
        list_of(after, s).contains(t),
        list_of(after, t).contains(s),
{
    if s == t {
        assert(list_of(after, s)[list_of(before, s).len() as int] == t);
    } else {
        assert(list_of(after, s)[list_of(before, s).len() as int] == t);
        assert(list_of(after, t)[list_of(before, t).len() as int] == s);
    }
}

/// How many entries of `s` equal `x`.
pub open spec fn count_value(s: Seq<usize>, x: usize) -> nat
    decreases s.len(),
{
    if s.len() == 0 {
        0
    } else {
        count_value(s.drop_last(), x) + if s.last() == x {
            1nat
        } else {
            0nat
        }
    }
}

proof fn lemma_count_value_update(s: Seq<usize>, i: int, x: usize, y: usize)
    requires
        0 <= i < s.len(),
        s[i] == x,
        y != x,
    ensures
        count_value(s.update(i, y), x) + 1 == count_value(s, x),
    decreases s.len(),
{
    let t = s.update(i, y);
    if i == s.len() - 1 {
        assert(t.drop_last() =~= s.drop_last());
    } else {
        assert(t.drop_last() =~= s.drop_last().update(i, y));
        lemma_count_value_update(s.drop_last(), i, x, y);
    }
}

/// The labelling invariant: labelled entries are cluster nodes joined to their label, and a
/// link never leaves a finished label.
pub open spec fn labels_sound(
    defs: Seq<SemanticDefinition>,
    r: ReachabilityAnalysis,
    mode: ProjectMode,
    label: Seq<usize>,
) -> bool {
    let n = defs.len();
    &&& label.len() == n
    &&& forall|v: int| 0 <= v < n && #[trigger] label[v] != n ==> label[v] < n && cluster_node(defs, r, mode, v)
        && same_cluster(defs, r, mode, label[v] as int, v)
}

/// Labels each cluster node with the first node of its cluster.
fn label_clusters(
    defs: &Vec<SemanticDefinition>,
    node: &Vec<bool>,
    adj: &BTreeMap<u32, Vec<u32>>,
    reachability: &ReachabilityAnalysis,
    mode: ProjectMode,
) -> (label: Vec<usize>)
    requires
        node@.len() == defs@.len(),
        defs@.len() <= u32::MAX + 1,
        forall|i: int| 0 <= i < defs@.len() ==> (#[trigger] node@[i] <==> cluster_node(defs@, *reachability, mode, i)),
        adjacency_exact(defs@, *reachability, mode, adj@),
    ensures
        labels_sound(defs@, *reachability, mode, label@),
        forall|v: int| 0 <= v < defs@.len() ==> (cluster_node(defs@, *reachability, mode, v) <==> #[trigger] label@[v] != defs@.len()),
        forall|v: int, w: int|
            0 <= v < defs@.len() && #[trigger] linked(defs@, *reachability, mode, v, w) ==> label@[w] == label@[v],
{
    let ghost ds = defs@;
    let ghost r = *reachability;
    let n = defs.len();
    let mut label: Vec<usize> = Vec::new();
    let mut k: usize = 0;
    while k < n
        invariant
            0 <= k <= n,
            label@.len() == k,
            forall|i: int| 0 <= i < k ==> #[trigger] label@[i] == n,
        decreases n - k,
    {
        label.push(n);
        k = k + 1;
    }
    let mut st: usize = 0;
    while st < n
        invariant
            n == ds.len(),
            ds == defs@,
            r == *reachability,
            n <= u32::MAX + 1,
            node@.len() == n,
            forall|i: int| 0 <= i < n ==> (#[trigger] node@[i] <==> cluster_node(ds, r, mode, i)),
            adjacency_exact(ds, r, mode, adj@),
            0 <= st <= n,
            labels_sound(ds, r, mode, label@),
            forall|v: int| 0 <= v < n && #[trigger] label@[v] != n ==> label@[v] < st,
            forall|v: int, w: int| 0 <= v < n && label@[v] != n && #[trigger] linked(ds, r, mode, v, w) ==> label@[w] == label@[v],
            forall|v: int| 0 <= v < st && #[trigger] node@[v] ==> label@[v] != n,
        decreases n - st,
    {
        if node[st] && label[st] == n {
            proof {
                lemma_count_value_update(label@, st as int, n, st);
                lemma_same_cluster_reflexive(ds, r, mode, st as int);
            }
            let ghost label_before = label@;
            label.set(st, st);
            let mut stack: Vec<usize> = Vec::new();
            stack.push(st);
            proof {
                assert(stack@[0] == st);
                assert forall|v: int, w: int|
                    0 <= v < n && label@[v] == st && !stack@.contains(v as usize) && #[trigger] linked(ds, r, mode, v, w)
                        implies label@[w] == st by {
                    if v != st as int {
                        assert(label_before[v] == label@[v]);
                    }
                }
            }
            while stack.len() > 0
                invariant
                    n == ds.len(),
                    ds == defs@,
                    r == *reachability,
                    n <= u32::MAX + 1,
                    node@.len() == n,
                    forall|i: int| 0 <= i < n ==> (#[trigger] node@[i] <==> cluster_node(ds, r, mode, i)),
                    adjacency_exact(ds, r, mode, adj@),
                    0 <= st < n,
                    labels_sound(ds, r, mode, label@),
                    label@[st as int] == st,
                    forall|v: int| 0 <= v < n && #[trigger] label@[v] != n ==> label@[v] <= st,
                    forall|v: int, w: int|
                        0 <= v < n && label@[v] != n && label@[v] != st && #[trigger] linked(ds, r, mode, v, w)
                            ==> label@[w] == label@[v],
                    forall|v: int, w: int|
                        0 <= v < n && label@[v] == st && !stack@.contains(v as usize) && #[trigger] linked(ds, r, mode, v, w)
                            ==> label@[w] == st,
                    forall|q: int| 0 <= q < stack@.len() ==> (#[trigger] stack@[q]) < n && label@[stack@[q] as int] == st,
                    forall|v: int| 0 <= v < st && #[trigger] node@[v] ==> label@[v] != n,
                decreases 2 * count_value(label@, n) + stack@.len(),
            {
                let ghost measure = 2 * count_value(label@, n) + stack@.len();
                let ghost stack0 = stack@;
                let c = stack.pop().unwrap();
                proof {
                    assert(stack0 =~= stack@.push(c));
                    assert(stack0[stack0.len() - 1] == c);
                }
                match adj.get(&(c as u32)) {
                    Some(list) => {
                        let ghost lv = list@;
                        proof {
                            assert(lv == list_of(adj@, c as u32));
                            assert forall|q: int| 0 <= q < lv.len() implies (#[trigger] lv[q] as int) < n by {
                                assert(lv.contains(lv[q]));
                                assert(linked(ds, r, mode, c as int, lv[q] as int));
                            }
                        }
                        let mut j: usize = 0;
                        while j < list.len()
                            invariant
                                n == ds.len(),
                                ds == defs@,
                                r == *reachability,
                                n <= u32::MAX + 1,
                                node@.len() == n,
                                forall|i: int| 0 <= i < n ==> (#[trigger] node@[i] <==> cluster_node(ds, r, mode, i)),
                                adjacency_exact(ds, r, mode, adj@),
                                0 <= st < n,
                                c < n,
                                label@[c as int] == st,
                                list@ == lv,
                                lv == list_of(adj@, c as u32),
                                0 <= j <= lv.len(),
                                labels_sound(ds, r, mode, label@),
                                label@[st as int] == st,
                                forall|v: int| 0 <= v < n && #[trigger] label@[v] != n ==> label@[v] <= st,
                                forall|v: int, w: int|
                                    0 <= v < n && label@[v] != n && label@[v] != st && #[trigger] linked(ds, r, mode, v, w)
                                        ==> label@[w] == label@[v],
                                forall|v: int, w: int|
                                    0 <= v < n && label@[v] == st && v != c && !stack@.contains(v as usize) && #[trigger] linked(ds, r, mode, v, w)
                                        ==> label@[w] == st,
                                forall|q: int| 0 <= q < lv.len() ==> (#[trigger] lv[q] as int) < n,
                                forall|q: int| 0 <= q < j ==> label@[(#[trigger] lv[q]) as int] == st,
                                forall|q: int| 0 <= q < stack@.len() ==> (#[trigger] stack@[q]) < n && label@[stack@[q] as int] == st,
                                forall|v: int| 0 <= v < st && #[trigger] node@[v] ==> label@[v] != n,
                                2 * count_value(label@, n) + stack@.len() + 1 <= measure,
                            decreases lv.len() - j,
                        {
                            let w = list[j];
                            proof {
                                assert(lv.contains(w));
                                assert(linked(ds, r, mode, c as int, w as int));
                            }
                            let wi = w as usize;
                            if label[wi] == n {
                                let ghost label0 = label@;
                                proof {
                                    lemma_count_value_update(label@, wi as int, n, st);
                                    lemma_linked_same_cluster(ds, r, mode, c as int, wi as int);
                                    lemma_same_cluster_transitive(ds, r, mode, st as int, c as int, wi as int);
                                }
                                label.set(wi, st);
                                let ghost stack_prev = stack@;
                                stack.push(wi);
                                proof {
                                    assert forall|v: int, x: int|
                                        0 <= v < n && label@[v] != n && label@[v] != st && #[trigger] linked(ds, r, mode, v, x)
                                            implies label@[x] == label@[v] by {
                                        assert(label0[v] == label@[v]);
                                        if x == wi as int {
                                            assert(label0[x] == label0[v]);
                                        }
                                    }
                                    assert forall|v: int, x: int|
                                        0 <= v < n && label@[v] == st && v != c && !stack@.contains(v as usize) && #[trigger] linked(ds, r, mode, v, x)
                                            implies label@[x] == st by {
                                        if v == wi as int {
                                            assert(stack@[stack@.len() - 1] == wi);
                                        } else {
                                            assert(label0[v] == st);
                                            if stack_prev.contains(v as usize) {
                                                let q = choose|q: int| 0 <= q < stack_prev.len() && stack_prev[q] == v as usize;
                                                assert(stack@[q] == v as usize);
                                            }
                                        }
                                    }
                                }
                            } else {
                                proof {
                                    assert(linked(ds, r, mode, wi as int, c as int));
                                    assert(label@[wi as int] == st);
                                }
                            }
                            proof {
                                assert(lv[j as int] == w);
                                assert(label@[lv[j as int] as int] == st);
                            }
                            j = j + 1;
                        }
                        proof {
                            assert forall|v: int, x: int|
                                0 <= v < n && label@[v] == st && !stack@.contains(v as usize) && #[trigger] linked(ds, r, mode, v, x)
                                    implies label@[x] == st by {
                                if v == c as int {
                                    assert(list_of(adj@, c as u32).contains(x as u32));
                                    let q = choose|q: int| 0 <= q < lv.len() && lv[q] == x as u32;
                                    assert(label@[lv[q] as int] == st);
                                }
                            }
                        }
                    },
                    None => {
                        proof {
                            assert forall|v: int, x: int|
                                0 <= v < n && label@[v] == st && !stack@.contains(v as usize) && #[trigger] linked(ds, r, mode, v, x)
                                    implies label@[x] == st by {
                                if v == c as int {
                                    assert(list_of(adj@, c as u32).contains(x as u32));
                                    assert(false);
                                } else {
                                    if stack0.contains(v as usize) {
                                        let q = choose|q: int| 0 <= q < stack0.len() && stack0[q] == v as usize;
                                        assert(stack@[q] == v as usize);
                                    }
                                }
                            }
                        }
                    },
                }
            }
            proof {
                assert forall|v: int, w: int| 0 <= v < n && label@[v] != n && #[trigger] linked(ds, r, mode, v, w)
                    implies label@[w] == label@[v] by {
                    if label@[v] == st {
                        assert(!stack@.contains(v as usize));
                    }
                }
            }
        }
        st = st + 1;
    }
    proof {
        assert forall|v: int| 0 <= v < n implies (cluster_node(ds, r, mode, v) <==> #[trigger] label@[v] != n) by {
            assert(node@[v] == cluster_node(ds, r, mode, v));
        }
        assert forall|v: int, w: int| 0 <= v < n && #[trigger] linked(ds, r, mode, v, w) implies label@[w] == label@[v] by {
            assert(node@[v]);
        }
    }
    label
}

/// Two distinct marked positions below `m` carry label `l`.
pub open spec fn label_shared(label: Seq<usize>, marked: Seq<bool>, l: int, m: int) -> bool {
    exists|a: int, b: int|
        #![trigger marked[a], marked[b]]
        0 <= a < m && 0 <= b < m && a != b && marked[a] && marked[b] && label[a] == l && label[b] == l
}

/// A marked position below `m` with a flag carries label `l`.
pub open spec fn label_flagged(label: Seq<usize>, marked: Seq<bool>, flag: Seq<bool>, l: int, m: int) -> bool {
    exists|u: int| #![trigger marked[u]] 0 <= u < m && marked[u] && flag[u] && label[u] == l
}

/// Per label: whether two marked positions carry it, and whether a marked, flagged one does.
fn label_flags(label: &Vec<usize>, marked: &Vec<bool>, flag: &Vec<bool>) -> (out: (Vec<bool>, Vec<bool>))
    requires
        marked@.len() == label@.len(),
        flag@.len() == label@.len(),
        forall|v: int| 0 <= v < label@.len() && #[trigger] marked@[v] ==> label@[v] < label@.len(),
    ensures
        out.0@.len() == label@.len(),
        out.1@.len() == label@.len(),
        forall|l: int| 0 <= l < label@.len() ==> (#[trigger] out.0@[l] <==> label_shared(label@, marked@, l, label@.len() as int)),
        forall|l: int| 0 <= l < label@.len() ==> (#[trigger] out.1@[l] <==> label_flagged(label@, marked@, flag@, l, label@.len() as int)),
{
    let n = label.len();
    let mut first: Vec<usize> = Vec::new();
    let mut two: Vec<bool> = Vec::new();
    let mut flagged: Vec<bool> = Vec::new();
    let mut k: usize = 0;
    while k < n
        invariant
            0 <= k <= n,
            first@.len() == k,
            two@.len() == k,
            flagged@.len() == k,
            forall|i: int| 0 <= i < k ==> #[trigger] first@[i] == n && !two@[i] && !flagged@[i],
        decreases n - k,
    {
        first.push(n);
        two.push(false);
        flagged.push(false);
        k = k + 1;
    }
    let mut v: usize = 0;
    proof {
        assert forall|l: int| 0 <= l < n implies (#[trigger] two@[l] <==> label_shared(label@, marked@, l, 0)) by {
            assert(first@[l] == n);
            assert(!two@[l]);
        }
        assert forall|l: int| 0 <= l < n implies (#[trigger] flagged@[l] <==> label_flagged(label@, marked@, flag@, l, 0)) by {
            assert(first@[l] == n);
            assert(!flagged@[l]);
        }
    }
    while v < n
        invariant
            n == label@.len(),
            marked@.len() == n,
            flag@.len() == n,
            forall|x: int| 0 <= x < n && #[trigger] marked@[x] ==> label@[x] < n,
            0 <= v <= n,
            first@.len() == n,
            two@.len() == n,
            flagged@.len() == n,
            forall|l: int| 0 <= l < n && #[trigger] first@[l] == n ==> forall|u: int| 0 <= u < v && #[trigger] marked@[u] ==> label@[u] != l,
            forall|l: int| 0 <= l < n && #[trigger] first@[l] != n ==> first@[l] < v && marked@[first@[l] as int] && label@[first@[l] as int] == l,
            forall|l: int| 0 <= l < n ==> (#[trigger] two@[l] <==> label_shared(label@, marked@, l, v as int)),
            forall|l: int| 0 <= l < n ==> (#[trigger] flagged@[l] <==> label_flagged(label@, marked@, flag@, l, v as int)),
        decreases n - v,
    {
        let ghost first0 = first@;
        let ghost two0 = two@;
        let ghost flagged0 = flagged@;
        if marked[v] {
            let l = label[v];
            if first[l] == n {
                first.set(l, v);
            } else {
                proof {
                    assert(marked@[first0[l as int] as int] && marked@[v as int]);
                }
                two.set(l, true);
            }
            if flag[v] {
                flagged.set(l, true);
            }
            proof {
                assert forall|x: int| 0 <= x < n implies (#[trigger] two@[x] <==> label_shared(label@, marked@, x, v as int + 1)) by {
                    if label_shared(label@, marked@, x, v as int + 1) && !label_shared(label@, marked@, x, v as int) {
                        let (a, b) = choose|a: int, b: int|
                            0 <= a < v + 1 && 0 <= b < v + 1 && a != b && marked@[a] && marked@[b] && label@[a] == x && label@[b] == x;
                        if a < v && b < v {
                            assert(label_shared(label@, marked@, x, v as int));
                        }
                        assert(x == l);
                        if first0[x] == n {
                            if a == v {
                                assert(marked@[b]);
                            } else {
                                assert(marked@[a]);
                            }
                        }
                    }
                    if label_shared(label@, marked@, x, v as int) {
                        let (a, b) = choose|a: int, b: int|
                            0 <= a < v && 0 <= b < v && a != b && marked@[a] && marked@[b] && label@[a] == x && label@[b] == x;
                        assert(marked@[a] && marked@[b]);
                    }
                    if x == l && first0[x] != n {
                        let f = first0[x] as int;
                        assert(marked@[f] && marked@[v as int]);
                    }
                }
                assert forall|x: int| 0 <= x < n implies (#[trigger] flagged@[x] <==> label_flagged(label@, marked@, flag@, x, v as int + 1)) by {
                    if label_flagged(label@, marked@, flag@, x, v as int + 1) && !label_flagged(label@, marked@, flag@, x, v as int) {
                        let u = choose|u: int| 0 <= u < v + 1 && marked@[u] && flag@[u] && label@[u] == x;
                        if u < v {
                            assert(marked@[u]);
                        }
                    }
                    if label_flagged(label@, marked@, flag@, x, v as int) {
                        let u = choose|u: int| 0 <= u < v && marked@[u] && flag@[u] && label@[u] == x;
                        assert(marked@[u]);
                    }
                    if x == l && flag@[v as int] {
                        assert(marked@[v as int]);
                    }
                }
                assert forall|x: int| 0 <= x < n && #[trigger] first@[x] == n implies forall|u: int| 0 <= u < v + 1 && #[trigger] marked@[u] ==> label@[u] != x by {
                    assert(first0[x] == n);
                }
            }
        } else {
            proof {
                assert forall|x: int| 0 <= x < n implies (#[trigger] two@[x] <==> label_shared(label@, marked@, x, v as int + 1)) by {
                    if label_shared(label@, marked@, x, v as int + 1) {
                        let (a, b) = choose|a: int, b: int|
                            0 <= a < v + 1 && 0 <= b < v + 1 && a != b && marked@[a] && marked@[b] && label@[a] == x && label@[b] == x;
                        assert(marked@[a] && marked@[b]);
                    }
                    if label_shared(label@, marked@, x, v as int) {
                        let (a, b) = choose|a: int, b: int|
                            0 <= a < v && 0 <= b < v && a != b && marked@[a] && marked@[b] && label@[a] == x && label@[b] == x;
                        assert(marked@[a] && marked@[b]);
                    }
                }
                assert forall|x: int| 0 <= x < n implies (#[trigger] flagged@[x] <==> label_flagged(label@, marked@, flag@, x, v as int + 1)) by {
                    if label_flagged(label@, marked@, flag@, x, v as int + 1) {
                        let u = choose|u: int| 0 <= u < v + 1 && marked@[u] && flag@[u] && label@[u] == x;
                        assert(marked@[u]);
                    }
                    if label_flagged(label@, marked@, flag@, x, v as int) {
                        let u = choose|u: int| 0 <= u < v && marked@[u] && flag@[u] && label@[u] == x;
                        assert(marked@[u]);
                    }
                }
            }
        }
        v = v + 1;
    }
    (two, flagged)
}

/// The dead-cluster membership of every definition, by definition index.
pub fn dead_cluster_members(
    definitions: &Vec<SemanticDefinition>,
    reachability: &ReachabilityAnalysis,
    mode: ProjectMode,
) -> (members: Vec<bool>)
    requires
        forall|i: int| 0 <= i < definitions@.len() ==> (#[trigger] definitions@[i]).id.0 == i,
    ensures
        members@.len() == definitions@.len(),
        forall|i: int|
            0 <= i < definitions@.len() ==> (#[trigger] members@[i] <==> in_dead_cluster(
                definitions@,
                *reachability,
                mode,
                i,
            )),
{
    let ghost ds = definitions@;
    let ghost r = *reachability;
    let n = definitions.len();
    proof {
        if n > 0 {
            assert(definitions@[n - 1].id.0 == n - 1);
        }
    }
    let node = cluster_nodes(definitions, reachability, mode);
    let (adj, self_edge) = link_lists(definitions, &node, reachability, mode);
    let label = label_clusters(definitions, &node, &adj, reachability, mode);
    let mut marked: Vec<bool> = Vec::new();
    let mut k: usize = 0;
    while k < n
        invariant
            n == ds.len(),
            ds == definitions@,
            node@.len() == n,
            0 <= k <= n,
            marked@.len() == k,
            forall|i: int| 0 <= i < k ==> (#[trigger] marked@[i] <==> (node@[i] && ds[i].reportable)),
        decreases n - k,
    {
        marked.push(node[k] && definitions[k].reportable);
        k = k + 1;
    }
    let (two, flagged) = label_flags(&label, &marked, &self_edge);
    let mut members: Vec<bool> = Vec::new();
    let mut i: usize = 0;
    while i < n
        invariant
            n == ds.len(),
            ds == definitions@,
            r == *reachability,
            node@.len() == n,
            forall|x: int| 0 <= x < n ==> (#[trigger] node@[x] <==> cluster_node(ds, r, mode, x)),
            forall|x: int| 0 <= x < n ==> (#[trigger] self_edge@[x] <==> self_linked(ds, r, mode, x)),
            self_edge@.len() == n,
            labels_sound(ds, r, mode, label@),
            forall|v: int| 0 <= v < n ==> (cluster_node(ds, r, mode, v) <==> #[trigger] label@[v] != n),
            forall|v: int, w: int| 0 <= v < n && #[trigger] linked(ds, r, mode, v, w) ==> label@[w] == label@[v],
            marked@.len() == n,
            forall|x: int| 0 <= x < n ==> (#[trigger] marked@[x] <==> (node@[x] && ds[x].reportable)),
            two@.len() == n,
            flagged@.len() == n,
            forall|l: int| 0 <= l < n ==> (#[trigger] two@[l] <==> label_shared(label@, marked@, l, n as int)),
            forall|l: int| 0 <= l < n ==> (#[trigger] flagged@[l] <==> label_flagged(label@, marked@, self_edge@, l, n as int)),
            0 <= i <= n,
            members@.len() == i,
            forall|x: int| 0 <= x < i ==> (#[trigger] members@[x] <==> in_dead_cluster(ds, r, mode, x)),
        decreases n - i,
    {
        let member = if marked[i] {
            let l = label[i];
            proof {
                assert(node@[i as int]);
                lemma_member_flags(ds, r, mode, label@, marked@, self_edge@, i as int);
            }
            two[l] || flagged[l]
        } else {
            proof {
                assert(node@[i as int] == cluster_node(ds, r, mode, i as int));
            }
            false
        };
        members.push(member);
        i = i + 1;
    }
    members
}

/// A marked node is in a dead cluster exactly when its label is shared or flagged.
proof fn lemma_member_flags(
    ds: Seq<SemanticDefinition>,
    r: ReachabilityAnalysis,
    mode: ProjectMode,
    label: Seq<usize>,
    marked: Seq<bool>,
    self_edge: Seq<bool>,
    i: int,
)
    requires
        0 <= i < ds.len(),
        labels_sound(ds, r, mode, label),
        forall|v: int| 0 <= v < ds.len() ==> (cluster_node(ds, r, mode, v) <==> #[trigger] label[v] != ds.len()),
        forall|v: int, w: int| 0 <= v < ds.len() && #[trigger] linked(ds, r, mode, v, w) ==> label[w] == label[v],
        marked.len() == ds.len(),
        forall|x: int| 0 <= x < ds.len() ==> (#[trigger] marked[x] <==> (cluster_node(ds, r, mode, x) && ds[x].reportable)),
        self_edge.len() == ds.len(),
        forall|x: int| 0 <= x < ds.len() ==> (#[trigger] self_edge[x] <==> self_linked(ds, r, mode, x)),
        marked[i],
    ensures
        in_dead_cluster(ds, r, mode, i) <==> (label_shared(label, marked, label[i] as int, ds.len() as int)
            || label_flagged(label, marked, self_edge, label[i] as int, ds.len() as int)),
{
    let n = ds.len() as int;
    let l = label[i] as int;
    assert(cluster_node(ds, r, mode, i));
    assert(label[i] != n);
    let s = Set::new(|x: int| 0 <= x < n && label[x] == l);
    assert forall|a: int, b: int| #[trigger] s.contains(a) && #[trigger] linked(ds, r, mode, a, b) implies s.contains(b) by {
        assert(label[b] == label[a]);
    }
    assert(link_closed(ds, r, mode, s));
    assert(s.contains(i));
    assert(same_cluster(ds, r, mode, l, i));
    lemma_same_cluster_symmetric(ds, r, mode, l, i);
    // clusters of `i` carry its label
    if exists|j: int|
        #![trigger same_cluster(ds, r, mode, i, j)]
        j != i && 0 <= j < n && ds[j].reportable && same_cluster(ds, r, mode, i, j) {
        let j = choose|j: int|
            #![trigger same_cluster(ds, r, mode, i, j)]
            j != i && 0 <= j < n && ds[j].reportable && same_cluster(ds, r, mode, i, j);
        assert(s.contains(j));
        assert(label[j] != n);
        assert(marked[j] && marked[i]);
        assert(label_shared(label, marked, l, n));
    }
    if exists|j: int|
        #![trigger same_cluster(ds, r, mode, i, j)]
        0 <= j < n && ds[j].reportable && same_cluster(ds, r, mode, i, j) && self_linked(ds, r, mode, j) {
        let j = choose|j: int|
            #![trigger same_cluster(ds, r, mode, i, j)]
            0 <= j < n && ds[j].reportable && same_cluster(ds, r, mode, i, j) && self_linked(ds, r, mode, j);
        assert(s.contains(j));
        assert(marked[j] && self_edge[j]);
        assert(label_flagged(label, marked, self_edge, l, n));
    }
    if label_shared(label, marked, l, n) {
        let (a, b) = choose|a: int, b: int|
            0 <= a < n && 0 <= b < n && a != b && marked[a] && marked[b] && label[a] == l && label[b] == l;
        assert(marked[a] && marked[b]);
        let j = if a != i { a } else { b };
        assert(marked[j]);
        assert(label[j] != n);
        assert(same_cluster(ds, r, mode, l, j));
        lemma_same_cluster_transitive(ds, r, mode, i, l, j);
        assert(j != i && 0 <= j < n && ds[j].reportable && same_cluster(ds, r, mode, i, j));
    }
    if label_flagged(label, marked, self_edge, l, n) {
        let u = choose|u: int| 0 <= u < n && marked[u] && self_edge[u] && label[u] == l;
        assert(marked[u] && self_edge[u]);
        assert(label[u] != n);
        assert(same_cluster(ds, r, mode, l, u));
        lemma_same_cluster_transitive(ds, r, mode, i, l, u);
        assert(0 <= u < n && ds[u].reportable && same_cluster(ds, r, mode, i, u) && self_linked(ds, r, mode, u));
    }
}

/// Dead-cluster membership is a property of the cluster: every reportable definition in the
/// cluster of a member is a member too.
pub proof fn lemma_dead_cluster_shared(
    defs: Seq<SemanticDefinition>,
    r: ReachabilityAnalysis,
    mode: ProjectMode,
    i: int,
    j: int,
)
    requires
        in_dead_cluster(defs, r, mode, i),
        same_cluster(defs, r, mode, i, j),
        0 <= j < defs.len(),
        defs[j].reportable,
    ensures
        in_dead_cluster(defs, r, mode, j),
{
    let nodes = Set::new(|x: int| cluster_node(defs, r, mode, x));
    assert(link_closed(defs, r, mode, nodes));
    assert(nodes.contains(i));
    assert(cluster_node(defs, r, mode, j));
    lemma_same_cluster_symmetric(defs, r, mode, i, j);
    if exists|k: int|
        #![trigger same_cluster(defs, r, mode, i, k)]
        k != i && 0 <= k < defs.len() && defs[k].reportable && same_cluster(defs, r, mode, i, k) {
        let k = choose|k: int|
            #![trigger same_cluster(defs, r, mode, i, k)]
            k != i && 0 <= k < defs.len() && defs[k].reportable && same_cluster(defs, r, mode, i, k);
        lemma_same_cluster_transitive(defs, r, mode, j, i, k);
        if k == j {
            assert(i != j && 0 <= i < defs.len() && defs[i].reportable && same_cluster(defs, r, mode, j, i));
        } else {
            assert(k != j && 0 <= k < defs.len() && defs[k].reportable && same_cluster(defs, r, mode, j, k));
        }
    } else {
        let k = choose|k: int|
            #![trigger same_cluster(defs, r, mode, i, k)]
            0 <= k < defs.len() && defs[k].reportable && same_cluster(defs, r, mode, i, k) && self_linked(defs, r, mode, k);
        lemma_same_cluster_transitive(defs, r, mode, j, i, k);
        assert(0 <= k < defs.len() && defs[k].reportable && same_cluster(defs, r, mode, j, k) && self_linked(defs, r, mode, k));
    }
}

} // verus!
