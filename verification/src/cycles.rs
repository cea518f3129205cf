//! Modules that take part in an import cycle: every module on a simple cycle of the
//! project's local import graph, found by walking every simple path from each importing
//! module back to itself.
use vstd::prelude::*;

use crate::ids::ModuleId;

verus! {

/// The import graph: each importing module with the modules it imports. No module is
/// listed twice as an importer.
pub open spec fn importers_distinct(edges: Seq<(ModuleId, Vec<ModuleId>)>) -> bool {
    forall|i: int, j: int| 0 <= i < j < edges.len() ==> (#[trigger] edges[i]).0 != (#[trigger] edges[j]).0
}

/// Module `a` imports module `b`.
pub open spec fn imports(edges: Seq<(ModuleId, Vec<ModuleId>)>, a: ModuleId, b: ModuleId) -> bool {
    exists|i: int| 0 <= i < edges.len() && (#[trigger] edges[i]).0 == a && edges[i].1@.contains(b)
}

/// The step from the `i`-th module of `q` to the next is an import.
pub open spec fn step(edges: Seq<(ModuleId, Vec<ModuleId>)>, q: Seq<ModuleId>, i: int) -> bool {
    imports(edges, q[i], q[i + 1])
}

/// `q` is a simple import path.
pub open spec fn simple_path(edges: Seq<(ModuleId, Vec<ModuleId>)>, q: Seq<ModuleId>) -> bool {
    &&& q.len() >= 1
    &&& q.no_duplicates()
    &&& forall|i: int| 0 <= i < q.len() - 1 ==> #[trigger] step(edges, q, i)
}

/// `q` is a simple path that extends `prefix` and whose last module imports `start`: a
/// simple cycle through `start` when `prefix` begins with it.
pub open spec fn closes_cycle(
    edges: Seq<(ModuleId, Vec<ModuleId>)>,
    start: ModuleId,
    prefix: Seq<ModuleId>,
    q: Seq<ModuleId>,
) -> bool {
    &&& simple_path(edges, q)
    &&& prefix.len() <= q.len()
    &&& q.take(prefix.len() as int) == prefix
    &&& imports(edges, q.last(), start)
}

/// The modules on the simple cycles through `start` that extend `prefix`.
pub open spec fn cycle_members(edges: Seq<(ModuleId, Vec<ModuleId>)>, start: ModuleId, prefix: Seq<ModuleId>) -> Set<ModuleId> {
    Set::new(|u: ModuleId| exists|q: Seq<ModuleId>| #[trigger] closes_cycle(edges, start, prefix, q) && q.contains(u))
}

/// The modules on some simple import cycle.
pub open spec fn circular_modules(edges: Seq<(ModuleId, Vec<ModuleId>)>) -> Set<ModuleId> {
    Set::new(
        |u: ModuleId|
            exists|i: int| 0 <= i < edges.len() && #[trigger] cycle_members(edges, edges[i].0, seq![edges[i].0]).contains(u),
    )
}

/// Every module named in the graph, importer or imported.
pub open spec fn graph_nodes(edges: Seq<(ModuleId, Vec<ModuleId>)>) -> Seq<ModuleId>
    decreases edges.len(),
{
    if edges.len() == 0 {
        Seq::empty()
    } else {
        graph_nodes(edges.drop_last()) + seq![edges.last().0] + edges.last().1@
    }
}

/// Importers and imported modules are nodes of the graph.
proof fn lemma_graph_nodes(edges: Seq<(ModuleId, Vec<ModuleId>)>, i: int, b: ModuleId)
    requires
        0 <= i < edges.len(),
    ensures
        graph_nodes(edges).contains(edges[i].0),
        edges[i].1@.contains(b) ==> graph_nodes(edges).contains(b),
    decreases edges.len(),
{
    let rest = graph_nodes(edges.drop_last());
    let last = edges.last();
    let all = rest + seq![last.0] + last.1@;
    if i == edges.len() - 1 {
        assert(all[rest.len() as int] == last.0);
        if last.1@.contains(b) {
            let k = choose|k: int| 0 <= k < last.1@.len() && last.1@[k] == b;
            assert(all[rest.len() + 1 + k] == b);
        }
    } else {
        lemma_graph_nodes(edges.drop_last(), i, b);
        assert(edges.drop_last()[i] == edges[i]);
        if rest.contains(edges[i].0) {
            let k = choose|k: int| 0 <= k < rest.len() && rest[k] == edges[i].0;
            assert(all[k] == edges[i].0);
        }
        if edges[i].1@.contains(b) {
            let k = choose|k: int| 0 <= k < rest.len() && rest[k] == b;
            assert(all[k] == b);
        }
    }
}

/// A simple path of graph nodes is no longer than the list of nodes.
proof fn lemma_path_bounded(nodes: Seq<ModuleId>, p: Seq<ModuleId>)
    requires
        p.no_duplicates(),
        forall|i: int| 0 <= i < p.len() ==> nodes.contains(#[trigger] p[i]),
    ensures
        p.len() <= nodes.len(),
{
    p.unique_seq_to_set();
    nodes.lemma_cardinality_of_set();
    assert(p.to_set().subset_of(nodes.to_set())) by {
        assert forall|x: ModuleId| p.to_set().contains(x) implies nodes.to_set().contains(x) by {
            let k = choose|k: int| 0 <= k < p.len() && p[k] == x;
            assert(nodes.contains(p[k]));
        }
    }
    vstd::seq_lib::seq_to_set_is_finite(nodes);
    vstd::set_lib::lemma_len_subset(p.to_set(), nodes.to_set());
}

/// The only cycle-closing path no longer than its prefix is the prefix itself.
proof fn lemma_closing_prefix(
    edges: Seq<(ModuleId, Vec<ModuleId>)>,
    start: ModuleId,
    p: Seq<ModuleId>,
    q: Seq<ModuleId>,
)
    requires
        closes_cycle(edges, start, p, q),
        q.len() == p.len(),
    ensures
        q == p,
{
    assert(q =~= q.take(p.len() as int));
}

/// The cycle-closing paths that extend `p` by `t` are those that extend `p.push(t)`.
proof fn lemma_closing_extension(
    edges: Seq<(ModuleId, Vec<ModuleId>)>,
    start: ModuleId,
    p: Seq<ModuleId>,
    t: ModuleId,
    q: Seq<ModuleId>,
)
    requires
        p.len() >= 1,
    ensures
        closes_cycle(edges, start, p.push(t), q) <==> (closes_cycle(edges, start, p, q) && q.len() > p.len()
            && q[p.len() as int] == t),
{
    let n = p.len() as int;
    if closes_cycle(edges, start, p.push(t), q) {
        assert(p.push(t).len() == n + 1);
        assert(q.take(n + 1) == p.push(t));
        assert(q.take(n) =~= q.take(n + 1).take(n));
        assert(q.take(n + 1).take(n) =~= p);
        assert(q.take(n + 1)[n] == q[n]);
        assert(q[n] == t);
    }
    if closes_cycle(edges, start, p, q) && q.len() > p.len() && q[n] == t {
        assert(q.take(n + 1) =~= q.take(n).push(t));
    }
}

/// Where the import list of `a` is in the graph, if `a` imports anything.
fn find_importer(edges: &Vec<(ModuleId, Vec<ModuleId>)>, a: ModuleId) -> (r: Option<usize>)
    ensures
        match r {
            Some(i) => i < edges@.len() && edges@[i as int].0 == a,
            None => forall|i: int| 0 <= i < edges@.len() ==> (#[trigger] edges@[i]).0 != a,
        },
{
    let mut i: usize = 0;
    while i < edges.len()
        invariant
            0 <= i <= edges@.len(),
            forall|j: int| 0 <= j < i ==> (#[trigger] edges@[j]).0 != a,
        decreases edges@.len() - i,
    {
        if edges[i].0.0 == a.0 {
            return Some(i);
        }
        i = i + 1;
    }
    None
}

/// Whether `x` is in the list.
fn contains_module(list: &Vec<ModuleId>, x: ModuleId) -> (yes: bool)
    ensures
        yes == list@.contains(x),
{
    let mut j: usize = 0;
    while j < list.len()
        invariant
            0 <= j <= list@.len(),
            forall|t: int| 0 <= t < j ==> list@[t] != x,
        decreases list@.len() - j,
    {
        if list[j].0 == x.0 {
            return true;
        }
        j = j + 1;
    }
    false
}

/// Adds a module to a list without repeats.
fn add_module(list: &mut Vec<ModuleId>, x: ModuleId)
    requires
        old(list)@.no_duplicates(),
    ensures
        final(list)@.no_duplicates(),
        final(list)@.to_set() == old(list)@.to_set().insert(x),
{
    let ghost before = list@;
    if !contains_module(list, x) {
        list.push(x);
        proof {
            assert forall|a: int, b: int| 0 <= a < b < list@.len() implies list@[a] != list@[b] by {
                if b == before.len() {
                    assert(before[a] == list@[a]);
                }
            }
        }
    }
    proof {
        before.lemma_push_to_set_commute(x);
        if list@ == before {
            assert(before.to_set().insert(x) =~= before.to_set());
        }
    }
}

/// Adds every module of `from` to a list without repeats.
fn add_modules(list: &mut Vec<ModuleId>, from: &Vec<ModuleId>)
    requires
        old(list)@.no_duplicates(),
    ensures
        final(list)@.no_duplicates(),
        final(list)@.to_set() == old(list)@.to_set() + from@.to_set(),
{
    let mut k: usize = 0;
    while k < from.len()
        invariant
            0 <= k <= from@.len(),
            list@.no_duplicates(),
            list@.to_set() == old(list)@.to_set() + from@.take(k as int).to_set(),
        decreases from@.len() - k,
    {
        add_module(list, from[k]);
        proof {
            assert(from@.take(k + 1) =~= from@.take(k as int).push(from@[k as int]));
            from@.take(k as int).lemma_push_to_set_commute(from@[k as int]);
            assert(list@.to_set() =~= old(list)@.to_set() + from@.take(k + 1).to_set());
        }
        k = k + 1;
    }
    proof {
        assert(from@.take(from@.len() as int) =~= from@);
    }
}

/// The modules on the simple cycles through `start` that extend `prefix` by a first step to
/// one of `targets`, or that end with the prefix when `start` is among them.
pub open spec fn members_by_first_step(
    edges: Seq<(ModuleId, Vec<ModuleId>)>,
    start: ModuleId,
    prefix: Seq<ModuleId>,
    targets: Seq<ModuleId>,
) -> Set<ModuleId> {
    Set::new(
        |u: ModuleId|
            exists|q: Seq<ModuleId>|
                #[trigger] closes_cycle(edges, start, prefix, q) && q.contains(u) && ((q.len() == prefix.len()
                    && targets.contains(start)) || (q.len() > prefix.len() && targets.contains(q[prefix.len() as int]))),
    )
}

/// Adds to `found` every module on a simple cycle through `start` that extends `path`, the
/// current simple path from `start` to `current`.
fn collect_cycle_nodes(
    start: ModuleId,
    current: ModuleId,
    edges: &Vec<(ModuleId, Vec<ModuleId>)>,
    path: &mut Vec<ModuleId>,
    found: &mut Vec<ModuleId>,
)
    requires
        importers_distinct(edges@),
        simple_path(edges@, old(path)@),
        old(path)@[0] == start,
        old(path)@.last() == current,
        forall|i: int| 0 <= i < old(path)@.len() ==> graph_nodes(edges@).contains(#[trigger] old(path)@[i]),
        old(found)@.no_duplicates(),
    ensures
        final(path)@ == old(path)@,
        final(found)@.no_duplicates(),
        final(found)@.to_set() == old(found)@.to_set() + cycle_members(edges@, start, old(path)@),
    decreases graph_nodes(edges@).len() - old(path)@.len(),
{
    let ghost p = path@;
    let ghost nodes = graph_nodes(edges@);
    proof {
        lemma_path_bounded(nodes, p);
    }
    let ix = match find_importer(edges, current) {
        Some(ix) => ix,
        None => {
            proof {
                assert(cycle_members(edges@, start, p) =~= Set::<ModuleId>::empty()) by {
                    assert forall|u: ModuleId| !cycle_members(edges@, start, p).contains(u) by {
                        if exists|q: Seq<ModuleId>| #[trigger] closes_cycle(edges@, start, p, q) && q.contains(u) {
                            let q = choose|q: Seq<ModuleId>| #[trigger] closes_cycle(edges@, start, p, q) && q.contains(u);
                            if q.len() == p.len() {
                                lemma_closing_prefix(edges@, start, p, q);
                            } else {
                                assert(step(edges@, q, p.len() - 1));
                                assert(q[p.len() - 1] == q.take(p.len() as int)[p.len() - 1]);
                            }
                        }
                    }
                }
                assert(found@.to_set() + Set::<ModuleId>::empty() =~= found@.to_set());
            }
            return;
        },
    };
    let ghost targets = edges@[ix as int].1@;
    let ghost base = found@.to_set();
    proof {
        assert(members_by_first_step(edges@, start, p, targets.take(0)) =~= Set::<ModuleId>::empty());
        assert(base + Set::<ModuleId>::empty() =~= base);
    }
    let mut j: usize = 0;
    while j < edges[ix].1.len()
        invariant
            importers_distinct(edges@),
            ix < edges@.len(),
            edges@[ix as int].0 == current,
            targets == edges@[ix as int].1@,
            0 <= j <= targets.len(),
            path@ == p,
            p == old(path)@,
            simple_path(edges@, p),
            p[0] == start,
            p.last() == current,
            nodes == graph_nodes(edges@),
            p.len() <= nodes.len(),
            forall|i: int| 0 <= i < p.len() ==> nodes.contains(#[trigger] p[i]),
            found@.no_duplicates(),
            found@.to_set() == base + members_by_first_step(edges@, start, p, targets.take(j as int)),
        decreases targets.len() - j,
    {
        let t = edges[ix].1[j];
        let ghost tk = targets.take(j as int);
        let ghost tk1 = targets.take(j + 1);
        let ghost before = found@.to_set();
        let ghost old_part = members_by_first_step(edges@, start, p, tk);
        let ghost new_part = members_by_first_step(edges@, start, p, tk1);
        proof {
            assert(tk1 =~= tk.push(t));
        }
        if t.0 == start.0 {
            add_modules(found, path);
            proof {
                assert(imports(edges@, current, start)) by {
                    assert(edges@[ix as int].1@.contains(t)) by {
                        assert(edges@[ix as int].1@[j as int] == t);
                    }
                }
                assert(closes_cycle(edges@, start, p, p)) by {
                    assert(p.take(p.len() as int) =~= p);
                }
                assert forall|u: ModuleId| new_part.contains(u) <==> old_part.contains(u) || p.contains(u) by {
                    if new_part.contains(u) {
                        let q = choose|q: Seq<ModuleId>|
                            #[trigger] closes_cycle(edges@, start, p, q) && q.contains(u) && ((q.len() == p.len()
                                && tk1.contains(start)) || (q.len() > p.len() && tk1.contains(
                                q[p.len() as int],
                            )));
                        if q.len() == p.len() {
                            lemma_closing_prefix(edges@, start, p, q);
                        } else if q[p.len() as int] == t {
                            assert(q[0] == q.take(p.len() as int)[0]);
                        } else {
                            let w = choose|w: int| 0 <= w < tk1.len() && tk1[w] == q[p.len() as int];
                            assert(tk[w] == q[p.len() as int]);
                        }
                    }
                    if old_part.contains(u) {
                        let q = choose|q: Seq<ModuleId>|
                            #[trigger] closes_cycle(edges@, start, p, q) && q.contains(u) && ((q.len() == p.len()
                                && tk.contains(start)) || (q.len() > p.len() && tk.contains(
                                q[p.len() as int],
                            )));
                        if q.len() == p.len() {
                            let w = choose|w: int| 0 <= w < tk.len() && tk[w] == start;
                            assert(tk1[w] == start);
                        } else {
                            let w = choose|w: int| 0 <= w < tk.len() && tk[w] == q[p.len() as int];
                            assert(tk1[w] == q[p.len() as int]);
                        }
                    }
                    if p.contains(u) {
                        assert(tk1[j as int] == start);
                    }
                }
                assert(found@.to_set() =~= base + new_part);
            }
        } else if contains_module(path, t) {
            proof {
                assert forall|u: ModuleId| new_part.contains(u) <==> old_part.contains(u) by {
                    if new_part.contains(u) {
                        let q = choose|q: Seq<ModuleId>|
                            #[trigger] closes_cycle(edges@, start, p, q) && q.contains(u) && ((q.len() == p.len()
                                && tk1.contains(start)) || (q.len() > p.len() && tk1.contains(
                                q[p.len() as int],
                            )));
                        if q.len() == p.len() {
                            let w = choose|w: int| 0 <= w < tk1.len() && tk1[w] == start;
                            if w == j {
                            } else {
                                assert(tk[w] == start);
                            }
                        } else if q[p.len() as int] == t {
                            let k = choose|k: int| 0 <= k < p.len() && p[k] == t;
                            assert(q[k] == q.take(p.len() as int)[k]);
                        } else {
                            let w = choose|w: int| 0 <= w < tk1.len() && tk1[w] == q[p.len() as int];
                            assert(tk[w] == q[p.len() as int]);
                        }
                    }
                    if old_part.contains(u) {
                        let q = choose|q: Seq<ModuleId>|
                            #[trigger] closes_cycle(edges@, start, p, q) && q.contains(u) && ((q.len() == p.len()
                                && tk.contains(start)) || (q.len() > p.len() && tk.contains(
                                q[p.len() as int],
                            )));
                        if q.len() == p.len() {
                            let w = choose|w: int| 0 <= w < tk.len() && tk[w] == start;
                            assert(tk1[w] == start);
                        } else {
                            let w = choose|w: int| 0 <= w < tk.len() && tk[w] == q[p.len() as int];
                            assert(tk1[w] == q[p.len() as int]);
                        }
                    }
                }
                assert(new_part =~= old_part);
            }
        } else {
            proof {
                assert(edges@[ix as int].1@[j as int] == t);
                assert(imports(edges@, current, t));
                lemma_graph_nodes(edges@, ix as int, t);
            }
            path.push(t);
            proof {
                assert(path@ == p.push(t));
                assert(simple_path(edges@, path@)) by {
                    assert forall|a: int, b: int| 0 <= a < b < path@.len() implies path@[a] != path@[b] by {
                        if b == p.len() {
                            assert(path@[a] == p[a]);
                            if p[a] == t {
                                assert(p.contains(t));
                            }
                        } else {
                            assert(path@[a] == p[a] && path@[b] == p[b]);
                        }
                    }
                    assert forall|i: int| 0 <= i < path@.len() - 1 implies #[trigger] step(edges@, path@, i) by {
                        if i == p.len() - 1 {
                            assert(path@[i] == current && path@[i + 1] == t);
                        } else {
                            assert(step(edges@, p, i));
                            assert(path@[i] == p[i] && path@[i + 1] == p[i + 1]);
                        }
                    }
                }
                assert forall|i: int| 0 <= i < path@.len() implies nodes.contains(#[trigger] path@[i]) by {
                    if i < p.len() {
                        assert(path@[i] == p[i]);
                    }
                }
                lemma_path_bounded(nodes, path@);
            }
            collect_cycle_nodes(start, t, edges, path, found);
            path.pop();
            proof {
                assert(path@ =~= p);
                assert forall|u: ModuleId| new_part.contains(u) <==> old_part.contains(u) || cycle_members(edges@, start, p.push(t)).contains(u) by {
                    if new_part.contains(u) {
                        let q = choose|q: Seq<ModuleId>|
                            #[trigger] closes_cycle(edges@, start, p, q) && q.contains(u) && ((q.len() == p.len()
                                && tk1.contains(start)) || (q.len() > p.len() && tk1.contains(
                                q[p.len() as int],
                            )));
                        if q.len() > p.len() && q[p.len() as int] == t {
                            lemma_closing_extension(edges@, start, p, t, q);
                        } else if q.len() == p.len() {
                            let w = choose|w: int| 0 <= w < tk1.len() && tk1[w] == start;
                            if w == j {
                            } else {
                                assert(tk[w] == start);
                            }
                        } else {
                            let w = choose|w: int| 0 <= w < tk1.len() && tk1[w] == q[p.len() as int];
                            assert(tk[w] == q[p.len() as int]);
                        }
                    }
                    if old_part.contains(u) {
                        let q = choose|q: Seq<ModuleId>|
                            #[trigger] closes_cycle(edges@, start, p, q) && q.contains(u) && ((q.len() == p.len()
                                && tk.contains(start)) || (q.len() > p.len() && tk.contains(
                                q[p.len() as int],
                            )));
                        if q.len() == p.len() {
                            let w = choose|w: int| 0 <= w < tk.len() && tk[w] == start;
                            assert(tk1[w] == start);
                        } else {
                            let w = choose|w: int| 0 <= w < tk.len() && tk[w] == q[p.len() as int];
                            assert(tk1[w] == q[p.len() as int]);
                        }
                    }
                    if cycle_members(edges@, start, p.push(t)).contains(u) {
                        let q = choose|q: Seq<ModuleId>| #[trigger] closes_cycle(edges@, start, p.push(t), q) && q.contains(u);
                        lemma_closing_extension(edges@, start, p, t, q);
                        assert(tk1[j as int] == t);
                    }
                }
                assert(found@.to_set() =~= base + new_part);
            }
        }
        j = j + 1;
    }
    proof {
        assert(targets.take(targets.len() as int) =~= targets);
        assert forall|u: ModuleId| cycle_members(edges@, start, p).contains(u) implies members_by_first_step(
            edges@,
            start,
            p,
            targets,
        ).contains(u) by {
            let q = choose|q: Seq<ModuleId>| #[trigger] closes_cycle(edges@, start, p, q) && q.contains(u);
            if q.len() == p.len() {
                lemma_closing_prefix(edges@, start, p, q);
                let i = choose|i: int| 0 <= i < edges@.len() && (#[trigger] edges@[i]).0 == current && edges@[i].1@.contains(start);
                assert(i == ix);
            } else {
                assert(step(edges@, q, p.len() - 1));
                assert(q[p.len() - 1] == q.take(p.len() as int)[p.len() - 1]);
                let i = choose|i: int|
                    0 <= i < edges@.len() && (#[trigger] edges@[i]).0 == q[p.len() - 1] && edges@[i].1@.contains(q[p.len() as int]);
                assert(i == ix);
            }
        }
        assert(members_by_first_step(edges@, start, p, targets) =~= cycle_members(edges@, start, p));
    }
}

/// The modules on some simple import cycle, each listed once.
pub fn circular_import_modules(edges: &Vec<(ModuleId, Vec<ModuleId>)>) -> (modules: Vec<ModuleId>)
    requires
        importers_distinct(edges@),
    ensures
        modules@.no_duplicates(),
        modules@.to_set() == circular_modules(edges@),
{
    let mut found: Vec<ModuleId> = Vec::new();
    let mut i: usize = 0;
    proof {
        assert(found@.to_set() =~= Set::<ModuleId>::empty());
    }
    while i < edges.len()
        invariant
            0 <= i <= edges@.len(),
            importers_distinct(edges@),
            found@.no_duplicates(),
            found@.to_set() == Set::new(
                |u: ModuleId|
                    exists|k: int| 0 <= k < i && #[trigger] cycle_members(edges@, edges@[k].0, seq![edges@[k].0]).contains(u),
            ),
        decreases edges@.len() - i,
    {
        let start = edges[i].0;
        let mut path: Vec<ModuleId> = Vec::new();
        path.push(start);
        let ghost before = found@.to_set();
        proof {
            assert(path@ =~= seq![start]);
            lemma_graph_nodes(edges@, i as int, start);
            assert(simple_path(edges@, path@));
        }
        collect_cycle_nodes(start, start, edges, &mut path, &mut found);
        proof {
            assert(found@.to_set() =~= Set::new(
                |u: ModuleId|
                    exists|k: int| 0 <= k < i + 1 && #[trigger] cycle_members(edges@, edges@[k].0, seq![edges@[k].0]).contains(u),
            ));
        }
        i = i + 1;
    }
    proof {
        assert(found@.to_set() =~= circular_modules(edges@));
    }
    found
}

/// `w` is a walk of at least one import from `u` back to `u`.
pub open spec fn closed_walk(edges: Seq<(ModuleId, Vec<ModuleId>)>, u: ModuleId, w: Seq<ModuleId>) -> bool {
    &&& w.len() >= 2
    &&& w[0] == u
    &&& w.last() == u
    &&& forall|i: int| 0 <= i < w.len() - 1 ==> #[trigger] step(edges, w, i)
}

/// A module on a simple cycle has a walk back to itself.
proof fn lemma_member_has_closed_walk(edges: Seq<(ModuleId, Vec<ModuleId>)>, s: ModuleId, q: Seq<ModuleId>, k: int)
    requires
        closes_cycle(edges, s, seq![s], q),
        0 <= k < q.len(),
    ensures
        closed_walk(edges, q[k], q.subrange(k, q.len() as int) + q.subrange(0, k + 1)),
{
    let n = q.len() as int;
    let w = q.subrange(k, n) + q.subrange(0, k + 1);
    assert(q[0] == q.take(1)[0]);
    assert(q[0] == s);
    assert(w.len() == n + 1);
    assert(w[0] == q[k]);
    assert(w.last() == q[k]);
    assert forall|i: int| 0 <= i < w.len() - 1 implies #[trigger] step(edges, w, i) by {
        if i < n - k - 1 {
            assert(w[i] == q[k + i] && w[i + 1] == q[k + i + 1]);
            assert(step(edges, q, k + i));
        } else if i == n - k - 1 {
            assert(w[i] == q[n - 1] && w[i + 1] == q[0]);
        } else {
            let a = i - (n - k);
            assert(w[i] == q[a] && w[i + 1] == q[a + 1]);
            assert(step(edges, q, a));
        }
    }
}

/// A walk back to `u` can be shortened to a simple cycle through `u`.
proof fn lemma_closed_walk_has_cycle(edges: Seq<(ModuleId, Vec<ModuleId>)>, u: ModuleId, w: Seq<ModuleId>)
    requires
        closed_walk(edges, u, w),
    ensures
        exists|q: Seq<ModuleId>| #[trigger] closes_cycle(edges, u, seq![u], q),
    decreases w.len(),
{
    let n = w.len() as int;
    let q = w.drop_last();
    if q.no_duplicates() {
        assert forall|i: int| 0 <= i < q.len() - 1 implies #[trigger] step(edges, q, i) by {
            assert(step(edges, w, i));
            assert(q[i] == w[i] && q[i + 1] == w[i + 1]);
        }
        assert(step(edges, w, n - 2));
        assert(q.last() == w[n - 2]);
        assert(q.take(1) =~= seq![u]);
        assert(closes_cycle(edges, u, seq![u], q));
    } else {
        let (i, j) = choose|i: int, j: int| 0 <= i < q.len() && 0 <= j < q.len() && i != j && q[i] == q[j];
        let (a, b) = if i < j { (i, j) } else { (j, i) };
        assert(q[a] == q[b] && a < b && b <= n - 2);
        if a == 0 {
            let w2 = w.take(b + 1);
            assert(w2[0] == u);
            assert(w2.last() == w[b]);
            assert(w[b] == q[b] && q[0] == w[0]);
            assert forall|x: int| 0 <= x < w2.len() - 1 implies #[trigger] step(edges, w2, x) by {
                assert(step(edges, w, x));
                assert(w2[x] == w[x] && w2[x + 1] == w[x + 1]);
            }
            lemma_closed_walk_has_cycle(edges, u, w2);
        } else {
            let w2 = w.subrange(0, a) + w.subrange(b, n);
            assert(w2.len() == a + n - b);
            assert(w2[0] == w[0]);
            assert(w2.last() == w[n - 1]);
            assert forall|x: int| 0 <= x < w2.len() - 1 implies #[trigger] step(edges, w2, x) by {
                if x < a - 1 {
                    assert(step(edges, w, x));
                    assert(w2[x] == w[x] && w2[x + 1] == w[x + 1]);
                } else if x == a - 1 {
                    assert(step(edges, w, x));
                    assert(w2[x] == w[x] && w2[x + 1] == w[b]);
                    assert(w[b] == q[b] && q[a] == w[a]);
                } else {
                    let y = x - a + b;
                    assert(step(edges, w, y));
                    assert(w2[x] == w[y] && w2[x + 1] == w[y + 1]);
                }
            }
            lemma_closed_walk_has_cycle(edges, u, w2);
        }
    }
}

/// A module is on an import cycle exactly when it can walk its imports back to itself.
pub proof fn lemma_circular_iff_walk_back(edges: Seq<(ModuleId, Vec<ModuleId>)>, u: ModuleId)
    ensures
        circular_modules(edges).contains(u) <==> exists|w: Seq<ModuleId>| #[trigger] closed_walk(edges, u, w),
{
    if circular_modules(edges).contains(u) {
        let i = choose|i: int| 0 <= i < edges.len() && #[trigger] cycle_members(edges, edges[i].0, seq![edges[i].0]).contains(u);
        let s = edges[i].0;
        let q = choose|q: Seq<ModuleId>| #[trigger] closes_cycle(edges, s, seq![s], q) && q.contains(u);
        let k = choose|k: int| 0 <= k < q.len() && q[k] == u;
        lemma_member_has_closed_walk(edges, s, q, k);
        let w = q.subrange(k, q.len() as int) + q.subrange(0, k + 1);
        assert(closed_walk(edges, u, w));
    }
    if exists|w: Seq<ModuleId>| #[trigger] closed_walk(edges, u, w) {
        let w = choose|w: Seq<ModuleId>| #[trigger] closed_walk(edges, u, w);
        lemma_closed_walk_has_cycle(edges, u, w);
        let q = choose|q: Seq<ModuleId>| #[trigger] closes_cycle(edges, u, seq![u], q);
        assert(q[0] == q.take(1)[0]);
        assert(q.contains(u));
        assert(step(edges, w, 0));
        let i = choose|i: int| 0 <= i < edges.len() && (#[trigger] edges[i]).0 == w[0] && edges[i].1@.contains(w[1]);
        assert(cycle_members(edges, edges[i].0, seq![edges[i].0]).contains(u));
    }
}

// ----- building the graph -----

/// Module ids in strictly increasing order.
pub open spec fn ids_increasing(s: Seq<ModuleId>) -> bool {
    forall|i: int, j: int| 0 <= i < j < s.len() ==> (#[trigger] s[i]).0 < (#[trigger] s[j]).0
}

/// The graph lists importers in increasing order, each with its imports in increasing order.
pub open spec fn graph_sorted(g: Seq<(ModuleId, Vec<ModuleId>)>) -> bool {
    &&& forall|i: int, j: int| 0 <= i < j < g.len() ==> (#[trigger] g[i]).0.0 < (#[trigger] g[j]).0.0
    &&& forall|i: int| 0 <= i < g.len() ==> ids_increasing((#[trigger] g[i]).1@)
}

/// The import pairs recorded in `pairs`.
pub open spec fn has_pair(pairs: Seq<(ModuleId, ModuleId)>, a: ModuleId, b: ModuleId) -> bool {
    exists|k: int| 0 <= k < pairs.len() && #[trigger] pairs[k] == (a, b)
}

/// Adds `x` to a strictly increasing list of ids.
fn insert_id(list: &mut Vec<ModuleId>, x: ModuleId)
    requires
        ids_increasing(old(list)@),
    ensures
        ids_increasing(final(list)@),
        forall|y: ModuleId| #[trigger] final(list)@.contains(y) <==> (old(list)@.contains(y) || y == x),
{
    let ghost before = list@;
    let mut i: usize = 0;
    while i < list.len() && list[i].0 < x.0
        invariant
            0 <= i <= list@.len(),
            list@ == before,
            ids_increasing(before),
            forall|j: int| 0 <= j < i ==> (#[trigger] before[j]).0 < x.0,
        decreases list@.len() - i,
    {
        i = i + 1;
    }
    if i < list.len() && list[i].0 == x.0 {
        proof {
            assert(before[i as int] == x);
        }
        return;
    }
    list.insert(i, x);
    proof {
        assert forall|a: int, b: int| 0 <= a < b < list@.len() implies (#[trigger] list@[a]).0 < (#[trigger] list@[b]).0 by {
            if b < i {
                assert(list@[a] == before[a] && list@[b] == before[b]);
            } else if b == i {
                assert(list@[a] == before[a]);
            } else if a == i {
                assert(list@[b] == before[b - 1]);
                if b - 1 > i {
                    assert(before[i as int].0 < before[b - 1].0);
                }
            } else if a < i {
                assert(list@[a] == before[a] && list@[b] == before[b - 1]);
            } else {
                assert(list@[a] == before[a - 1] && list@[b] == before[b - 1]);
            }
        }
        assert forall|y: ModuleId| #[trigger] list@.contains(y) <==> (before.contains(y) || y == x) by {
            if list@.contains(y) {
                let k = choose|k: int| 0 <= k < list@.len() && list@[k] == y;
                if k < i {
                    assert(before[k] == y);
                } else if k > i {
                    assert(before[k - 1] == y);
                }
            }
            if before.contains(y) {
                let k = choose|k: int| 0 <= k < before.len() && before[k] == y;
                if k < i {
                    assert(list@[k] == y);
                } else {
                    assert(list@[k + 1] == y);
                }
            }
            if y == x {
                assert(list@[i as int] == x);
            }
        }
    }
}

/// Adds the import of `b` by `a` to a sorted graph.
fn insert_edge(graph: &mut Vec<(ModuleId, Vec<ModuleId>)>, a: ModuleId, b: ModuleId)
    requires
        graph_sorted(old(graph)@),
    ensures
        graph_sorted(final(graph)@),
        forall|x: ModuleId, y: ModuleId| #[trigger] imports(final(graph)@, x, y) <==> (imports(old(graph)@, x, y) || (x == a && y == b)),
{
    let ghost before = graph@;
    let mut i: usize = 0;
    while i < graph.len() && graph[i].0.0 < a.0
        invariant
            0 <= i <= graph@.len(),
            graph@ == before,
            graph_sorted(before),
            forall|j: int| 0 <= j < i ==> (#[trigger] before[j]).0.0 < a.0,
        decreases graph@.len() - i,
    {
        i = i + 1;
    }
    if i < graph.len() && graph[i].0.0 == a.0 {
        let mut targets = crate::candidates::copy_values(&graph[i].1);
        let ghost old_targets = targets@;
        insert_id(&mut targets, b);
        graph.set(i, (a, targets));
        proof {
            assert(before[i as int].0 == a);
            assert forall|p: int, q: int| 0 <= p < q < graph@.len() implies (#[trigger] graph@[p]).0.0 < (#[trigger] graph@[q]).0.0 by {
                assert(graph@[p].0 == before[p].0 && graph@[q].0 == before[q].0);
            }
            assert forall|p: int| 0 <= p < graph@.len() implies ids_increasing((#[trigger] graph@[p]).1@) by {
                if p != i {
                    assert(graph@[p] == before[p]);
                }
            }
            assert forall|x: ModuleId, y: ModuleId| #[trigger] imports(graph@, x, y) <==> (imports(before, x, y) || (x == a && y == b)) by {
                if imports(graph@, x, y) {
                    let k = choose|k: int| 0 <= k < graph@.len() && (#[trigger] graph@[k]).0 == x && graph@[k].1@.contains(y);
                    if k != i {
                        assert(graph@[k] == before[k]);
                    } else if !(x == a && y == b) {
                        assert(old_targets.contains(y));
                    }
                }
                if imports(before, x, y) {
                    let k = choose|k: int| 0 <= k < before.len() && (#[trigger] before[k]).0 == x && before[k].1@.contains(y);
                    if k != i {
                        assert(graph@[k] == before[k]);
                    } else {
                        assert(graph@[k].1@.contains(y));
                    }
                }
                if x == a && y == b {
                    assert(graph@[i as int].1@.contains(b));
                }
            }
        }
        return;
    }
    let mut targets: Vec<ModuleId> = Vec::new();
    targets.push(b);
    graph.insert(i, (a, targets));
    proof {
        assert(graph@[i as int].1@ =~= seq![b]);
        assert forall|p: int, q: int| 0 <= p < q < graph@.len() implies (#[trigger] graph@[p]).0.0 < (#[trigger] graph@[q]).0.0 by {
            if q < i {
                assert(graph@[p] == before[p] && graph@[q] == before[q]);
            } else if q == i {
                assert(graph@[p] == before[p]);
            } else if p == i {
                assert(graph@[q] == before[q - 1]);
                if q - 1 > i {
                    assert(before[i as int].0.0 < before[q - 1].0.0);
                }
            } else if p < i {
                assert(graph@[p] == before[p] && graph@[q] == before[q - 1]);
            } else {
                assert(graph@[p] == before[p - 1] && graph@[q] == before[q - 1]);
            }
        }
        assert forall|p: int| 0 <= p < graph@.len() implies ids_increasing((#[trigger] graph@[p]).1@) by {
            if p < i {
                assert(graph@[p] == before[p]);
            } else if p > i {
                assert(graph@[p] == before[p - 1]);
            }
        }
        assert forall|x: ModuleId, y: ModuleId| #[trigger] imports(graph@, x, y) <==> (imports(before, x, y) || (x == a && y == b)) by {
            if imports(graph@, x, y) {
                let k = choose|k: int| 0 <= k < graph@.len() && (#[trigger] graph@[k]).0 == x && graph@[k].1@.contains(y);
                if k < i {
                    assert(graph@[k] == before[k]);
                } else if k > i {
                    assert(graph@[k] == before[k - 1]);
                } else {
                    let t = choose|t: int| 0 <= t < graph@[k].1@.len() && graph@[k].1@[t] == y;
                    assert(y == b);
                }
            }
            if imports(before, x, y) {
                let k = choose|k: int| 0 <= k < before.len() && (#[trigger] before[k]).0 == x && before[k].1@.contains(y);
                if k < i {
                    assert(graph@[k] == before[k]);
                } else {
                    assert(graph@[k + 1] == before[k]);
                }
            }
            if x == a && y == b {
                assert(graph@[i as int].1@[0] == b);
            }
        }
    }
}

/// The import graph of a list of import pairs (importer, imported): importers in increasing
/// order, each with its imports in increasing order, each once.
pub fn import_graph(pairs: &Vec<(ModuleId, ModuleId)>) -> (graph: Vec<(ModuleId, Vec<ModuleId>)>)
    ensures
        graph_sorted(graph@),
        importers_distinct(graph@),
        forall|a: ModuleId, b: ModuleId| #[trigger] imports(graph@, a, b) <==> has_pair(pairs@, a, b),
{
    let mut graph: Vec<(ModuleId, Vec<ModuleId>)> = Vec::new();
    let mut k: usize = 0;
    while k < pairs.len()
        invariant
            0 <= k <= pairs@.len(),
            graph_sorted(graph@),
            forall|a: ModuleId, b: ModuleId| #[trigger] imports(graph@, a, b) <==> has_pair(pairs@.take(k as int), a, b),
        decreases pairs@.len() - k,
    {
        let (a, b) = pairs[k];
        let ghost before = graph@;
        insert_edge(&mut graph, a, b);
        proof {
            let t0 = pairs@.take(k as int);
            let t1 = pairs@.take(k + 1);
            assert forall|x: ModuleId, y: ModuleId| #[trigger] has_pair(t1, x, y) <==> (has_pair(t0, x, y) || (x == a && y == b)) by {
                if has_pair(t1, x, y) {
                    let w = choose|w: int| 0 <= w < t1.len() && #[trigger] t1[w] == (x, y);
                    if w < k {
                        assert(t0[w] == (x, y));
                    }
                }
                if has_pair(t0, x, y) {
                    let w = choose|w: int| 0 <= w < t0.len() && #[trigger] t0[w] == (x, y);
                    assert(t1[w] == (x, y));
                }
                if x == a && y == b {
                    assert(t1[k as int] == (x, y));
                }
            }
        }
        k = k + 1;
    }
    proof {
        assert(pairs@.take(pairs@.len() as int) =~= pairs@);
        assert forall|i: int, j: int| 0 <= i < j < graph@.len() implies (#[trigger] graph@[i]).0 != (#[trigger] graph@[j]).0 by {
            assert(graph@[i].0.0 < graph@[j].0.0);
        }
    }
    graph
}

/// `w` walks the import pairs from `u` back to `u`, through at least one import.
pub open spec fn pair_walk_back(pairs: Seq<(ModuleId, ModuleId)>, u: ModuleId, w: Seq<ModuleId>) -> bool {
    &&& w.len() >= 2
    &&& w[0] == u
    &&& w.last() == u
    &&& forall|i: int| 0 <= i < w.len() - 1 ==> #[trigger] has_pair(pairs, w[i], w[i + 1])
}

/// The modules that can walk their imports back to themselves (those on an import cycle),
/// each listed once.
pub fn circular_imports(pairs: &Vec<(ModuleId, ModuleId)>) -> (modules: Vec<ModuleId>)
    ensures
        modules@.no_duplicates(),
        forall|u: ModuleId| #[trigger] modules@.contains(u) <==> exists|w: Seq<ModuleId>| #[trigger] pair_walk_back(pairs@, u, w),
{
    let graph = import_graph(pairs);
    let modules = circular_import_modules(&graph);
    proof {
        assert forall|u: ModuleId| #[trigger] modules@.contains(u) <==> exists|w: Seq<ModuleId>| #[trigger] pair_walk_back(pairs@, u, w) by {
            lemma_circular_iff_walk_back(graph@, u);
            assert(modules@.contains(u) <==> modules@.to_set().contains(u));
            if exists|w: Seq<ModuleId>| #[trigger] closed_walk(graph@, u, w) {
                let w = choose|w: Seq<ModuleId>| #[trigger] closed_walk(graph@, u, w);
                assert forall|i: int| 0 <= i < w.len() - 1 implies #[trigger] has_pair(pairs@, w[i], w[i + 1]) by {
                    assert(step(graph@, w, i));
                }
                assert(pair_walk_back(pairs@, u, w));
            }
            if exists|w: Seq<ModuleId>| #[trigger] pair_walk_back(pairs@, u, w) {
                let w = choose|w: Seq<ModuleId>| #[trigger] pair_walk_back(pairs@, u, w);
                assert forall|i: int| 0 <= i < w.len() - 1 implies #[trigger] step(graph@, w, i) by {
                    assert(has_pair(pairs@, w[i], w[i + 1]));
                }
                assert(closed_walk(graph@, u, w));
            }
        }
    }
    modules
}

} // verus!
