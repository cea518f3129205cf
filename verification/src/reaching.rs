//! Which bindings may reach a reference, and which references a binding may reach.
use vstd::prelude::*;

use crate::ids::{BindingId, BindingSetId, SymbolId};
use crate::semantic::{LocalReachability, ReferenceBindingState, ReferenceFact, Resolution, SemanticGraph};

verus! {

/// The binding set is the first of the graph's sets with this id.
pub open spec fn is_first_set(g: SemanticGraph, id: BindingSetId, k: int) -> bool {
    &&& 0 <= k < g.binding_sets@.len()
    &&& g.binding_sets@[k].id == id
    &&& forall|j: int| 0 <= j < k ==> (#[trigger] g.binding_sets@[j]).id != id
}

/// The bindings the graph records for a binding set id: those of the first set with the id,
/// none if there is no such set.
pub open spec fn set_bindings(g: SemanticGraph, id: BindingSetId) -> Seq<BindingId> {
    if exists|k: int| is_first_set(g, id, k) {
        g.binding_sets@[choose|k: int| is_first_set(g, id, k)].bindings@
    } else {
        Seq::empty()
    }
}

/// The bindings of a symbol anywhere in the graph.
pub open spec fn symbol_bindings(g: SemanticGraph, symbol: SymbolId) -> Set<BindingId> {
    Set::new(|b: BindingId| exists|i: int| 0 <= i < g.bindings@.len() && (#[trigger] g.bindings@[i]).symbol == symbol && g.bindings@[i].id == b)
}

/// The bindings that may reach a reference: none unless flow analysis reached it; those of
/// its binding set, or, when that set is empty, every binding of the symbol it resolves to.
pub open spec fn reaching_set(g: SemanticGraph, r: ReferenceFact) -> Set<BindingId> {
    match r.binding_state {
        ReferenceBindingState::Analyzed(state) => {
            if state.reachability == LocalReachability::Unreachable {
                Set::empty()
            } else if set_bindings(g, state.bindings).len() > 0 {
                set_bindings(g, state.bindings).to_set()
            } else {
                match r.lexical_target {
                    Resolution::Resolved(symbol) => symbol_bindings(g, symbol),
                    _ => Set::empty(),
                }
            }
        },
        _ => Set::empty(),
    }
}

/// Binding ids in strictly increasing order.
pub open spec fn strictly_increasing(s: Seq<BindingId>) -> bool {
    forall|i: int, j: int| 0 <= i < j < s.len() ==> (#[trigger] s[i]).0 < (#[trigger] s[j]).0
}

/// Adds a binding to a strictly increasing list, keeping it so.
fn insert_sorted(list: &mut Vec<BindingId>, x: BindingId)
    requires
        strictly_increasing(old(list)@),
    ensures
        strictly_increasing(final(list)@),
        final(list)@.to_set() == old(list)@.to_set().insert(x),
{
    let ghost before = list@;
    let mut i: usize = 0;
    while i < list.len() && list[i].0 < x.0
        invariant
            0 <= i <= list@.len(),
            list@ == before,
            strictly_increasing(before),
            forall|j: int| 0 <= j < i ==> (#[trigger] before[j]).0 < x.0,
        decreases list@.len() - i,
    {
        i = i + 1;
    }
    if i < list.len() && list[i].0 == x.0 {
        proof {
            assert(before[i as int] == x);
            assert(before.contains(x));
            assert(before.to_set().insert(x) =~= before.to_set());
        }
        return;
    }
    list.insert(i, x);
    proof {
        assert(list@ =~= before.subrange(0, i as int).push(x) + before.subrange(i as int, before.len() as int));
        assert forall|a: int, b: int| 0 <= a < b < list@.len() implies (#[trigger] list@[a]).0 < (#[trigger] list@[b]).0 by {
            if b < i {
                assert(list@[a] == before[a] && list@[b] == before[b]);
            } else if b == i {
                assert(list@[a] == before[a]);
            } else if a == i {
                assert(list@[b] == before[b - 1]);
                assert(before[b - 1].0 >= x.0 || b - 1 < i);
                if b - 1 > i {
                    assert(before[i as int].0 < before[b - 1].0);
                }
            } else if a < i {
                assert(list@[a] == before[a] && list@[b] == before[b - 1]);
            } else {
                assert(list@[a] == before[a - 1] && list@[b] == before[b - 1]);
            }
        }
        assert forall|y: BindingId| #[trigger] list@.to_set().contains(y) <==> before.to_set().insert(x).contains(y) by {
            if list@.contains(y) {
                let k = choose|k: int| 0 <= k < list@.len() && list@[k] == y;
                if k < i {
                    assert(before[k] == y);
                } else if k > i {
                    assert(before[k - 1] == y);
                }
            }
            if before.contains(y) {
                let k = choose|k: int| 0 <= k < before.len() && before[k] == y;
                if k < i {
                    assert(list@[k] == y);
                } else {
                    assert(list@[k + 1] == y);
                }
            }
            if y == x {
                assert(list@[i as int] == x);
            }
        }
        assert(list@.to_set() =~= before.to_set().insert(x));
    }
}

/// Where the first binding set with the id is, if there is one.
fn first_set(g: &SemanticGraph, id: BindingSetId) -> (k: Option<usize>)
    ensures
        match k {
            Some(k) => is_first_set(*g, id, k as int) && set_bindings(*g, id) == g.binding_sets@[k as int].bindings@,
            None => set_bindings(*g, id) == Seq::<BindingId>::empty(),
        },
{
    let mut k: usize = 0;
    while k < g.binding_sets.len()
        invariant
            0 <= k <= g.binding_sets@.len(),
            forall|j: int| 0 <= j < k ==> (#[trigger] g.binding_sets@[j]).id != id,
        decreases g.binding_sets@.len() - k,
    {
        if g.binding_sets[k].id.0 == id.0 {
            proof {
                assert(is_first_set(*g, id, k as int));
                let c = choose|c: int| is_first_set(*g, id, c);
                if c < k {
                    assert(g.binding_sets@[c].id != id);
                }
                if c > k {
                    assert(g.binding_sets@[k as int].id != id);
                }
            }
            return Some(k);
        }
        k = k + 1;
    }
    proof {
        if exists|c: int| is_first_set(*g, id, c) {
            let c = choose|c: int| is_first_set(*g, id, c);
            assert(g.binding_sets@[c].id != id);
        }
    }
    None
}

/// The bindings that may reach the reference, each once, in increasing order.
pub fn reaching_bindings(g: &SemanticGraph, r: &ReferenceFact) -> (out: Vec<BindingId>)
    ensures
        strictly_increasing(out@),
        out@.to_set() == reaching_set(*g, *r),
{
    let state = match r.binding_state {
        ReferenceBindingState::Analyzed(state) => state,
        _ => {
            return Vec::new();
        },
    };
    let mut out: Vec<BindingId> = Vec::new();
    proof {
        assert(out@.to_set() =~= Set::<BindingId>::empty());
    }
    if let LocalReachability::Unreachable = state.reachability {
        return out;
    }
    let mut from_set = false;
    if let Some(k) = first_set(g, state.bindings) {
        let bindings = &g.binding_sets[k].bindings;
        if bindings.len() > 0 {
            from_set = true;
            let mut i: usize = 0;
            while i < bindings.len()
                invariant
                    0 <= i <= bindings@.len(),
                    strictly_increasing(out@),
                    out@.to_set() == bindings@.take(i as int).to_set(),
                decreases bindings@.len() - i,
            {
                insert_sorted(&mut out, bindings[i]);
                proof {
                    assert(bindings@.take(i + 1) =~= bindings@.take(i as int).push(bindings@[i as int]));
                    bindings@.take(i as int).lemma_push_to_set_commute(bindings@[i as int]);
                }
                i = i + 1;
            }
            proof {
                assert(bindings@.take(bindings@.len() as int) =~= bindings@);
            }
        }
    }
    if !from_set {
        if let Resolution::Resolved(symbol) = &r.lexical_target {
            let symbol = *symbol;
            let mut i: usize = 0;
            while i < g.bindings.len()
                invariant
                    0 <= i <= g.bindings@.len(),
                    strictly_increasing(out@),
                    out@.to_set() == Set::new(
                        |b: BindingId|
                            exists|j: int| 0 <= j < i && (#[trigger] g.bindings@[j]).symbol == symbol && g.bindings@[j].id == b,
                    ),
                decreases g.bindings@.len() - i,
            {
                let ghost before = out@.to_set();
                if g.bindings[i].symbol.0 == symbol.0 {
                    insert_sorted(&mut out, g.bindings[i].id);
                }
                proof {
                    assert(out@.to_set() =~= Set::new(
                        |b: BindingId|
                            exists|j: int| 0 <= j < i + 1 && (#[trigger] g.bindings@[j]).symbol == symbol && g.bindings@[j].id == b,
                    ));
                }
                i = i + 1;
            }
            proof {
                assert(out@.to_set() =~= symbol_bindings(*g, symbol));
            }
        }
    }
    out
}

/// Whether the strictly increasing list holds `x`.
fn holds_binding(list: &Vec<BindingId>, x: BindingId) -> (yes: bool)
    ensures
        yes == list@.to_set().contains(x),
{
    let mut i: usize = 0;
    while i < list.len()
        invariant
            0 <= i <= list@.len(),
            forall|j: int| 0 <= j < i ==> (#[trigger] list@[j]) != x,
        decreases list@.len() - i,
    {
        if list[i].0 == x.0 {
            proof {
                assert(list@.contains(list@[i as int]));
            }
            return true;
        }
        i = i + 1;
    }
    false
}

/// The positions, in order, of the references of the graph that `binding` may reach.
pub fn references_reaching(g: &SemanticGraph, binding: BindingId) -> (out: Vec<usize>)
    ensures
        forall|i: int, j: int| 0 <= i < j < out@.len() ==> out@[i] < out@[j],
        forall|k: int| 0 <= k < out@.len() ==> out@[k] < g.references@.len(),
        forall|k: int|
            0 <= k < g.references@.len() ==> (out@.contains(k as usize) <==> reaching_set(*g, #[trigger] g.references@[k]).contains(
                binding,
            )),
{
    let mut out: Vec<usize> = Vec::new();
    let mut i: usize = 0;
    while i < g.references.len()
        invariant
            0 <= i <= g.references@.len(),
            forall|a: int, b: int| 0 <= a < b < out@.len() ==> out@[a] < out@[b],
            forall|k: int| 0 <= k < out@.len() ==> out@[k] < i,
            forall|k: int|
                0 <= k < i ==> (out@.contains(k as usize) <==> reaching_set(*g, #[trigger] g.references@[k]).contains(binding)),
        decreases g.references@.len() - i,
    {
        let reaching = reaching_bindings(g, &g.references[i]);
        let ghost before = out@;
        if holds_binding(&reaching, binding) {
            out.push(i);
        }
        proof {
            assert forall|k: int|
                0 <= k < i + 1 implies (out@.contains(k as usize) <==> reaching_set(*g, #[trigger] g.references@[k]).contains(
                binding,
            )) by {
                if k < i {
                    if out@.contains(k as usize) {
                        let t = choose|t: int| 0 <= t < out@.len() && out@[t] == k as usize;
                        if t < before.len() {
                            assert(before[t] == k as usize);
                        }
                    }
                    if before.contains(k as usize) {
                        let t = choose|t: int| 0 <= t < before.len() && before[t] == k as usize;
                        assert(out@[t] == k as usize);
                    }
                } else {
                    if out@.contains(k as usize) {
                        let t = choose|t: int| 0 <= t < out@.len() && out@[t] == k as usize;
                        if t < before.len() {
                            assert(before[t] < i);
                        }
                    }
                    if reaching_set(*g, g.references@[k]).contains(binding) {
                        assert(out@[before.len() as int] == i);
                    }
                }
            }
        }
        i = i + 1;
    }
    out
}

} // verus!
