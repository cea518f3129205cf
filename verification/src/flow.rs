//! The facts that flow analysis tracks along a module's control flow: for each symbol, the
//! bindings that may reach a point, what may remain to be looked up at run time, and what
//! makes the answer uncertain; how paths join; and what a lookup finds.
use vstd::prelude::*;

use crate::candidates::copy_values;
use crate::ids::{BindingId, ScopeId, SymbolId};
use crate::semantic::{BindingKind, ContextKind, FlowUncertaintyKind, ResidualLookup, ScopeKind};

verus! {

/// What may remain to be looked up when a symbol's slot is read.
#[derive(Clone, Copy, Debug, PartialEq, Eq, Structural)]
pub enum SlotResidual {
    Unbound,
    RuntimeGlobalThenBuiltin,
    RuntimeFreeVariable,
    BuiltinOrNameError,
}

/// What a symbol's slot holds at a program point. The lists are sets: order and repetition
/// carry no meaning.
#[derive(Debug)]
pub struct SlotState {
    pub bindings: Vec<BindingId>,
    pub residuals: Vec<SlotResidual>,
    pub uncertainties: Vec<FlowUncertaintyKind>,
}

/// A slot as sets.
#[verifier::ext_equal]
pub struct SlotView {
    pub bindings: Set<BindingId>,
    pub residuals: Set<SlotResidual>,
    pub uncertainties: Set<FlowUncertaintyKind>,
}

/// The sets a slot holds.
pub open spec fn slot_view(s: SlotState) -> SlotView {
    SlotView {
        bindings: s.bindings@.to_set(),
        residuals: s.residuals@.to_set(),
        uncertainties: s.uncertainties@.to_set(),
    }
}

/// Two slots joined: everything either may hold.
pub open spec fn slot_join(a: SlotView, b: SlotView) -> SlotView {
    SlotView {
        bindings: a.bindings + b.bindings,
        residuals: a.residuals + b.residuals,
        uncertainties: a.uncertainties + b.uncertainties,
    }
}

/// Pushing an element, or keeping a list that already holds it, inserts it into the set.
proof fn lemma_push_or_keep<A>(before: Seq<A>, after: Seq<A>, x: A)
    requires
        after == before.push(x) || (after == before && before.contains(x)),
    ensures
        after.to_set() == before.to_set().insert(x),
{
    before.lemma_push_to_set_commute(x);
    if after == before {
        assert(before.to_set().insert(x) =~= before.to_set());
    }
}

/// One more element of a prefix inserts that element into the prefix's set.
proof fn lemma_take_step<A>(s: Seq<A>, k: int)
    requires
        0 <= k < s.len(),
    ensures
        s.take(k + 1).to_set() == s.take(k).to_set().insert(s[k]),
{
    assert(s.take(k + 1) =~= s.take(k).push(s[k]));
    s.take(k).lemma_push_to_set_commute(s[k]);
}

/// The set of a one-element list.
proof fn lemma_singleton_to_set<A>(x: A)
    ensures
        seq![x].to_set() == set![x],
{
    Seq::<A>::empty().lemma_push_to_set_commute(x);
    assert(Seq::<A>::empty().to_set() =~= Set::<A>::empty());
    assert(seq![x] =~= Seq::<A>::empty().push(x));
    assert(set![x] =~= Set::<A>::empty().insert(x));
}

fn union_bindings(into: &mut Vec<BindingId>, from: &Vec<BindingId>)
    ensures
        final(into)@.to_set() == old(into)@.to_set() + from@.to_set(),
{
    let mut k: usize = 0;
    while k < from.len()
        invariant
            0 <= k <= from@.len(),
            into@.to_set() == old(into)@.to_set() + from@.take(k as int).to_set(),
        decreases from@.len() - k,
    {
        let x = from[k];
        let mut found = false;
        let mut j: usize = 0;
        while j < into.len()
            invariant
                0 <= j <= into@.len(),
                found == exists|t: int| 0 <= t < j && into@[t] == x,
            decreases into@.len() - j,
        {
            if into[j] == x {
                found = true;
            }
            j = j + 1;
        }
        let ghost before = into@;
        if !found {
            into.push(x);
        }
        proof {
            if found {
                let t = choose|t: int| 0 <= t < before.len() && before[t] == x;
                assert(before.contains(x));
            }
            lemma_push_or_keep(before, into@, x);
            lemma_take_step(from@, k as int);
        }
        k = k + 1;
    }
    proof {
        assert(from@.take(from@.len() as int) =~= from@);
    }
}

fn union_residuals(into: &mut Vec<SlotResidual>, from: &Vec<SlotResidual>)
    ensures
        final(into)@.to_set() == old(into)@.to_set() + from@.to_set(),
{
    let mut k: usize = 0;
    while k < from.len()
        invariant
            0 <= k <= from@.len(),
            into@.to_set() == old(into)@.to_set() + from@.take(k as int).to_set(),
        decreases from@.len() - k,
    {
        let x = from[k];
        let ghost before = into@;
        if !contains_residual(into, x) {
            into.push(x);
        }
        proof {
            lemma_push_or_keep(before, into@, x);
            lemma_take_step(from@, k as int);
        }
        k = k + 1;
    }
    proof {
        assert(from@.take(from@.len() as int) =~= from@);
    }
}

fn union_uncertainties(into: &mut Vec<FlowUncertaintyKind>, from: &Vec<FlowUncertaintyKind>)
    ensures
        final(into)@.to_set() == old(into)@.to_set() + from@.to_set(),
{
    let mut k: usize = 0;
    while k < from.len()
        invariant
            0 <= k <= from@.len(),
            into@.to_set() == old(into)@.to_set() + from@.take(k as int).to_set(),
        decreases from@.len() - k,
    {
        let x = from[k];
        let ghost before = into@;
        insert_uncertainty(into, x);
        proof {
            lemma_take_step(from@, k as int);
        }
        k = k + 1;
    }
    proof {
        assert(from@.take(from@.len() as int) =~= from@);
    }
}

/// Whether `x` is in the list.
fn contains_residual(list: &Vec<SlotResidual>, x: SlotResidual) -> (yes: bool)
    ensures
        yes == list@.contains(x),
{
    let mut j: usize = 0;
    while j < list.len()
        invariant
            0 <= j <= list@.len(),
            forall|t: int| 0 <= t < j ==> list@[t] != x,
        decreases list@.len() - j,
    {
        if list[j] == x {
            return true;
        }
        j = j + 1;
    }
    false
}

/// Adds an uncertainty to a set of them.
fn insert_uncertainty(list: &mut Vec<FlowUncertaintyKind>, x: FlowUncertaintyKind)
    ensures
        final(list)@.to_set() == old(list)@.to_set().insert(x),
{
    let mut j: usize = 0;
    let mut found = false;
    while j < list.len()
        invariant
            0 <= j <= list@.len(),
            found == exists|t: int| 0 <= t < j && list@[t] == x,
        decreases list@.len() - j,
    {
        if list[j] == x {
            found = true;
        }
        j = j + 1;
    }
    let ghost before = list@;
    if !found {
        list.push(x);
    }
    proof {
        if found {
            let t = choose|t: int| 0 <= t < before.len() && before[t] == x;
            assert(before.contains(x));
        }
        lemma_push_or_keep(before, list@, x);
    }
}

impl SlotState {
    /// A slot holding exactly one binding.
    pub fn known(binding: BindingId) -> (s: Self)
        ensures
            slot_view(s).bindings == set![binding],
            slot_view(s).residuals == Set::<SlotResidual>::empty(),
            slot_view(s).uncertainties == Set::<FlowUncertaintyKind>::empty(),
    {
        let mut bindings: Vec<BindingId> = Vec::new();
        bindings.push(binding);
        proof {
            assert(bindings@ =~= seq![binding]);
            lemma_singleton_to_set(binding);
            assert(Seq::<SlotResidual>::empty().to_set() =~= Set::<SlotResidual>::empty());
            assert(Seq::<FlowUncertaintyKind>::empty().to_set() =~= Set::<FlowUncertaintyKind>::empty());
        }
        SlotState { bindings, residuals: Vec::new(), uncertainties: Vec::new() }
    }

    /// A slot with no binding and the residual `r`.
    pub fn residual_only(r: SlotResidual) -> (s: Self)
        ensures
            slot_view(s).bindings == Set::<BindingId>::empty(),
            slot_view(s).residuals == set![r],
            slot_view(s).uncertainties == Set::<FlowUncertaintyKind>::empty(),
    {
        let mut residuals: Vec<SlotResidual> = Vec::new();
        residuals.push(r);
        proof {
            assert(residuals@ =~= seq![r]);
            lemma_singleton_to_set(r);
            assert(Seq::<BindingId>::empty().to_set() =~= Set::<BindingId>::empty());
            assert(Seq::<FlowUncertaintyKind>::empty().to_set() =~= Set::<FlowUncertaintyKind>::empty());
        }
        SlotState { bindings: Vec::new(), residuals, uncertainties: Vec::new() }
    }

    /// An unbound slot.
    pub fn unbound() -> (s: Self)
        ensures
            slot_view(s).bindings == Set::<BindingId>::empty(),
            slot_view(s).residuals == set![SlotResidual::Unbound],
            slot_view(s).uncertainties == Set::<FlowUncertaintyKind>::empty(),
    {
        SlotState::residual_only(SlotResidual::Unbound)
    }

    /// A global read before any local binding: looked up at run time, then in builtins.
    pub fn runtime_global() -> (s: Self)
        ensures
            slot_view(s).bindings == Set::<BindingId>::empty(),
            slot_view(s).residuals == set![SlotResidual::RuntimeGlobalThenBuiltin],
            slot_view(s).uncertainties == Set::<FlowUncertaintyKind>::empty(),
    {
        SlotState::residual_only(SlotResidual::RuntimeGlobalThenBuiltin)
    }

    /// A free variable of an enclosing scope, looked up at run time.
    pub fn runtime_free() -> (s: Self)
        ensures
            slot_view(s).bindings == Set::<BindingId>::empty(),
            slot_view(s).residuals == set![SlotResidual::RuntimeFreeVariable],
            slot_view(s).uncertainties == Set::<FlowUncertaintyKind>::empty(),
    {
        SlotState::residual_only(SlotResidual::RuntimeFreeVariable)
    }

    /// A copy of the slot.
    pub fn copy(&self) -> (s: Self)
        ensures
            s.bindings@ == self.bindings@,
            s.residuals@ == self.residuals@,
            s.uncertainties@ == self.uncertainties@,
    {
        SlotState {
            bindings: copy_values(&self.bindings),
            residuals: copy_values(&self.residuals),
            uncertainties: copy_values(&self.uncertainties),
        }
    }

    /// Joins another slot into this one.
    pub fn join_assign(&mut self, other: &SlotState)
        ensures
            slot_view(*final(self)) == slot_join(slot_view(*old(self)), slot_view(*other)),
    {
        union_bindings(&mut self.bindings, &other.bindings);
        union_residuals(&mut self.residuals, &other.residuals);
        union_uncertainties(&mut self.uncertainties, &other.uncertainties);
    }

    /// The slot may be unbound.
    pub fn may_be_unbound(&self) -> (yes: bool)
        ensures
            yes == slot_view(*self).residuals.contains(SlotResidual::Unbound),
    {
        contains_residual(&self.residuals, SlotResidual::Unbound)
    }
}

// ----- lookups -----

/// How a name is looked up: in its own scope, or in the globals then the builtins.
#[derive(Clone, Copy, Debug, PartialEq, Eq, Structural)]
pub enum LookupMode {
    Direct,
    GlobalThenBuiltin,
}

/// What remains to be looked up after a read of a slot: a run-time global lookup first, then
/// a run-time free variable, then builtins, then an unbound name (an unbound local for a
/// direct lookup, a builtin or `NameError` after the globals); otherwise nothing.
pub open spec fn residual_of(residuals: Set<SlotResidual>, mode: LookupMode) -> ResidualLookup {
    if residuals.contains(SlotResidual::RuntimeGlobalThenBuiltin) {
        ResidualLookup::RuntimeGlobalThenBuiltin
    } else if residuals.contains(SlotResidual::RuntimeFreeVariable) {
        ResidualLookup::RuntimeFreeVariable
    } else if residuals.contains(SlotResidual::BuiltinOrNameError) {
        ResidualLookup::BuiltinOrNameError
    } else if residuals.contains(SlotResidual::Unbound) {
        match mode {
            LookupMode::Direct => ResidualLookup::UnboundLocal,
            LookupMode::GlobalThenBuiltin => ResidualLookup::BuiltinOrNameError,
        }
    } else {
        ResidualLookup::NoResidual
    }
}

/// What remains to be looked up after a read of the slot.
pub fn residual_for_slot(slot: &SlotState, mode: LookupMode) -> (r: ResidualLookup)
    ensures
        r == residual_of(slot_view(*slot).residuals, mode),
{
    if contains_residual(&slot.residuals, SlotResidual::RuntimeGlobalThenBuiltin) {
        return ResidualLookup::RuntimeGlobalThenBuiltin;
    }
    if contains_residual(&slot.residuals, SlotResidual::RuntimeFreeVariable) {
        return ResidualLookup::RuntimeFreeVariable;
    }
    if contains_residual(&slot.residuals, SlotResidual::BuiltinOrNameError) {
        return ResidualLookup::BuiltinOrNameError;
    }
    if contains_residual(&slot.residuals, SlotResidual::Unbound) {
        return match mode {
            LookupMode::Direct => ResidualLookup::UnboundLocal,
            LookupMode::GlobalThenBuiltin => ResidualLookup::BuiltinOrNameError,
        };
    }
    ResidualLookup::NoResidual
}

/// What a lookup through a class body finds: the class slot's bindings and uncertainty and,
/// when the class slot may be unbound, those of the global slot too, with what remains after
/// the globals; otherwise nothing remains.
pub open spec fn class_lookup(class: SlotView, global: SlotView) -> (Set<BindingId>, ResidualLookup, Set<FlowUncertaintyKind>) {
    if class.residuals.contains(SlotResidual::Unbound) {
        (
            class.bindings + global.bindings,
            residual_of(global.residuals, LookupMode::GlobalThenBuiltin),
            class.uncertainties + global.uncertainties,
        )
    } else {
        (class.bindings, ResidualLookup::NoResidual, class.uncertainties)
    }
}

/// The bindings, residual and uncertainty of a lookup through a class body.
pub fn class_lookup_parts(class: &SlotState, global: &SlotState) -> (r: (Vec<BindingId>, ResidualLookup, Vec<FlowUncertaintyKind>))
    ensures
        (r.0@.to_set(), r.1, r.2@.to_set()) == class_lookup(slot_view(*class), slot_view(*global)),
{
    let mut bindings = copy_values(&class.bindings);
    let mut uncertainties = copy_values(&class.uncertainties);
    let mut residual = ResidualLookup::NoResidual;
    if class.may_be_unbound() {
        union_bindings(&mut bindings, &global.bindings);
        union_uncertainties(&mut uncertainties, &global.uncertainties);
        residual = residual_for_slot(global, LookupMode::GlobalThenBuiltin);
    }
    (bindings, residual, uncertainties)
}

/// The slot a symbol has before anything is written to it on a path: unbound in its own
/// scope or in a module or class body reading a module-level symbol, a run-time global in
/// other bodies reading a module-level symbol, and a free variable otherwise.
pub open spec fn default_residual(
    current_scope: Option<ScopeId>,
    symbol_scope: Option<ScopeId>,
    symbol_scope_kind: Option<ScopeKind>,
    context_kind: Option<ContextKind>,
) -> SlotResidual {
    if current_scope is Some && symbol_scope is Some && current_scope == symbol_scope {
        SlotResidual::Unbound
    } else if symbol_scope is Some && symbol_scope_kind == Some(ScopeKind::Module) {
        if context_kind == Some(ContextKind::ModuleBody) || context_kind == Some(ContextKind::ClassBody) {
            SlotResidual::Unbound
        } else {
            SlotResidual::RuntimeGlobalThenBuiltin
        }
    } else {
        SlotResidual::RuntimeFreeVariable
    }
}

/// The slot a symbol has before anything is written to it on a path.
pub fn default_slot(
    current_scope: Option<ScopeId>,
    symbol_scope: Option<ScopeId>,
    symbol_scope_kind: Option<ScopeKind>,
    context_kind: Option<ContextKind>,
) -> (s: SlotState)
    ensures
        slot_view(s).bindings == Set::<BindingId>::empty(),
        slot_view(s).residuals == set![default_residual(current_scope, symbol_scope, symbol_scope_kind, context_kind)],
        slot_view(s).uncertainties == Set::<FlowUncertaintyKind>::empty(),
{
    let same = match (current_scope, symbol_scope) {
        (Some(a), Some(b)) => a.0 == b.0,
        _ => false,
    };
    if same {
        return SlotState::unbound();
    }
    let module_symbol = match (symbol_scope, symbol_scope_kind) {
        (Some(_), Some(ScopeKind::Module)) => true,
        _ => false,
    };
    if module_symbol {
        let body = match context_kind {
            Some(ContextKind::ModuleBody) | Some(ContextKind::ClassBody) => true,
            _ => false,
        };
        if body {
            SlotState::unbound()
        } else {
            SlotState::runtime_global()
        }
    } else {
        SlotState::runtime_free()
    }
}

// ----- environments -----

/// The slots of every symbol written so far on a path, and whether the path can run at all.
/// No symbol has two slots.
#[derive(Debug)]
pub struct FlowEnv {
    pub reachable: bool,
    pub slots: Vec<(SymbolId, SlotState)>,
}

/// An environment as a map from symbols to slots.
#[verifier::ext_equal]
pub struct EnvView {
    pub reachable: bool,
    pub slots: Map<SymbolId, SlotView>,
}

/// Whether the list holds a slot of `k`.
pub open spec fn has_key(s: Seq<(SymbolId, SlotState)>, k: SymbolId) -> bool {
    exists|i: int| 0 <= i < s.len() && (#[trigger] s[i]).0 == k
}

/// No symbol has two slots in the list.
pub open spec fn keys_distinct(s: Seq<(SymbolId, SlotState)>) -> bool {
    forall|i: int, j: int| 0 <= i < j < s.len() ==> (#[trigger] s[i]).0 != (#[trigger] s[j]).0
}

/// The list's slots by symbol.
pub open spec fn slots_map(s: Seq<(SymbolId, SlotState)>) -> Map<SymbolId, SlotView> {
    Map::new(
        |k: SymbolId| has_key(s, k),
        |k: SymbolId| slot_view(s[choose|i: int| 0 <= i < s.len() && (#[trigger] s[i]).0 == k].1),
    )
}

/// The environment as a map.
pub open spec fn env_view(e: FlowEnv) -> EnvView {
    EnvView { reachable: e.reachable, slots: slots_map(e.slots@) }
}

/// The environment is well formed: no symbol has two slots.
pub open spec fn env_wf(e: FlowEnv) -> bool {
    keys_distinct(e.slots@)
}

/// Two slot maps joined: a symbol slotted on one side keeps its slot, one slotted on both
/// sides gets the join of the two.
pub open spec fn slots_join(a: Map<SymbolId, SlotView>, b: Map<SymbolId, SlotView>) -> Map<SymbolId, SlotView> {
    Map::new(
        |k: SymbolId| a.dom().contains(k) || b.dom().contains(k),
        |k: SymbolId|
            if a.dom().contains(k) && b.dom().contains(k) {
                slot_join(a[k], b[k])
            } else if a.dom().contains(k) {
                a[k]
            } else {
                b[k]
            },
    )
}

/// Two environments joined where paths meet: an unreachable side contributes nothing (when
/// both are unreachable the second is kept); otherwise the slots are joined.
pub open spec fn env_join(a: EnvView, b: EnvView) -> EnvView {
    if !a.reachable {
        b
    } else if !b.reachable {
        a
    } else {
        EnvView { reachable: true, slots: slots_join(a.slots, b.slots) }
    }
}

/// The slot at an index is what the map gives for its symbol.
proof fn lemma_slots_map_index(s: Seq<(SymbolId, SlotState)>, i: int)
    requires
        keys_distinct(s),
        0 <= i < s.len(),
    ensures
        slots_map(s).dom().contains(s[i].0),
        slots_map(s)[s[i].0] == slot_view(s[i].1),
{
    let k = s[i].0;
    assert(has_key(s, k));
    let c = choose|j: int| 0 <= j < s.len() && (#[trigger] s[j]).0 == k;
    assert(c == i);
}

/// Replacing the slot at an index replaces the map's value for its symbol.
proof fn lemma_slots_map_update(s: Seq<(SymbolId, SlotState)>, i: int, v: SlotState)
    requires
        keys_distinct(s),
        0 <= i < s.len(),
    ensures
        keys_distinct(s.update(i, (s[i].0, v))),
        slots_map(s.update(i, (s[i].0, v))) == slots_map(s).insert(s[i].0, slot_view(v)),
{
    let t = s.update(i, (s[i].0, v));
    assert(keys_distinct(t)) by {
        assert forall|a: int, b: int| 0 <= a < b < t.len() implies (#[trigger] t[a]).0 != (#[trigger] t[b]).0 by {
            assert(t[a].0 == s[a].0 && t[b].0 == s[b].0);
        }
    }
    let m = slots_map(s).insert(s[i].0, slot_view(v));
    assert forall|k: SymbolId| #[trigger] slots_map(t).dom().contains(k) <==> m.dom().contains(k) by {
        if has_key(t, k) {
            let j = choose|j: int| 0 <= j < t.len() && (#[trigger] t[j]).0 == k;
            assert(s[j].0 == k);
            assert(has_key(s, k) || k == s[i].0);
        }
        if has_key(s, k) {
            let j = choose|j: int| 0 <= j < s.len() && (#[trigger] s[j]).0 == k;
            assert(t[j].0 == k);
        }
        if k == s[i].0 {
            assert(t[i].0 == k);
        }
    }
    assert forall|k: SymbolId| #[trigger] slots_map(t).dom().contains(k) implies slots_map(t)[k] == m[k] by {
        let j = choose|j: int| 0 <= j < t.len() && (#[trigger] t[j]).0 == k;
        lemma_slots_map_index(t, j);
        if j == i {
        } else {
            assert(t[j] == s[j]);
            lemma_slots_map_index(s, j);
        }
    }
    assert(slots_map(t) =~= m);
}

/// Appending a slot for a new symbol adds it to the map.
proof fn lemma_slots_map_push(s: Seq<(SymbolId, SlotState)>, k: SymbolId, v: SlotState)
    requires
        keys_distinct(s),
        !has_key(s, k),
    ensures
        keys_distinct(s.push((k, v))),
        slots_map(s.push((k, v))) == slots_map(s).insert(k, slot_view(v)),
{
    let t = s.push((k, v));
    assert(keys_distinct(t)) by {
        assert forall|a: int, b: int| 0 <= a < b < t.len() implies (#[trigger] t[a]).0 != (#[trigger] t[b]).0 by {
            assert(t[a] == s[a]);
            if b < s.len() {
                assert(t[b] == s[b]);
            }
        }
    }
    let m = slots_map(s).insert(k, slot_view(v));
    assert forall|q: SymbolId| #[trigger] slots_map(t).dom().contains(q) <==> m.dom().contains(q) by {
        if has_key(t, q) {
            let j = choose|j: int| 0 <= j < t.len() && (#[trigger] t[j]).0 == q;
            if j < s.len() {
                assert(s[j].0 == q);
            }
        }
        if has_key(s, q) {
            let j = choose|j: int| 0 <= j < s.len() && (#[trigger] s[j]).0 == q;
            assert(t[j].0 == q);
        }
        if q == k {
            assert(t[s.len() as int].0 == q);
        }
    }
    assert forall|q: SymbolId| #[trigger] slots_map(t).dom().contains(q) implies slots_map(t)[q] == m[q] by {
        let j = choose|j: int| 0 <= j < t.len() && (#[trigger] t[j]).0 == q;
        lemma_slots_map_index(t, j);
        if j < s.len() {
            assert(t[j] == s[j]);
            lemma_slots_map_index(s, j);
        }
    }
    assert(slots_map(t) =~= m);
}

/// Lists with the same symbols in the same places and slots of the same sets give the same map.
proof fn lemma_slots_map_same(s: Seq<(SymbolId, SlotState)>, t: Seq<(SymbolId, SlotState)>)
    requires
        keys_distinct(s),
        s.len() == t.len(),
        forall|i: int| 0 <= i < s.len() ==> (#[trigger] t[i]).0 == s[i].0 && slot_view(t[i].1) == slot_view(s[i].1),
    ensures
        keys_distinct(t),
        slots_map(t) == slots_map(s),
{
    assert(keys_distinct(t)) by {
        assert forall|a: int, b: int| 0 <= a < b < t.len() implies (#[trigger] t[a]).0 != (#[trigger] t[b]).0 by {
            assert(t[a].0 == s[a].0 && t[b].0 == s[b].0);
        }
    }
    assert forall|q: SymbolId| #[trigger] slots_map(t).dom().contains(q) <==> slots_map(s).dom().contains(q) by {
        if has_key(t, q) {
            let j = choose|j: int| 0 <= j < t.len() && (#[trigger] t[j]).0 == q;
            assert(s[j].0 == q);
        }
        if has_key(s, q) {
            let j = choose|j: int| 0 <= j < s.len() && (#[trigger] s[j]).0 == q;
            assert(t[j].0 == q);
        }
    }
    assert forall|q: SymbolId| #[trigger] slots_map(t).dom().contains(q) implies slots_map(t)[q] == slots_map(s)[q] by {
        let j = choose|j: int| 0 <= j < t.len() && (#[trigger] t[j]).0 == q;
        lemma_slots_map_index(t, j);
        lemma_slots_map_index(s, j);
    }
    assert(slots_map(t) =~= slots_map(s));
}

/// Where the slot of `k` is in the list, if it has one.
fn find_slot(slots: &Vec<(SymbolId, SlotState)>, k: SymbolId) -> (r: Option<usize>)
    ensures
        match r {
            Some(i) => i < slots@.len() && slots@[i as int].0 == k,
            None => !has_key(slots@, k),
        },
{
    let mut i: usize = 0;
    while i < slots.len()
        invariant
            0 <= i <= slots@.len(),
            forall|j: int| 0 <= j < i ==> (#[trigger] slots@[j]).0 != k,
        decreases slots@.len() - i,
    {
        if slots[i].0.0 == k.0 {
            return Some(i);
        }
        i = i + 1;
    }
    None
}

impl FlowEnv {
    /// A reachable environment with no slot.
    pub fn reachable() -> (e: Self)
        ensures
            env_wf(e),
            env_view(e) == (EnvView { reachable: true, slots: Map::empty() }),
    {
        let e = FlowEnv { reachable: true, slots: Vec::new() };
        assert(slots_map(e.slots@) =~= Map::<SymbolId, SlotView>::empty());
        e
    }

    /// An unreachable environment with no slot.
    pub fn unreachable() -> (e: Self)
        ensures
            env_wf(e),
            env_view(e) == (EnvView { reachable: false, slots: Map::empty() }),
    {
        let e = FlowEnv { reachable: false, slots: Vec::new() };
        assert(slots_map(e.slots@) =~= Map::<SymbolId, SlotView>::empty());
        e
    }

    /// A copy of the environment.
    pub fn copy(&self) -> (e: Self)
        requires
            env_wf(*self),
        ensures
            env_wf(e),
            env_view(e) == env_view(*self),
    {
        let mut slots: Vec<(SymbolId, SlotState)> = Vec::new();
        let mut i: usize = 0;
        while i < self.slots.len()
            invariant
                0 <= i <= self.slots@.len(),
                slots@.len() == i,
                forall|j: int| 0 <= j < i ==> (#[trigger] slots@[j]).0 == self.slots@[j].0
                    && slot_view(slots@[j].1) == slot_view(self.slots@[j].1),
            decreases self.slots@.len() - i,
        {
            let k = self.slots[i].0;
            let state = self.slots[i].1.copy();
            proof {
                assert(slot_view(state) =~= slot_view(self.slots@[i as int].1));
            }
            slots.push((k, state));
            i = i + 1;
        }
        proof {
            lemma_slots_map_same(self.slots@, slots@);
        }
        FlowEnv { reachable: self.reachable, slots }
    }
}

/// Joining a symbol's slot into the second map of a join.
proof fn lemma_slots_join_insert(a: Map<SymbolId, SlotView>, b: Map<SymbolId, SlotView>, k: SymbolId, v: SlotView)
    requires
        !b.dom().contains(k),
    ensures
        slots_join(a, b.insert(k, v)) == slots_join(a, b).insert(
            k,
            if a.dom().contains(k) { slot_join(a[k], v) } else { v },
        ),
{
    assert(slots_join(a, b.insert(k, v)) =~= slots_join(a, b).insert(
        k,
        if a.dom().contains(k) { slot_join(a[k], v) } else { v },
    ));
}

/// The slot a write leaves: unbound after a deletion, the written binding otherwise.
pub open spec fn written_slot(binding: BindingId, kind: BindingKind) -> SlotView {
    if kind == BindingKind::Delete {
        SlotView { bindings: Set::empty(), residuals: set![SlotResidual::Unbound], uncertainties: Set::empty() }
    } else {
        SlotView { bindings: set![binding], residuals: Set::empty(), uncertainties: Set::empty() }
    }
}

/// The slot of an unbound symbol.
pub open spec fn unbound_view() -> SlotView {
    SlotView { bindings: Set::empty(), residuals: set![SlotResidual::Unbound], uncertainties: Set::empty() }
}

/// A slot with one more residual and one more uncertainty.
pub open spec fn with_residual(v: SlotView, residual: SlotResidual, uncertainty: FlowUncertaintyKind) -> SlotView {
    SlotView {
        bindings: v.bindings,
        residuals: v.residuals.insert(residual),
        uncertainties: v.uncertainties.insert(uncertainty),
    }
}

/// A slot with one more uncertainty.
pub open spec fn with_uncertainty(v: SlotView, uncertainty: FlowUncertaintyKind) -> SlotView {
    SlotView { bindings: v.bindings, residuals: v.residuals, uncertainties: v.uncertainties.insert(uncertainty) }
}

/// Lists with the same symbols in the same places, the second's slots carrying one more
/// uncertainty, give the first's map with that uncertainty added to every slot.
proof fn lemma_slots_map_uncertain(s: Seq<(SymbolId, SlotState)>, t: Seq<(SymbolId, SlotState)>, u: FlowUncertaintyKind)
    requires
        keys_distinct(s),
        s.len() == t.len(),
        forall|i: int| 0 <= i < s.len() ==> (#[trigger] t[i]).0 == s[i].0
            && slot_view(t[i].1) == with_uncertainty(slot_view(s[i].1), u),
    ensures
        keys_distinct(t),
        slots_map(t) == Map::new(
            |k: SymbolId| slots_map(s).dom().contains(k),
            |k: SymbolId| with_uncertainty(slots_map(s)[k], u),
        ),
{
    let m = Map::new(
        |k: SymbolId| slots_map(s).dom().contains(k),
        |k: SymbolId| with_uncertainty(slots_map(s)[k], u),
    );
    assert(keys_distinct(t)) by {
        assert forall|a: int, b: int| 0 <= a < b < t.len() implies (#[trigger] t[a]).0 != (#[trigger] t[b]).0 by {
            assert(t[a].0 == s[a].0 && t[b].0 == s[b].0);
        }
    }
    assert forall|q: SymbolId| #[trigger] slots_map(t).dom().contains(q) <==> m.dom().contains(q) by {
        if has_key(t, q) {
            let j = choose|j: int| 0 <= j < t.len() && (#[trigger] t[j]).0 == q;
            assert(s[j].0 == q);
        }
        if has_key(s, q) {
            let j = choose|j: int| 0 <= j < s.len() && (#[trigger] s[j]).0 == q;
            assert(t[j].0 == q);
        }
    }
    assert forall|q: SymbolId| #[trigger] slots_map(t).dom().contains(q) implies slots_map(t)[q] == m[q] by {
        let j = choose|j: int| 0 <= j < t.len() && (#[trigger] t[j]).0 == q;
        lemma_slots_map_index(t, j);
        lemma_slots_map_index(s, j);
    }
    assert(slots_map(t) =~= m);
}

/// Adds a residual to a set of them.
fn insert_residual(list: &mut Vec<SlotResidual>, x: SlotResidual)
    ensures
        final(list)@.to_set() == old(list)@.to_set().insert(x),
{
    let ghost before = list@;
    if !contains_residual(list, x) {
        list.push(x);
    }
    proof {
        lemma_push_or_keep(before, list@, x);
    }
}

impl FlowEnv {
    /// Gives `symbol` the slot `state`.
    fn set_slot(&mut self, symbol: SymbolId, state: SlotState)
        requires
            env_wf(*old(self)),
        ensures
            env_wf(*final(self)),
            final(self).reachable == old(self).reachable,
            slots_map(final(self).slots@) == slots_map(old(self).slots@).insert(symbol, slot_view(state)),
    {
        match find_slot(&self.slots, symbol) {
            Some(i) => {
                proof {
                    lemma_slots_map_update(self.slots@, i as int, state);
                }
                self.slots.set(i, (symbol, state));
            },
            None => {
                proof {
                    lemma_slots_map_push(self.slots@, symbol, state);
                }
                self.slots.push((symbol, state));
            },
        }
    }

    /// The environment where paths from this one and `other` meet.
    pub fn join(&self, other: &FlowEnv) -> (e: FlowEnv)
        requires
            env_wf(*self),
            env_wf(*other),
        ensures
            env_wf(e),
            env_view(e) == env_join(env_view(*self), env_view(*other)),
    {
        if !self.reachable {
            return other.copy();
        }
        if !other.reachable {
            return self.copy();
        }
        let mut joined = self.copy();
        let ghost a = slots_map(self.slots@);
        proof {
            assert(other.slots@.take(0) =~= Seq::<(SymbolId, SlotState)>::empty());
            assert(slots_map(other.slots@.take(0)) =~= Map::<SymbolId, SlotView>::empty());
            assert(slots_join(a, Map::<SymbolId, SlotView>::empty()) =~= a);
        }
        let mut m: usize = 0;
        while m < other.slots.len()
            invariant
                0 <= m <= other.slots@.len(),
                env_wf(*other),
                a == slots_map(self.slots@),
                env_wf(joined),
                joined.reachable,
                slots_map(joined.slots@) == slots_join(a, slots_map(other.slots@.take(m as int))),
            decreases other.slots@.len() - m,
        {
            let k = other.slots[m].0;
            let ghost b = slots_map(other.slots@.take(m as int));
            let ghost v = slot_view(other.slots@[m as int].1);
            proof {
                let pre = other.slots@.take(m as int);
                assert(keys_distinct(pre)) by {
                    assert forall|x: int, y: int| 0 <= x < y < pre.len() implies (#[trigger] pre[x]).0 != (#[trigger] pre[y]).0 by {
                        assert(pre[x] == other.slots@[x] && pre[y] == other.slots@[y]);
                    }
                }
                assert(!has_key(pre, k)) by {
                    if has_key(pre, k) {
                        let j = choose|j: int| 0 <= j < pre.len() && (#[trigger] pre[j]).0 == k;
                        assert(pre[j] == other.slots@[j]);
                    }
                }
                lemma_slots_map_push(pre, k, other.slots@[m as int].1);
                assert(pre.push((k, other.slots@[m as int].1)) =~= other.slots@.take(m + 1));
                lemma_slots_join_insert(a, b, k, v);
            }
            match find_slot(&joined.slots, k) {
                Some(i) => {
                    let mut state = joined.slots[i].1.copy();
                    proof {
                        assert(slot_view(state) =~= slot_view(joined.slots@[i as int].1));
                        lemma_slots_map_index(joined.slots@, i as int);
                    }
                    state.join_assign(&other.slots[m].1);
                    proof {
                        assert(slots_join(a, b).dom().contains(k));
                        assert(!b.dom().contains(k));
                        assert(a.dom().contains(k));
                        assert(slot_view(state) == slot_join(a[k], v));
                        lemma_slots_map_update(joined.slots@, i as int, state);
                    }
                    joined.slots.set(i, (k, state));
                    assert(slots_map(joined.slots@) == slots_join(a, b).insert(k, slot_join(a[k], v)));
                    assert(slots_map(joined.slots@) == slots_join(a, b.insert(k, v)));
                },
                None => {
                    let state = other.slots[m].1.copy();
                    proof {
                        assert(slot_view(state) =~= v);
                        assert(!slots_map(joined.slots@).dom().contains(k));
                        assert(!a.dom().contains(k));
                        lemma_slots_map_push(joined.slots@, k, state);
                    }
                    joined.slots.push((k, state));
                    assert(slots_map(joined.slots@) == slots_join(a, b.insert(k, v)));
                },
            }
            assert(slots_map(other.slots@.take(m + 1)) == b.insert(k, v));
            m = m + 1;
        }
        proof {
            assert(other.slots@.take(other.slots@.len() as int) =~= other.slots@);
        }
        joined
    }

    /// Records a write of `binding` to `symbol`: a deletion leaves the symbol unbound, any
    /// other write leaves exactly that binding.
    pub fn write_binding(&mut self, symbol: SymbolId, binding: BindingId, kind: BindingKind)
        requires
            env_wf(*old(self)),
        ensures
            env_wf(*final(self)),
            final(self).reachable == old(self).reachable,
            slots_map(final(self).slots@) == slots_map(old(self).slots@).insert(symbol, written_slot(binding, kind)),
    {
        let state = match kind {
            BindingKind::Delete => SlotState::unbound(),
            _ => SlotState::known(binding),
        };
        proof {
            assert(slot_view(state) =~= written_slot(binding, kind));
        }
        self.set_slot(symbol, state);
    }

    /// Adds a residual and an uncertainty to the slot of `symbol`, which is unbound if the
    /// environment has none.
    pub fn add_uncertainty_to_symbol(&mut self, symbol: SymbolId, residual: SlotResidual, uncertainty: FlowUncertaintyKind)
        requires
            env_wf(*old(self)),
        ensures
            env_wf(*final(self)),
            final(self).reachable == old(self).reachable,
            slots_map(final(self).slots@) == slots_map(old(self).slots@).insert(
                symbol,
                with_residual(
                    if slots_map(old(self).slots@).dom().contains(symbol) {
                        slots_map(old(self).slots@)[symbol]
                    } else {
                        unbound_view()
                    },
                    residual,
                    uncertainty,
                ),
            ),
    {
        let mut state = match find_slot(&self.slots, symbol) {
            Some(i) => {
                proof {
                    lemma_slots_map_index(self.slots@, i as int);
                }
                self.slots[i].1.copy()
            },
            None => SlotState::unbound(),
        };
        let ghost base = slot_view(state);
        insert_residual(&mut state.residuals, residual);
        insert_uncertainty(&mut state.uncertainties, uncertainty);
        proof {
            assert(slot_view(state) =~= with_residual(base, residual, uncertainty));
            assert(base =~= (if slots_map(self.slots@).dom().contains(symbol) {
                slots_map(self.slots@)[symbol]
            } else {
                unbound_view()
            }));
        }
        self.set_slot(symbol, state);
    }

    /// Adds an uncertainty to every slot.
    pub fn add_uncertainty_to_all_slots(&mut self, uncertainty: FlowUncertaintyKind)
        requires
            env_wf(*old(self)),
        ensures
            env_wf(*final(self)),
            final(self).reachable == old(self).reachable,
            slots_map(final(self).slots@) == Map::new(
                |k: SymbolId| slots_map(old(self).slots@).dom().contains(k),
                |k: SymbolId| with_uncertainty(slots_map(old(self).slots@)[k], uncertainty),
            ),
    {
        let ghost start = self.slots@;
        let mut i: usize = 0;
        while i < self.slots.len()
            invariant
                0 <= i <= self.slots@.len(),
                self.slots@.len() == start.len(),
                keys_distinct(start),
                self.reachable == old(self).reachable,
                start == old(self).slots@,
                forall|j: int| 0 <= j < start.len() ==> (#[trigger] self.slots@[j]).0 == start[j].0,
                forall|j: int| 0 <= j < i ==> slot_view((#[trigger] self.slots@[j]).1) == with_uncertainty(slot_view(start[j].1), uncertainty),
                forall|j: int| i <= j < start.len() ==> slot_view((#[trigger] self.slots@[j]).1) == slot_view(start[j].1),
            decreases start.len() - i,
        {
            let k = self.slots[i].0;
            let mut state = self.slots[i].1.copy();
            let ghost base = slot_view(state);
            insert_uncertainty(&mut state.uncertainties, uncertainty);
            proof {
                assert(slot_view(state) =~= with_uncertainty(base, uncertainty));
            }
            self.slots.set(i, (k, state));
            i = i + 1;
        }
        proof {
            lemma_slots_map_uncertain(start, self.slots@, uncertainty);
        }
    }

    /// The slot of `symbol`: the environment's own, or the one it has before any write.
    pub fn get_or_default(
        &self,
        symbol: SymbolId,
        current_scope: Option<ScopeId>,
        symbol_scope: Option<ScopeId>,
        symbol_scope_kind: Option<ScopeKind>,
        context_kind: Option<ContextKind>,
    ) -> (s: SlotState)
        requires
            env_wf(*self),
        ensures
            slot_view(s) == (if slots_map(self.slots@).dom().contains(symbol) {
                slots_map(self.slots@)[symbol]
            } else {
                SlotView {
                    bindings: Set::empty(),
                    residuals: set![default_residual(current_scope, symbol_scope, symbol_scope_kind, context_kind)],
                    uncertainties: Set::empty(),
                }
            }),
    {
        match find_slot(&self.slots, symbol) {
            Some(i) => {
                proof {
                    lemma_slots_map_index(self.slots@, i as int);
                }
                let s = self.slots[i].1.copy();
                proof {
                    assert(slot_view(s) =~= slot_view(self.slots@[i as int].1));
                }
                s
            },
            None => {
                let s = default_slot(current_scope, symbol_scope, symbol_scope_kind, context_kind);
                proof {
                    assert(slot_view(s) =~= SlotView {
                        bindings: Set::empty(),
                        residuals: set![default_residual(current_scope, symbol_scope, symbol_scope_kind, context_kind)],
                        uncertainties: Set::empty(),
                    });
                }
                s
            },
        }
    }
}

// ----- completions -----

/// An environment that may be absent, as a map.
pub open spec fn opt_view(e: Option<FlowEnv>) -> Option<EnvView> {
    match e {
        Some(x) => Some(env_view(x)),
        None => None,
    }
}

/// An environment that may be absent is well formed.
pub open spec fn opt_wf(e: Option<FlowEnv>) -> bool {
    match e {
        Some(x) => env_wf(x),
        None => true,
    }
}

/// Two environments that may be absent, joined: an absent one contributes nothing.
pub open spec fn opt_join(a: Option<EnvView>, b: Option<EnvView>) -> Option<EnvView> {
    match (a, b) {
        (Some(x), Some(y)) => Some(env_join(x, y)),
        (Some(x), None) => Some(x),
        (None, Some(y)) => Some(y),
        (None, None) => None,
    }
}

/// Joins two environments that may be absent.
pub fn join_envs(left: Option<FlowEnv>, right: Option<FlowEnv>) -> (r: Option<FlowEnv>)
    requires
        opt_wf(left),
        opt_wf(right),
    ensures
        opt_wf(r),
        opt_view(r) == opt_join(opt_view(left), opt_view(right)),
{
    match (left, right) {
        (Some(l), Some(r)) => Some(l.join(&r)),
        (Some(l), None) => Some(l),
        (None, Some(r)) => Some(r),
        (None, None) => None,
    }
}

/// Joins `right` into `left`.
fn join_option_env(left: &mut Option<FlowEnv>, right: Option<FlowEnv>)
    requires
        opt_wf(*old(left)),
        opt_wf(right),
    ensures
        opt_wf(*final(left)),
        opt_view(*final(left)) == opt_join(opt_view(*old(left)), opt_view(right)),
{
    let l = left.take();
    *left = join_envs(l, right);
}

/// How a piece of code may complete: falling through, returning, raising, breaking out of a
/// loop or going on with its next turn, each with the environment it completes in.
#[derive(Debug)]
pub struct FlowOutcome {
    pub normal: Option<FlowEnv>,
    pub return_: Option<FlowEnv>,
    pub raise: Option<FlowEnv>,
    pub break_: Option<FlowEnv>,
    pub continue_: Option<FlowEnv>,
}

/// An outcome is well formed when each of its environments is.
pub open spec fn outcome_wf(o: FlowOutcome) -> bool {
    opt_wf(o.normal) && opt_wf(o.return_) && opt_wf(o.raise) && opt_wf(o.break_) && opt_wf(o.continue_)
}

/// The environment after every way the outcome completes, joined in the order normal,
/// return, raise, break, continue.
pub open spec fn completions_view(o: FlowOutcome) -> Option<EnvView> {
    opt_join(
        opt_join(
            opt_join(opt_join(opt_view(o.normal), opt_view(o.return_)), opt_view(o.raise)),
            opt_view(o.break_),
        ),
        opt_view(o.continue_),
    )
}

impl FlowOutcome {
    /// Code that falls through in `env` and completes in no other way.
    pub fn normal(env: FlowEnv) -> (o: Self)
        requires
            env_wf(env),
        ensures
            outcome_wf(o),
            opt_view(o.normal) == Some(env_view(env)),
            o.return_ is None && o.raise is None && o.break_ is None && o.continue_ is None,
    {
        FlowOutcome { normal: Some(env), return_: None, raise: None, break_: None, continue_: None }
    }

    /// Joins each way `other` completes into the same way of this outcome.
    pub fn join_assign(&mut self, other: FlowOutcome)
        requires
            outcome_wf(*old(self)),
            outcome_wf(other),
        ensures
            outcome_wf(*final(self)),
            opt_view(final(self).normal) == opt_join(opt_view(old(self).normal), opt_view(other.normal)),
            opt_view(final(self).return_) == opt_join(opt_view(old(self).return_), opt_view(other.return_)),
            opt_view(final(self).raise) == opt_join(opt_view(old(self).raise), opt_view(other.raise)),
            opt_view(final(self).break_) == opt_join(opt_view(old(self).break_), opt_view(other.break_)),
            opt_view(final(self).continue_) == opt_join(opt_view(old(self).continue_), opt_view(other.continue_)),
    {
        let FlowOutcome { normal, return_, raise, break_, continue_ } = other;
        join_option_env(&mut self.normal, normal);
        join_option_env(&mut self.return_, return_);
        join_option_env(&mut self.raise, raise);
        join_option_env(&mut self.break_, break_);
        join_option_env(&mut self.continue_, continue_);
    }

    /// The environment after every way the outcome completes.
    pub fn all_completions(&self) -> (r: Option<FlowEnv>)
        requires
            outcome_wf(*self),
        ensures
            opt_wf(r),
            opt_view(r) == completions_view(*self),
    {
        let mut joined = copy_option_env(&self.normal);
        join_option_env(&mut joined, copy_option_env(&self.return_));
        join_option_env(&mut joined, copy_option_env(&self.raise));
        join_option_env(&mut joined, copy_option_env(&self.break_));
        join_option_env(&mut joined, copy_option_env(&self.continue_));
        joined
    }
}

/// A copy of an environment that may be absent.
fn copy_option_env(e: &Option<FlowEnv>) -> (r: Option<FlowEnv>)
    requires
        opt_wf(*e),
    ensures
        opt_wf(r),
        opt_view(r) == opt_view(*e),
{
    match e {
        Some(x) => Some(x.copy()),
        None => None,
    }
}

// ----- laws of the join -----

/// Joining slots is commutative.
pub proof fn lemma_slot_join_commutative(a: SlotView, b: SlotView)
    ensures
        slot_join(a, b) == slot_join(b, a),
{
    assert(slot_join(a, b) =~= slot_join(b, a));
}

/// Joining a slot with itself changes nothing.
pub proof fn lemma_slot_join_idempotent(a: SlotView)
    ensures
        slot_join(a, a) == a,
{
    assert(slot_join(a, a) =~= a);
}

/// Joining slots is associative.
pub proof fn lemma_slot_join_associative(a: SlotView, b: SlotView, c: SlotView)
    ensures
        slot_join(slot_join(a, b), c) == slot_join(a, slot_join(b, c)),
{
    assert(slot_join(slot_join(a, b), c) =~= slot_join(a, slot_join(b, c)));
}

/// Where paths meet, the order in which they are joined does not matter, unless both are
/// unreachable (then the second is kept).
pub proof fn lemma_env_join_commutative(a: EnvView, b: EnvView)
    requires
        a.reachable || b.reachable || a == b,
    ensures
        env_join(a, b) == env_join(b, a),
{
    if a.reachable && b.reachable {
        assert forall|k: SymbolId| #[trigger] slots_join(a.slots, b.slots).dom().contains(k) implies slots_join(
            a.slots,
            b.slots,
        )[k] == slots_join(b.slots, a.slots)[k] by {
            lemma_slot_join_commutative(a.slots[k], b.slots[k]);
        }
        assert(slots_join(a.slots, b.slots) =~= slots_join(b.slots, a.slots));
    }
}

/// Joining an environment with itself changes nothing.
pub proof fn lemma_env_join_idempotent(a: EnvView)
    ensures
        env_join(a, a) == a,
{
    if a.reachable {
        assert forall|k: SymbolId| #[trigger] slots_join(a.slots, a.slots).dom().contains(k) implies slots_join(
            a.slots,
            a.slots,
        )[k] == a.slots[k] by {
            lemma_slot_join_idempotent(a.slots[k]);
        }
        assert(slots_join(a.slots, a.slots) =~= a.slots);
        assert(env_join(a, a) =~= a);
    }
}

/// Joining environments is associative.
pub proof fn lemma_env_join_associative(a: EnvView, b: EnvView, c: EnvView)
    ensures
        env_join(env_join(a, b), c) == env_join(a, env_join(b, c)),
{
    if a.reachable && b.reachable && c.reachable {
        let l = slots_join(slots_join(a.slots, b.slots), c.slots);
        let r = slots_join(a.slots, slots_join(b.slots, c.slots));
        assert forall|k: SymbolId| #[trigger] l.dom().contains(k) implies l[k] == r[k] by {
            lemma_slot_join_associative(a.slots[k], b.slots[k], c.slots[k]);
        }
        assert(l =~= r);
    }
}

/// An unreachable path contributes nothing where paths meet.
pub proof fn lemma_env_join_unreachable(u: EnvView, a: EnvView)
    requires
        !u.reachable,
    ensures
        env_join(u, a) == a,
        a.reachable ==> env_join(a, u) == a,
{
}

/// Where reachable paths meet, every symbol slotted on either path keeps at least the
/// bindings, residuals and uncertainties it had there.
pub proof fn lemma_env_join_covers(a: EnvView, b: EnvView, k: SymbolId)
    requires
        a.reachable,
        b.reachable,
        a.slots.dom().contains(k) || b.slots.dom().contains(k),
    ensures
        env_join(a, b).reachable,
        env_join(a, b).slots.dom().contains(k),
        a.slots.dom().contains(k) ==> a.slots[k].bindings.subset_of(env_join(a, b).slots[k].bindings)
            && a.slots[k].residuals.subset_of(env_join(a, b).slots[k].residuals)
            && a.slots[k].uncertainties.subset_of(env_join(a, b).slots[k].uncertainties),
        b.slots.dom().contains(k) ==> b.slots[k].bindings.subset_of(env_join(a, b).slots[k].bindings)
            && b.slots[k].residuals.subset_of(env_join(a, b).slots[k].residuals)
            && b.slots[k].uncertainties.subset_of(env_join(a, b).slots[k].uncertainties),
{
}

} // verus!
