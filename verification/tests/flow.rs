use cull::flow::{
    class_lookup_parts, default_slot, join_envs, residual_for_slot, FlowEnv, FlowOutcome,
    LookupMode, SlotResidual, SlotState,
};
use cull::ids::{BindingId, ScopeId, SymbolId};
use cull::semantic::{BindingKind, ContextKind, FlowUncertaintyKind, ResidualLookup, ScopeKind};

fn sorted_bindings(v: &[BindingId]) -> Vec<u32> {
    let mut out: Vec<u32> = v.iter().map(|b| b.0).collect();
    out.sort();
    out
}

fn slot_of(env: &FlowEnv, symbol: u32) -> Option<&SlotState> {
    env.slots.iter().find(|(k, _)| k.0 == symbol).map(|(_, s)| s)
}

#[test]
fn slot_constructors_hold_one_fact() {
    let known = SlotState::known(BindingId::new(4));
    assert_eq!(sorted_bindings(&known.bindings), vec![4]);
    assert!(known.residuals.is_empty());
    assert!(!known.may_be_unbound());

    let unbound = SlotState::unbound();
    assert!(unbound.bindings.is_empty());
    assert_eq!(unbound.residuals, vec![SlotResidual::Unbound]);
    assert!(unbound.may_be_unbound());

    assert_eq!(
        SlotState::runtime_global().residuals,
        vec![SlotResidual::RuntimeGlobalThenBuiltin]
    );
    assert_eq!(
        SlotState::runtime_free().residuals,
        vec![SlotResidual::RuntimeFreeVariable]
    );
}

#[test]
fn slot_join_is_a_union_without_repeats() {
    let mut left = SlotState::known(BindingId::new(1));
    let mut right = SlotState::known(BindingId::new(2));
    right.join_assign(&SlotState::unbound());
    right.join_assign(&SlotState::known(BindingId::new(1)));
    left.join_assign(&right);
    assert_eq!(sorted_bindings(&left.bindings), vec![1, 2]);
    assert_eq!(left.residuals, vec![SlotResidual::Unbound]);
    assert!(left.may_be_unbound());
}

#[test]
fn residual_lookup_prefers_runtime_global() {
    let mut slot = SlotState::unbound();
    assert_eq!(
        residual_for_slot(&slot, LookupMode::Direct),
        ResidualLookup::UnboundLocal
    );
    assert_eq!(
        residual_for_slot(&slot, LookupMode::GlobalThenBuiltin),
        ResidualLookup::BuiltinOrNameError
    );
    slot.join_assign(&SlotState::runtime_free());
    assert_eq!(
        residual_for_slot(&slot, LookupMode::Direct),
        ResidualLookup::RuntimeFreeVariable
    );
    slot.join_assign(&SlotState::runtime_global());
    assert_eq!(
        residual_for_slot(&slot, LookupMode::Direct),
        ResidualLookup::RuntimeGlobalThenBuiltin
    );
    assert_eq!(
        residual_for_slot(&SlotState::known(BindingId::new(0)), LookupMode::Direct),
        ResidualLookup::NoResidual
    );
}

#[test]
fn class_lookup_falls_back_to_globals_only_when_unbound() {
    let class_slot = SlotState::known(BindingId::new(3));
    let global = SlotState::known(BindingId::new(9));
    let (bindings, residual, uncertainties) = class_lookup_parts(&class_slot, &global);
    assert_eq!(sorted_bindings(&bindings), vec![3]);
    assert_eq!(residual, ResidualLookup::NoResidual);
    assert!(uncertainties.is_empty());

    let mut maybe = SlotState::known(BindingId::new(3));
    maybe.join_assign(&SlotState::unbound());
    let mut global = SlotState::known(BindingId::new(9));
    global.join_assign(&SlotState::unbound());
    let (bindings, residual, _) = class_lookup_parts(&maybe, &global);
    assert_eq!(sorted_bindings(&bindings), vec![3, 9]);
    assert_eq!(residual, ResidualLookup::BuiltinOrNameError);
}

#[test]
fn default_slot_depends_on_scope_and_context() {
    let here = Some(ScopeId::new(1));
    let module = Some(ScopeId::new(0));
    assert_eq!(
        default_slot(here, here, Some(ScopeKind::Function), Some(ContextKind::FunctionBody)).residuals,
        vec![SlotResidual::Unbound]
    );
    assert_eq!(
        default_slot(here, module, Some(ScopeKind::Module), Some(ContextKind::FunctionBody)).residuals,
        vec![SlotResidual::RuntimeGlobalThenBuiltin]
    );
    assert_eq!(
        default_slot(here, module, Some(ScopeKind::Module), Some(ContextKind::ClassBody)).residuals,
        vec![SlotResidual::Unbound]
    );
    assert_eq!(
        default_slot(here, Some(ScopeId::new(2)), Some(ScopeKind::Function), Some(ContextKind::FunctionBody)).residuals,
        vec![SlotResidual::RuntimeFreeVariable]
    );
}

#[test]
fn writes_replace_a_symbols_slot() {
    let mut env = FlowEnv::reachable();
    env.write_binding(SymbolId::new(1), BindingId::new(10), BindingKind::Assignment);
    env.write_binding(SymbolId::new(1), BindingId::new(11), BindingKind::Assignment);
    assert_eq!(env.slots.len(), 1);
    assert_eq!(sorted_bindings(&slot_of(&env, 1).unwrap().bindings), vec![11]);
    env.write_binding(SymbolId::new(1), BindingId::new(12), BindingKind::Delete);
    let slot = slot_of(&env, 1).unwrap();
    assert!(slot.bindings.is_empty());
    assert!(slot.may_be_unbound());
}

#[test]
fn join_unions_slots_of_reachable_paths() {
    let mut left = FlowEnv::reachable();
    left.write_binding(SymbolId::new(1), BindingId::new(10), BindingKind::Assignment);
    left.write_binding(SymbolId::new(2), BindingId::new(20), BindingKind::Assignment);
    let mut right = FlowEnv::reachable();
    right.write_binding(SymbolId::new(1), BindingId::new(11), BindingKind::Assignment);
    right.write_binding(SymbolId::new(3), BindingId::new(30), BindingKind::Import);
    let joined = left.join(&right);
    assert!(joined.reachable);
    assert_eq!(joined.slots.len(), 3);
    assert_eq!(sorted_bindings(&slot_of(&joined, 1).unwrap().bindings), vec![10, 11]);
    assert_eq!(sorted_bindings(&slot_of(&joined, 2).unwrap().bindings), vec![20]);
    assert_eq!(sorted_bindings(&slot_of(&joined, 3).unwrap().bindings), vec![30]);

    let swapped = right.join(&left);
    assert_eq!(sorted_bindings(&slot_of(&swapped, 1).unwrap().bindings), vec![10, 11]);

    let same = left.join(&left);
    assert_eq!(same.slots.len(), 2);
    assert_eq!(sorted_bindings(&slot_of(&same, 1).unwrap().bindings), vec![10]);
}

#[test]
fn unreachable_paths_contribute_nothing() {
    let mut live = FlowEnv::reachable();
    live.write_binding(SymbolId::new(1), BindingId::new(10), BindingKind::Assignment);
    let mut dead = FlowEnv::unreachable();
    dead.write_binding(SymbolId::new(1), BindingId::new(99), BindingKind::Assignment);
    let a = dead.join(&live);
    let b = live.join(&dead);
    assert!(a.reachable && b.reachable);
    assert_eq!(sorted_bindings(&slot_of(&a, 1).unwrap().bindings), vec![10]);
    assert_eq!(sorted_bindings(&slot_of(&b, 1).unwrap().bindings), vec![10]);

    let dead2 = FlowEnv::unreachable();
    let both = dead.join(&dead2);
    assert!(!both.reachable);
    assert!(both.slots.is_empty());
}

#[test]
fn uncertainty_reaches_one_or_every_slot() {
    let mut env = FlowEnv::reachable();
    env.write_binding(SymbolId::new(1), BindingId::new(10), BindingKind::Assignment);
    env.add_uncertainty_to_symbol(
        SymbolId::new(2),
        SlotResidual::RuntimeGlobalThenBuiltin,
        FlowUncertaintyKind::DynamicNamespaceMutation,
    );
    let added = slot_of(&env, 2).unwrap();
    assert!(added.residuals.contains(&SlotResidual::Unbound));
    assert!(added.residuals.contains(&SlotResidual::RuntimeGlobalThenBuiltin));
    assert_eq!(added.uncertainties, vec![FlowUncertaintyKind::DynamicNamespaceMutation]);
    assert!(slot_of(&env, 1).unwrap().uncertainties.is_empty());

    env.add_uncertainty_to_all_slots(FlowUncertaintyKind::OpaqueCallMayMutateGlobal);
    env.add_uncertainty_to_all_slots(FlowUncertaintyKind::OpaqueCallMayMutateGlobal);
    assert_eq!(
        slot_of(&env, 1).unwrap().uncertainties,
        vec![FlowUncertaintyKind::OpaqueCallMayMutateGlobal]
    );
    assert_eq!(slot_of(&env, 2).unwrap().uncertainties.len(), 2);
}

#[test]
fn get_or_default_prefers_the_written_slot() {
    let mut env = FlowEnv::reachable();
    env.write_binding(SymbolId::new(1), BindingId::new(10), BindingKind::Assignment);
    let scope = Some(ScopeId::new(1));
    let found = env.get_or_default(SymbolId::new(1), scope, scope, Some(ScopeKind::Function), Some(ContextKind::FunctionBody));
    assert_eq!(sorted_bindings(&found.bindings), vec![10]);
    let missing = env.get_or_default(SymbolId::new(2), scope, scope, Some(ScopeKind::Function), Some(ContextKind::FunctionBody));
    assert!(missing.bindings.is_empty());
    assert_eq!(missing.residuals, vec![SlotResidual::Unbound]);
}

#[test]
fn completions_join_every_exit() {
    let mut normal_env = FlowEnv::reachable();
    normal_env.write_binding(SymbolId::new(1), BindingId::new(1), BindingKind::Assignment);
    let mut outcome = FlowOutcome::normal(normal_env);
    let mut returned = FlowEnv::reachable();
    returned.write_binding(SymbolId::new(1), BindingId::new(2), BindingKind::Assignment);
    let other = FlowOutcome {
        normal: None,
        return_: Some(returned),
        raise: None,
        break_: None,
        continue_: None,
    };
    outcome.join_assign(other);
    assert!(outcome.normal.is_some() && outcome.return_.is_some());
    let all = outcome.all_completions().unwrap();
    assert_eq!(sorted_bindings(&slot_of(&all, 1).unwrap().bindings), vec![1, 2]);

    assert!(join_envs(None, None).is_none());
    let only = join_envs(None, Some(FlowEnv::unreachable())).unwrap();
    assert!(!only.reachable);
}
