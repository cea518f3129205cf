use vstd::prelude::*;

verus! {

/// Snapshot-local handle of a source file; its raw value is its index in the owning arena.
#[derive(Clone, Copy, Debug, PartialEq, Eq, Structural, Hash, PartialOrd, Ord)]
pub struct FileId(pub u32);

impl FileId {
    pub fn new(raw: u32) -> (id: Self)
        ensures
            id.0 == raw,
    {
        FileId(raw)
    }

    pub fn as_u32(self) -> (raw: u32)
        ensures
            raw == self.0,
    {
        self.0
    }
}

/// Snapshot-local handle of a discovered module; its raw value is its index in the owning arena.
#[derive(Clone, Copy, Debug, PartialEq, Eq, Structural, Hash, PartialOrd, Ord)]
pub struct ModuleId(pub u32);

impl ModuleId {
    pub fn new(raw: u32) -> (id: Self)
        ensures
            id.0 == raw,
    {
        ModuleId(raw)
    }

    pub fn as_u32(self) -> (raw: u32)
        ensures
            raw == self.0,
    {
        self.0
    }
}

/// Snapshot-local handle of a function or class definition; its raw value is its index in the owning arena.
#[derive(Clone, Copy, Debug, PartialEq, Eq, Structural, Hash, PartialOrd, Ord)]
pub struct DefId(pub u32);

impl DefId {
    pub fn new(raw: u32) -> (id: Self)
        ensures
            id.0 == raw,
    {
        DefId(raw)
    }

    pub fn as_u32(self) -> (raw: u32)
        ensures
            raw == self.0,
    {
        self.0
    }
}

/// Snapshot-local handle of a lexical scope; its raw value is its index in the owning arena.
#[derive(Clone, Copy, Debug, PartialEq, Eq, Structural, Hash, PartialOrd, Ord)]
pub struct ScopeId(pub u32);

impl ScopeId {
    pub fn new(raw: u32) -> (id: Self)
        ensures
            id.0 == raw,
    {
        ScopeId(raw)
    }

    pub fn as_u32(self) -> (raw: u32)
        ensures
            raw == self.0,
    {
        self.0
    }
}

/// Snapshot-local handle of an execution context; its raw value is its index in the owning arena.
#[derive(Clone, Copy, Debug, PartialEq, Eq, Structural, Hash, PartialOrd, Ord)]
pub struct ContextId(pub u32);

impl ContextId {
    pub fn new(raw: u32) -> (id: Self)
        ensures
            id.0 == raw,
    {
        ContextId(raw)
    }

    pub fn as_u32(self) -> (raw: u32)
        ensures
            raw == self.0,
    {
        self.0
    }
}

/// Snapshot-local handle of a `(scope, name)` symbol slot; its raw value is its index in the owning arena.
#[derive(Clone, Copy, Debug, PartialEq, Eq, Structural, Hash, PartialOrd, Ord)]
pub struct SymbolId(pub u32);

impl SymbolId {
    pub fn new(raw: u32) -> (id: Self)
        ensures
            id.0 == raw,
    {
        SymbolId(raw)
    }

    pub fn as_u32(self) -> (raw: u32)
        ensures
            raw == self.0,
    {
        self.0
    }
}

/// Snapshot-local handle of a binding event; its raw value is its index in the owning arena.
#[derive(Clone, Copy, Debug, PartialEq, Eq, Structural, Hash, PartialOrd, Ord)]
pub struct BindingId(pub u32);

impl BindingId {
    pub fn new(raw: u32) -> (id: Self)
        ensures
            id.0 == raw,
    {
        BindingId(raw)
    }

    pub fn as_u32(self) -> (raw: u32)
        ensures
            raw == self.0,
    {
        self.0
    }
}

/// Snapshot-local handle of an interned set of binding events; its raw value is its index in the owning arena.
#[derive(Clone, Copy, Debug, PartialEq, Eq, Structural, Hash, PartialOrd, Ord)]
pub struct BindingSetId(pub u32);

impl BindingSetId {
    pub fn new(raw: u32) -> (id: Self)
        ensures
            id.0 == raw,
    {
        BindingSetId(raw)
    }

    pub fn as_u32(self) -> (raw: u32)
        ensures
            raw == self.0,
    {
        self.0
    }
}

/// Snapshot-local handle of an interned set of flow uncertainties; its raw value is its index in the owning arena.
#[derive(Clone, Copy, Debug, PartialEq, Eq, Structural, Hash, PartialOrd, Ord)]
pub struct FlowUncertaintySetId(pub u32);

impl FlowUncertaintySetId {
    pub fn new(raw: u32) -> (id: Self)
        ensures
            id.0 == raw,
    {
        FlowUncertaintySetId(raw)
    }

    pub fn as_u32(self) -> (raw: u32)
        ensures
            raw == self.0,
    {
        self.0
    }
}

/// Snapshot-local handle of a name reference; its raw value is its index in the owning arena.
#[derive(Clone, Copy, Debug, PartialEq, Eq, Structural, Hash, PartialOrd, Ord)]
pub struct ReferenceId(pub u32);

impl ReferenceId {
    pub fn new(raw: u32) -> (id: Self)
        ensures
            id.0 == raw,
    {
        ReferenceId(raw)
    }

    pub fn as_u32(self) -> (raw: u32)
        ensures
            raw == self.0,
    {
        self.0
    }
}

/// Snapshot-local handle of a loop; its raw value is its index in the owning arena.
#[derive(Clone, Copy, Debug, PartialEq, Eq, Structural, Hash, PartialOrd, Ord)]
pub struct LoopId(pub u32);

impl LoopId {
    pub fn new(raw: u32) -> (id: Self)
        ensures
            id.0 == raw,
    {
        LoopId(raw)
    }

    pub fn as_u32(self) -> (raw: u32)
        ensures
            raw == self.0,
    {
        self.0
    }
}

/// Snapshot-local handle of an interned set of definition-time effects; its raw value is its index in the owning arena.
#[derive(Clone, Copy, Debug, PartialEq, Eq, Structural, Hash, PartialOrd, Ord)]
pub struct DefinitionEffectSetId(pub u32);

impl DefinitionEffectSetId {
    pub fn new(raw: u32) -> (id: Self)
        ensures
            id.0 == raw,
    {
        DefinitionEffectSetId(raw)
    }

    pub fn as_u32(self) -> (raw: u32)
        ensures
            raw == self.0,
    {
        self.0
    }
}

/// Snapshot-local handle of a group of overload declarations; its raw value is its index in the owning arena.
#[derive(Clone, Copy, Debug, PartialEq, Eq, Structural, Hash, PartialOrd, Ord)]
pub struct OverloadGroupId(pub u32);

impl OverloadGroupId {
    pub fn new(raw: u32) -> (id: Self)
        ensures
            id.0 == raw,
    {
        OverloadGroupId(raw)
    }

    pub fn as_u32(self) -> (raw: u32)
        ensures
            raw == self.0,
    {
        self.0
    }
}

/// Snapshot-local handle of an internal unused-definition candidate; its raw value is its index in the owning arena.
#[derive(Clone, Copy, Debug, PartialEq, Eq, Structural, Hash, PartialOrd, Ord)]
pub struct InternalCandidateId(pub u32);

impl InternalCandidateId {
    pub fn new(raw: u32) -> (id: Self)
        ensures
            id.0 == raw,
    {
        InternalCandidateId(raw)
    }

    pub fn as_u32(self) -> (raw: u32)
        ensures
            raw == self.0,
    {
        self.0
    }
}

/// Snapshot-local handle of a reachability root; its raw value is its index in the owning arena.
#[derive(Clone, Copy, Debug, PartialEq, Eq, Structural, Hash, PartialOrd, Ord)]
pub struct RootId(pub u32);

impl RootId {
    pub fn new(raw: u32) -> (id: Self)
        ensures
            id.0 == raw,
    {
        RootId(raw)
    }

    pub fn as_u32(self) -> (raw: u32)
        ensures
            raw == self.0,
    {
        self.0
    }
}

} // verus!
