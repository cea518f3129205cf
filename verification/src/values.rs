//! The values the project resolver tracks for a name: the project modules and definitions it
//! may denote, whether it may be something outside the project (the `importlib` module or its
//! `import_module` function among them), and what makes the answer uncertain.
use vstd::prelude::*;

use crate::findings::Part2Uncertainty;
use crate::ids::{DefId, ModuleId};
use crate::module_namespace::LocalModuleResolution;
use crate::text::{find_char, first_index_of, slice_chars, str_chars, str_eq, string_from_chars};

verus! {

/// What a name may denote. The lists are sets: order and repetition carry no meaning.
#[derive(Debug)]
pub struct ValueSet {
    pub modules: Vec<ModuleId>,
    pub definitions: Vec<DefId>,
    pub external: bool,
    pub importlib_module: bool,
    pub importlib_import_module: bool,
    pub uncertainties: Vec<Part2Uncertainty>,
}

/// A value set as sets.
#[verifier::ext_equal]
pub struct ValueView {
    pub modules: Set<ModuleId>,
    pub definitions: Set<DefId>,
    pub external: bool,
    pub importlib_module: bool,
    pub importlib_import_module: bool,
    pub uncertainties: Set<Part2Uncertainty>,
}

/// The sets a value set holds.
pub open spec fn value_view(v: ValueSet) -> ValueView {
    ValueView {
        modules: v.modules@.to_set(),
        definitions: v.definitions@.to_set(),
        external: v.external,
        importlib_module: v.importlib_module,
        importlib_import_module: v.importlib_import_module,
        uncertainties: v.uncertainties@.to_set(),
    }
}

/// Two value sets joined: everything either may denote.
pub open spec fn value_join(a: ValueView, b: ValueView) -> ValueView {
    ValueView {
        modules: a.modules + b.modules,
        definitions: a.definitions + b.definitions,
        external: a.external || b.external,
        importlib_module: a.importlib_module || b.importlib_module,
        importlib_import_module: a.importlib_import_module || b.importlib_import_module,
        uncertainties: a.uncertainties + b.uncertainties,
    }
}

/// Pushing an element, or keeping a list that already holds it, inserts it into the set.
proof fn lemma_push_or_keep<A>(before: Seq<A>, after: Seq<A>, x: A)
    requires
        after == before.push(x) || (after == before && before.contains(x)),
    ensures
        after.to_set() == before.to_set().insert(x),
{
    before.lemma_push_to_set_commute(x);
    if after == before {
        assert(before.to_set().insert(x) =~= before.to_set());
    }
}

/// One more element of a prefix inserts that element into the prefix's set.
proof fn lemma_take_step<A>(s: Seq<A>, k: int)
    requires
        0 <= k < s.len(),
    ensures
        s.take(k + 1).to_set() == s.take(k).to_set().insert(s[k]),
{
    assert(s.take(k + 1) =~= s.take(k).push(s[k]));
    s.take(k).lemma_push_to_set_commute(s[k]);
}

/// The set of a one-element list.
proof fn lemma_singleton_to_set<A>(x: A)
    ensures
        seq![x].to_set() == set![x],
{
    Seq::<A>::empty().lemma_push_to_set_commute(x);
    assert(Seq::<A>::empty().to_set() =~= Set::<A>::empty());
    assert(seq![x] =~= Seq::<A>::empty().push(x));
    assert(set![x] =~= Set::<A>::empty().insert(x));
}

/// A union leaves a set unchanged exactly when the added set is already inside it.
proof fn lemma_union_unchanged<A>(a: Set<A>, b: Set<A>)
    ensures
        (a + b == a) <==> b.subset_of(a),
{
    if b.subset_of(a) {
        assert(a + b =~= a);
    }
    if a + b == a {
        assert forall|x: A| b.contains(x) implies a.contains(x) by {
            assert((a + b).contains(x));
        }
    }
}

/// One step of a union loop: adding the next element keeps the set and the report of growth
/// in step.
proof fn lemma_union_step<A>(start: Set<A>, prefix: Seq<A>, k: int, found: bool, added: bool)
    requires
        0 <= k < prefix.len(),
        found == (start + prefix.take(k).to_set()).contains(prefix[k]),
        added == !prefix.take(k).to_set().subset_of(start),
    ensures
        (added || !found) == !prefix.take(k + 1).to_set().subset_of(start),
{
    lemma_take_step(prefix, k);
    let x = prefix[k];
    if !found {
        assert(prefix.take(k + 1).to_set().contains(x));
    } else if start.contains(x) {
        if prefix.take(k + 1).to_set().subset_of(start) {
            assert(prefix.take(k).to_set().subset_of(start));
        }
    } else {
        assert(prefix.take(k).to_set().contains(x));
    }
}

/// Adds the modules of `from`, telling whether any was new.
fn union_modules(into: &mut Vec<ModuleId>, from: &Vec<ModuleId>) -> (added: bool)
    ensures
        final(into)@.to_set() == old(into)@.to_set() + from@.to_set(),
        added == !from@.to_set().subset_of(old(into)@.to_set()),
{
    let mut added = false;
    let mut k: usize = 0;
    proof {
        assert(from@.take(0).to_set() =~= Set::<ModuleId>::empty());
        assert(old(into)@.to_set() + Set::<ModuleId>::empty() =~= old(into)@.to_set());
    }
    while k < from.len()
        invariant
            0 <= k <= from@.len(),
            into@.to_set() == old(into)@.to_set() + from@.take(k as int).to_set(),
            added == !from@.take(k as int).to_set().subset_of(old(into)@.to_set()),
        decreases from@.len() - k,
    {
        let x = from[k];
        let mut found = false;
        let mut j: usize = 0;
        while j < into.len()
            invariant
                0 <= j <= into@.len(),
                found == exists|t: int| 0 <= t < j && into@[t] == x,
            decreases into@.len() - j,
        {
            if into[j].0 == x.0 {
                found = true;
            }
            j = j + 1;
        }
        let ghost before = into@;
        proof {
            if found {
                let t = choose|t: int| 0 <= t < before.len() && before[t] == x;
                assert(before.contains(x));
            }
            lemma_union_step(old(into)@.to_set(), from@, k as int, found, added);
        }
        if !found {
            into.push(x);
            added = true;
        }
        proof {
            lemma_push_or_keep(before, into@, x);
            lemma_take_step(from@, k as int);
            assert(into@.to_set() =~= old(into)@.to_set() + from@.take(k + 1).to_set());
        }
        k = k + 1;
    }
    proof {
        assert(from@.take(from@.len() as int) =~= from@);
    }
    added
}

/// Adds the definitions of `from`, telling whether any was new.
fn union_definitions(into: &mut Vec<DefId>, from: &Vec<DefId>) -> (added: bool)
    ensures
        final(into)@.to_set() == old(into)@.to_set() + from@.to_set(),
        added == !from@.to_set().subset_of(old(into)@.to_set()),
{
    let mut added = false;
    let mut k: usize = 0;
    proof {
        assert(from@.take(0).to_set() =~= Set::<DefId>::empty());
        assert(old(into)@.to_set() + Set::<DefId>::empty() =~= old(into)@.to_set());
    }
    while k < from.len()
        invariant
            0 <= k <= from@.len(),
            into@.to_set() == old(into)@.to_set() + from@.take(k as int).to_set(),
            added == !from@.take(k as int).to_set().subset_of(old(into)@.to_set()),
        decreases from@.len() - k,
    {
        let x = from[k];
        let mut found = false;
        let mut j: usize = 0;
        while j < into.len()
            invariant
                0 <= j <= into@.len(),
                found == exists|t: int| 0 <= t < j && into@[t] == x,
            decreases into@.len() - j,
        {
            if into[j].0 == x.0 {
                found = true;
            }
            j = j + 1;
        }
        let ghost before = into@;
        proof {
            if found {
                let t = choose|t: int| 0 <= t < before.len() && before[t] == x;
                assert(before.contains(x));
            }
            lemma_union_step(old(into)@.to_set(), from@, k as int, found, added);
        }
        if !found {
            into.push(x);
            added = true;
        }
        proof {
            lemma_push_or_keep(before, into@, x);
            lemma_take_step(from@, k as int);
            assert(into@.to_set() =~= old(into)@.to_set() + from@.take(k + 1).to_set());
        }
        k = k + 1;
    }
    proof {
        assert(from@.take(from@.len() as int) =~= from@);
    }
    added
}

/// Adds the uncertainties of `from`, telling whether any was new.
fn union_uncertainties(into: &mut Vec<Part2Uncertainty>, from: &Vec<Part2Uncertainty>) -> (added: bool)
    ensures
        final(into)@.to_set() == old(into)@.to_set() + from@.to_set(),
        added == !from@.to_set().subset_of(old(into)@.to_set()),
{
    let mut added = false;
    let mut k: usize = 0;
    proof {
        assert(from@.take(0).to_set() =~= Set::<Part2Uncertainty>::empty());
        assert(old(into)@.to_set() + Set::<Part2Uncertainty>::empty() =~= old(into)@.to_set());
    }
    while k < from.len()
        invariant
            0 <= k <= from@.len(),
            into@.to_set() == old(into)@.to_set() + from@.take(k as int).to_set(),
            added == !from@.take(k as int).to_set().subset_of(old(into)@.to_set()),
        decreases from@.len() - k,
    {
        let x = from[k];
        let mut found = false;
        let mut j: usize = 0;
        while j < into.len()
            invariant
                0 <= j <= into@.len(),
                found == exists|t: int| 0 <= t < j && into@[t] == x,
            decreases into@.len() - j,
        {
            if into[j] == x {
                found = true;
            }
            j = j + 1;
        }
        let ghost before = into@;
        proof {
            if found {
                let t = choose|t: int| 0 <= t < before.len() && before[t] == x;
                assert(before.contains(x));
            }
            lemma_union_step(old(into)@.to_set(), from@, k as int, found, added);
        }
        if !found {
            into.push(x);
            added = true;
        }
        proof {
            lemma_push_or_keep(before, into@, x);
            lemma_take_step(from@, k as int);
            assert(into@.to_set() =~= old(into)@.to_set() + from@.take(k + 1).to_set());
        }
        k = k + 1;
    }
    proof {
        assert(from@.take(from@.len() as int) =~= from@);
    }
    added
}

impl ValueSet {
    /// Denotes nothing.
    pub fn empty() -> (v: Self)
        ensures
            value_view(v) == (ValueView {
                modules: Set::empty(),
                definitions: Set::empty(),
                external: false,
                importlib_module: false,
                importlib_import_module: false,
                uncertainties: Set::empty(),
            }),
    {
        let v = ValueSet {
            modules: Vec::new(),
            definitions: Vec::new(),
            external: false,
            importlib_module: false,
            importlib_import_module: false,
            uncertainties: Vec::new(),
        };
        proof {
            assert(value_view(v) =~= ValueView {
                modules: Set::empty(),
                definitions: Set::empty(),
                external: false,
                importlib_module: false,
                importlib_import_module: false,
                uncertainties: Set::empty(),
            });
        }
        v
    }

    /// Denotes one project module.
    pub fn module(module: ModuleId) -> (v: Self)
        ensures
            value_view(v) == (ValueView {
                modules: set![module],
                definitions: Set::empty(),
                external: false,
                importlib_module: false,
                importlib_import_module: false,
                uncertainties: Set::empty(),
            }),
    {
        let mut modules: Vec<ModuleId> = Vec::new();
        modules.push(module);
        let v = ValueSet {
            modules,
            definitions: Vec::new(),
            external: false,
            importlib_module: false,
            importlib_import_module: false,
            uncertainties: Vec::new(),
        };
        proof {
            assert(v.modules@ =~= seq![module]);
            lemma_singleton_to_set(module);
            assert(value_view(v) =~= ValueView {
                modules: set![module],
                definitions: Set::empty(),
                external: false,
                importlib_module: false,
                importlib_import_module: false,
                uncertainties: Set::empty(),
            });
        }
        v
    }

    /// Denotes one project definition.
    pub fn definition(definition: DefId) -> (v: Self)
        ensures
            value_view(v) == (ValueView {
                modules: Set::empty(),
                definitions: set![definition],
                external: false,
                importlib_module: false,
                importlib_import_module: false,
                uncertainties: Set::empty(),
            }),
    {
        let mut definitions: Vec<DefId> = Vec::new();
        definitions.push(definition);
        let v = ValueSet {
            modules: Vec::new(),
            definitions,
            external: false,
            importlib_module: false,
            importlib_import_module: false,
            uncertainties: Vec::new(),
        };
        proof {
            assert(v.definitions@ =~= seq![definition]);
            lemma_singleton_to_set(definition);
            assert(value_view(v) =~= ValueView {
                modules: Set::empty(),
                definitions: set![definition],
                external: false,
                importlib_module: false,
                importlib_import_module: false,
                uncertainties: Set::empty(),
            });
        }
        v
    }

    /// Denotes something outside the project, for the given reason.
    pub fn external(kind: Part2Uncertainty) -> (v: Self)
        ensures
            value_view(v) == (ValueView {
                modules: Set::empty(),
                definitions: Set::empty(),
                external: true,
                importlib_module: false,
                importlib_import_module: false,
                uncertainties: set![kind],
            }),
    {
        let mut uncertainties: Vec<Part2Uncertainty> = Vec::new();
        uncertainties.push(kind);
        let v = ValueSet {
            modules: Vec::new(),
            definitions: Vec::new(),
            external: true,
            importlib_module: false,
            importlib_import_module: false,
            uncertainties,
        };
        proof {
            assert(v.uncertainties@ =~= seq![kind]);
            lemma_singleton_to_set(kind);
            assert(value_view(v) =~= ValueView {
                modules: Set::empty(),
                definitions: Set::empty(),
                external: true,
                importlib_module: false,
                importlib_import_module: false,
                uncertainties: set![kind],
            });
        }
        v
    }

    /// Denotes the `importlib` module.
    pub fn importlib_module() -> (v: Self)
        ensures
            value_view(v) == (ValueView {
                modules: Set::empty(),
                definitions: Set::empty(),
                external: true,
                importlib_module: true,
                importlib_import_module: false,
                uncertainties: Set::empty(),
            }),
    {
        let mut v = ValueSet::empty();
        v.external = true;
        v.importlib_module = true;
        v
    }

    /// Denotes `importlib.import_module`.
    pub fn importlib_import_module() -> (v: Self)
        ensures
            value_view(v) == (ValueView {
                modules: Set::empty(),
                definitions: Set::empty(),
                external: true,
                importlib_module: false,
                importlib_import_module: true,
                uncertainties: Set::empty(),
            }),
    {
        let mut v = ValueSet::empty();
        v.external = true;
        v.importlib_import_module = true;
        v
    }

    /// Joins `other` into this value set, telling whether it grew.
    pub fn union_with(&mut self, other: ValueSet) -> (changed: bool)
        ensures
            value_view(*final(self)) == value_join(value_view(*old(self)), value_view(other)),
            changed == (value_view(*final(self)) != value_view(*old(self))),
    {
        let ghost a = value_view(*self);
        let ghost b = value_view(other);
        let m = union_modules(&mut self.modules, &other.modules);
        let d = union_definitions(&mut self.definitions, &other.definitions);
        let u = union_uncertainties(&mut self.uncertainties, &other.uncertainties);
        let e = other.external && !self.external;
        let im = other.importlib_module && !self.importlib_module;
        let iim = other.importlib_import_module && !self.importlib_import_module;
        self.external = self.external || other.external;
        self.importlib_module = self.importlib_module || other.importlib_module;
        self.importlib_import_module = self.importlib_import_module || other.importlib_import_module;
        proof {
            lemma_union_unchanged(a.modules, b.modules);
            lemma_union_unchanged(a.definitions, b.definitions);
            lemma_union_unchanged(a.uncertainties, b.uncertainties);
            assert(value_view(*self) =~= value_join(a, b));
            if !(m || d || u || e || im || iim) {
                assert(value_view(*self) =~= a);
            }
        }
        m || d || u || e || im || iim
    }

    /// The value set with one more uncertainty.
    pub fn with_uncertainty(self, uncertainty: Part2Uncertainty) -> (v: Self)
        ensures
            value_view(v) == (ValueView {
                uncertainties: value_view(self).uncertainties.insert(uncertainty),
                ..value_view(self)
            }),
    {
        let mut v = self;
        let ghost before = v.uncertainties@;
        let mut found = false;
        let mut j: usize = 0;
        while j < v.uncertainties.len()
            invariant
                0 <= j <= v.uncertainties@.len(),
                found == exists|t: int| 0 <= t < j && v.uncertainties@[t] == uncertainty,
            decreases v.uncertainties@.len() - j,
        {
            if v.uncertainties[j] == uncertainty {
                found = true;
            }
            j = j + 1;
        }
        if !found {
            v.uncertainties.push(uncertainty);
        }
        proof {
            if found {
                let t = choose|t: int| 0 <= t < before.len() && before[t] == uncertainty;
                assert(before.contains(uncertainty));
            }
            lemma_push_or_keep(before, v.uncertainties@, uncertainty);
            assert(value_view(v) =~= ValueView {
                uncertainties: value_view(self).uncertainties.insert(uncertainty),
                ..value_view(self)
            });
        }
        v
    }

    /// Denotes nothing of the project or outside it (uncertainties aside).
    pub fn is_empty(&self) -> (yes: bool)
        ensures
            yes == (value_view(*self).modules.is_empty() && value_view(*self).definitions.is_empty()
                && !self.external && !self.importlib_module && !self.importlib_import_module),
    {
        proof {
            if self.modules@.len() > 0 {
                assert(value_view(*self).modules.contains(self.modules@[0]));
            }
            if self.definitions@.len() > 0 {
                assert(value_view(*self).definitions.contains(self.definitions@[0]));
            }
            if self.modules@.len() == 0 {
                assert(value_view(*self).modules =~= Set::<ModuleId>::empty());
            }
            if self.definitions@.len() == 0 {
                assert(value_view(*self).definitions =~= Set::<DefId>::empty());
            }
        }
        self.modules.len() == 0 && self.definitions.len() == 0 && !self.external && !self.importlib_module
            && !self.importlib_import_module
    }
}

/// Joining value sets is commutative.
pub proof fn lemma_value_join_commutative(a: ValueView, b: ValueView)
    ensures
        value_join(a, b) == value_join(b, a),
{
    assert(value_join(a, b) =~= value_join(b, a));
}

/// Joining value sets is associative.
pub proof fn lemma_value_join_associative(a: ValueView, b: ValueView, c: ValueView)
    ensures
        value_join(value_join(a, b), c) == value_join(a, value_join(b, c)),
{
    assert(value_join(value_join(a, b), c) =~= value_join(a, value_join(b, c)));
}

/// Joining a value set with itself changes nothing, so a union with an equal set reports no
/// growth.
pub proof fn lemma_value_join_idempotent(a: ValueView)
    ensures
        value_join(a, a) == a,
{
    assert(value_join(a, a) =~= a);
}

// ----- what an import binds -----

/// The module name that `import requested` binds: the whole dotted name under an alias,
/// otherwise its first segment.
pub open spec fn import_target_spec(requested: Seq<char>, asname: bool) -> Seq<char> {
    if asname {
        requested
    } else {
        match first_index_of(requested, '.') {
            Some(k) => requested.subrange(0, k),
            None => requested,
        }
    }
}

/// The module name that `import requested` binds.
pub fn import_target_name(requested: &str, asname: bool) -> (name: String)
    ensures
        name@ == import_target_spec(requested@, asname),
{
    if asname {
        return string_from_chars(str_chars(requested).as_slice());
    }
    let chars = str_chars(requested);
    match find_char(chars.as_slice(), '.') {
        Some(k) => string_from_chars(slice_chars(chars.as_slice(), 0, k).as_slice()),
        None => string_from_chars(chars.as_slice()),
    }
}

/// The value with no module, definition or outside value and the one uncertainty.
pub open spec fn only_uncertainty(u: Part2Uncertainty) -> ValueView {
    ValueView {
        modules: Set::empty(),
        definitions: Set::empty(),
        external: false,
        importlib_module: false,
        importlib_import_module: false,
        uncertainties: set![u],
    }
}

/// The value an imported module name takes: the project module it resolves to; for a
/// namespace package or an unresolvable name, nothing but the uncertainty; outside the
/// project, the `importlib` module or an outside value.
pub open spec fn import_value_spec(resolution: LocalModuleResolution, requested: Seq<char>) -> ValueView {
    match resolution {
        LocalModuleResolution::Module(m) => ValueView {
            modules: set![m],
            definitions: Set::empty(),
            external: false,
            importlib_module: false,
            importlib_import_module: false,
            uncertainties: Set::empty(),
        },
        LocalModuleResolution::Namespace(_) => only_uncertainty(Part2Uncertainty::UnsupportedNamespace),
        LocalModuleResolution::External => if requested == "importlib"@ {
            ValueView {
                modules: Set::empty(),
                definitions: Set::empty(),
                external: true,
                importlib_module: true,
                importlib_import_module: false,
                uncertainties: Set::empty(),
            }
        } else {
            ValueView {
                modules: Set::empty(),
                definitions: Set::empty(),
                external: true,
                importlib_module: false,
                importlib_import_module: false,
                uncertainties: set![Part2Uncertainty::ExternalImport],
            }
        },
        LocalModuleResolution::Unsupported(_) => only_uncertainty(Part2Uncertainty::ImportResolution),
    }
}

/// The value the binding of `import requested` takes, given how its target resolved.
pub fn import_value(resolution: &LocalModuleResolution, requested: &str) -> (v: ValueSet)
    ensures
        value_view(v) == import_value_spec(*resolution, requested@),
{
    match resolution {
        LocalModuleResolution::Module(m) => ValueSet::module(*m),
        LocalModuleResolution::Namespace(_) => {
            let v = ValueSet::empty().with_uncertainty(Part2Uncertainty::UnsupportedNamespace);
            proof {
                assert(value_view(v) =~= only_uncertainty(Part2Uncertainty::UnsupportedNamespace));
            }
            v
        },
        LocalModuleResolution::External => {
            if str_eq(requested, "importlib") {
                ValueSet::importlib_module()
            } else {
                ValueSet::external(Part2Uncertainty::ExternalImport)
            }
        },
        LocalModuleResolution::Unsupported(_) => {
            let v = ValueSet::empty().with_uncertainty(Part2Uncertainty::ImportResolution);
            proof {
                assert(value_view(v) =~= only_uncertainty(Part2Uncertainty::ImportResolution));
            }
            v
        },
    }
}

/// `from importlib import import_module`, without a relative level.
pub open spec fn is_import_module_import(level: u32, module_name: Option<Seq<char>>, name: Seq<char>) -> bool {
    level == 0 && module_name == Some("importlib"@) && name == "import_module"@
}

/// The value the binding of `from module_name import name` takes: `importlib.import_module`
/// for that import, otherwise what the imported name resolved to.
pub fn import_from_value(level: u32, module_name: Option<&str>, name: &str, target: ValueSet) -> (v: ValueSet)
    ensures
        is_import_module_import(level, match module_name { Some(m) => Some(m@), None => None }, name@) ==> value_view(v)
            == (ValueView {
            modules: Set::empty(),
            definitions: Set::empty(),
            external: true,
            importlib_module: false,
            importlib_import_module: true,
            uncertainties: Set::empty(),
        }),
        !is_import_module_import(level, match module_name { Some(m) => Some(m@), None => None }, name@) ==> v == target,
{
    let from_importlib = match module_name {
        Some(m) => str_eq(m, "importlib"),
        None => false,
    };
    if level == 0 && from_importlib && str_eq(name, "import_module") {
        ValueSet::importlib_import_module()
    } else {
        target
    }
}

} // verus!
