//! The module namespace slots of the project resolver: for each module and name, what the
//! name may denote at module level; and the public names and export surface read from them.
use vstd::prelude::*;

use std::collections::BTreeMap;

use crate::candidates::copy_values;
use crate::findings::{is_public_name, Part2Uncertainty};
use crate::ids::{BindingId, DefId, ModuleId, ScopeId};
use crate::semantic::BindingFact;
use crate::output::FindingExportKind;
use crate::output::{insert_sorted_unique, string_views, strictly_sorted_strings};
use crate::text::str_eq;
use crate::module_namespace::LocalModuleResolution;
use crate::values::{only_uncertainty, value_join, value_view, ValueSet, ValueView};

verus! {

/// What one module-level name may denote.
#[derive(Debug)]
pub struct SlotEntry {
    pub module: ModuleId,
    pub name: String,
    pub value: ValueSet,
}

/// The module-level slots. No module and name have two entries.
#[derive(Debug)]
pub struct ModuleSlots {
    pub entries: Vec<SlotEntry>,
}

pub open spec fn entry_key(e: SlotEntry) -> (ModuleId, Seq<char>) {
    (e.module, e.name@)
}

pub open spec fn keys_distinct(s: Seq<SlotEntry>) -> bool {
    forall|i: int, j: int| 0 <= i < j < s.len() ==> entry_key(#[trigger] s[i]) != entry_key(#[trigger] s[j])
}

pub open spec fn has_key(s: Seq<SlotEntry>, k: (ModuleId, Seq<char>)) -> bool {
    exists|i: int| 0 <= i < s.len() && entry_key(#[trigger] s[i]) == k
}

/// The slots as a map from module and name to value.
pub open spec fn slots_map(s: Seq<SlotEntry>) -> Map<(ModuleId, Seq<char>), ValueView> {
    Map::new(
        |k: (ModuleId, Seq<char>)| has_key(s, k),
        |k: (ModuleId, Seq<char>)| value_view(s[choose|i: int| 0 <= i < s.len() && entry_key(#[trigger] s[i]) == k].value),
    )
}

/// The value that denotes nothing.
pub open spec fn nothing() -> ValueView {
    ValueView {
        modules: Set::empty(),
        definitions: Set::empty(),
        external: false,
        importlib_module: false,
        importlib_import_module: false,
        uncertainties: Set::empty(),
    }
}

/// The value of a slot, nothing when the slot is absent.
pub open spec fn slot_or_nothing(m: Map<(ModuleId, Seq<char>), ValueView>, k: (ModuleId, Seq<char>)) -> ValueView {
    if m.dom().contains(k) {
        m[k]
    } else {
        nothing()
    }
}

proof fn lemma_map_index(s: Seq<SlotEntry>, i: int)
    requires
        keys_distinct(s),
        0 <= i < s.len(),
    ensures
        slots_map(s).dom().contains(entry_key(s[i])),
        slots_map(s)[entry_key(s[i])] == value_view(s[i].value),
{
    let k = entry_key(s[i]);
    assert(has_key(s, k));
    let c = choose|j: int| 0 <= j < s.len() && entry_key(#[trigger] s[j]) == k;
    assert(c == i);
}

proof fn lemma_map_update(s: Seq<SlotEntry>, i: int, e: SlotEntry)
    requires
        keys_distinct(s),
        0 <= i < s.len(),
        entry_key(e) == entry_key(s[i]),
    ensures
        keys_distinct(s.update(i, e)),
        slots_map(s.update(i, e)) == slots_map(s).insert(entry_key(e), value_view(e.value)),
{
    let t = s.update(i, e);
    assert(keys_distinct(t)) by {
        assert forall|a: int, b: int| 0 <= a < b < t.len() implies entry_key(#[trigger] t[a]) != entry_key(#[trigger] t[b]) by {
            assert(entry_key(t[a]) == entry_key(s[a]) && entry_key(t[b]) == entry_key(s[b]));
        }
    }
    let m = slots_map(s).insert(entry_key(e), value_view(e.value));
    assert forall|k: (ModuleId, Seq<char>)| #[trigger] slots_map(t).dom().contains(k) <==> m.dom().contains(k) by {
        if has_key(t, k) {
            let j = choose|j: int| 0 <= j < t.len() && entry_key(#[trigger] t[j]) == k;
            assert(entry_key(s[j]) == k);
        }
        if has_key(s, k) {
            let j = choose|j: int| 0 <= j < s.len() && entry_key(#[trigger] s[j]) == k;
            assert(entry_key(t[j]) == k);
        }
        if k == entry_key(e) {
            assert(entry_key(t[i]) == k);
        }
    }
    assert forall|k: (ModuleId, Seq<char>)| #[trigger] slots_map(t).dom().contains(k) implies slots_map(t)[k] == m[k] by {
        let j = choose|j: int| 0 <= j < t.len() && entry_key(#[trigger] t[j]) == k;
        lemma_map_index(t, j);
        if j != i {
            assert(t[j] == s[j]);
            lemma_map_index(s, j);
        }
    }
    assert(slots_map(t) =~= m);
}

proof fn lemma_map_push(s: Seq<SlotEntry>, e: SlotEntry)
    requires
        keys_distinct(s),
        !has_key(s, entry_key(e)),
    ensures
        keys_distinct(s.push(e)),
        slots_map(s.push(e)) == slots_map(s).insert(entry_key(e), value_view(e.value)),
{
    let t = s.push(e);
    assert(keys_distinct(t)) by {
        assert forall|a: int, b: int| 0 <= a < b < t.len() implies entry_key(#[trigger] t[a]) != entry_key(#[trigger] t[b]) by {
            assert(t[a] == s[a]);
            if b < s.len() {
                assert(t[b] == s[b]);
            }
        }
    }
    let m = slots_map(s).insert(entry_key(e), value_view(e.value));
    assert forall|q: (ModuleId, Seq<char>)| #[trigger] slots_map(t).dom().contains(q) <==> m.dom().contains(q) by {
        if has_key(t, q) {
            let j = choose|j: int| 0 <= j < t.len() && entry_key(#[trigger] t[j]) == q;
            if j < s.len() {
                assert(entry_key(s[j]) == q);
            }
        }
        if has_key(s, q) {
            let j = choose|j: int| 0 <= j < s.len() && entry_key(#[trigger] s[j]) == q;
            assert(entry_key(t[j]) == q);
        }
        if q == entry_key(e) {
            assert(entry_key(t[s.len() as int]) == q);
        }
    }
    assert forall|q: (ModuleId, Seq<char>)| #[trigger] slots_map(t).dom().contains(q) implies slots_map(t)[q] == m[q] by {
        let j = choose|j: int| 0 <= j < t.len() && entry_key(#[trigger] t[j]) == q;
        lemma_map_index(t, j);
        if j < s.len() {
            assert(t[j] == s[j]);
            lemma_map_index(s, j);
        }
    }
    assert(slots_map(t) =~= m);
}

/// A copy of a value set.
pub fn copy_value(v: &ValueSet) -> (c: ValueSet)
    ensures
        c.modules@ == v.modules@,
        c.definitions@ == v.definitions@,
        c.uncertainties@ == v.uncertainties@,
        c.external == v.external,
        c.importlib_module == v.importlib_module,
        c.importlib_import_module == v.importlib_import_module,
        value_view(c) == value_view(*v),
{
    ValueSet {
        modules: copy_values(&v.modules),
        definitions: copy_values(&v.definitions),
        external: v.external,
        importlib_module: v.importlib_module,
        importlib_import_module: v.importlib_import_module,
        uncertainties: copy_values(&v.uncertainties),
    }
}

impl ModuleSlots {
    /// No slot.
    pub fn new() -> (s: Self)
        ensures
            keys_distinct(s.entries@),
            slots_map(s.entries@) == Map::<(ModuleId, Seq<char>), ValueView>::empty(),
    {
        let s = ModuleSlots { entries: Vec::new() };
        assert(slots_map(s.entries@) =~= Map::<(ModuleId, Seq<char>), ValueView>::empty());
        s
    }

    /// Where the slot of `name` in `module` is, if there is one.
    fn find(&self, module: ModuleId, name: &str) -> (r: Option<usize>)
        ensures
            match r {
                Some(i) => i < self.entries@.len() && entry_key(self.entries@[i as int]) == (module, name@),
                None => !has_key(self.entries@, (module, name@)),
            },
    {
        let mut i: usize = 0;
        while i < self.entries.len()
            invariant
                0 <= i <= self.entries@.len(),
                forall|j: int| 0 <= j < i ==> entry_key(#[trigger] self.entries@[j]) != (module, name@),
            decreases self.entries@.len() - i,
        {
            if self.entries[i].module.0 == module.0 && str_eq(self.entries[i].name.as_str(), name) {
                return Some(i);
            }
            i = i + 1;
        }
        None
    }

    /// What `name` may denote in `module`: nothing if it has no slot.
    pub fn value_of(&self, module: ModuleId, name: &str) -> (v: ValueSet)
        requires
            keys_distinct(self.entries@),
        ensures
            value_view(v) == slot_or_nothing(slots_map(self.entries@), (module, name@)),
    {
        match self.find(module, name) {
            Some(i) => {
                proof {
                    lemma_map_index(self.entries@, i as int);
                }
                copy_value(&self.entries[i].value)
            },
            None => {
                let v = ValueSet::empty();
                proof {
                    assert(value_view(v) =~= nothing());
                }
                v
            },
        }
    }

    /// Joins `value` into the slot of `name` in `module`, creating the slot if needed;
    /// tells whether the slot's value grew.
    pub fn union_into(&mut self, module: ModuleId, name: &str, value: ValueSet) -> (changed: bool)
        requires
            keys_distinct(old(self).entries@),
        ensures
            keys_distinct(final(self).entries@),
            slots_map(final(self).entries@) == slots_map(old(self).entries@).insert(
                (module, name@),
                value_join(slot_or_nothing(slots_map(old(self).entries@), (module, name@)), value_view(value)),
            ),
            changed == (value_join(slot_or_nothing(slots_map(old(self).entries@), (module, name@)), value_view(value))
                != slot_or_nothing(slots_map(old(self).entries@), (module, name@))),
    {
        match self.find(module, name) {
            Some(i) => {
                proof {
                    lemma_map_index(self.entries@, i as int);
                }
                let mut current = copy_value(&self.entries[i].value);
                let changed = current.union_with(value);
                let entry = SlotEntry { module, name: name.to_owned(), value: current };
                proof {
                    lemma_map_update(self.entries@, i as int, entry);
                }
                self.entries.set(i, entry);
                changed
            },
            None => {
                let mut current = ValueSet::empty();
                proof {
                    assert(value_view(current) =~= nothing());
                }
                let changed = current.union_with(value);
                let entry = SlotEntry { module, name: name.to_owned(), value: current };
                proof {
                    lemma_map_push(self.entries@, entry);
                }
                self.entries.push(entry);
                changed
            },
        }
    }
}

/// The names of a list of named values.
pub open spec fn pair_names(out: Seq<(String, ValueSet)>) -> Seq<Seq<char>> {
    out.map_values(|p: (String, ValueSet)| p.0@)
}

/// A public name: one that does not start with `_`.
pub open spec fn public(name: Seq<char>) -> bool {
    !(name.len() > 0 && name[0] == '_')
}

/// The public names of `module` that have a slot.
pub open spec fn public_names(m: Map<(ModuleId, Seq<char>), ValueView>, module: ModuleId) -> Set<Seq<char>> {
    Set::new(|n: Seq<char>| m.dom().contains((module, n)) && public(n))
}

/// Names in increasing order, each with the value of its slot in `module` (nothing when it
/// has none).
pub open spec fn named_values(out: Seq<(String, ValueSet)>, m: Map<(ModuleId, Seq<char>), ValueView>, module: ModuleId) -> bool {
    &&& strictly_sorted_strings(pair_names(out))
    &&& forall|k: int| 0 <= k < out.len() ==> value_view((#[trigger] out[k]).1) == slot_or_nothing(m, (module, out[k].0@))
}

impl ModuleSlots {
    /// The values of the given names in `module`, in the names' order.
    fn values_of_names(&self, module: ModuleId, names: Vec<String>) -> (out: Vec<(String, ValueSet)>)
        requires
            keys_distinct(self.entries@),
        ensures
            pair_names(out@) == string_views(names@),
            forall|k: int| 0 <= k < out@.len() ==> value_view((#[trigger] out@[k]).1) == slot_or_nothing(
                slots_map(self.entries@),
                (module, out@[k].0@),
            ),
    {
        let mut out: Vec<(String, ValueSet)> = Vec::new();
        let mut i: usize = 0;
        while i < names.len()
            invariant
                0 <= i <= names@.len(),
                keys_distinct(self.entries@),
                pair_names(out@) == string_views(names@).take(i as int),
                forall|k: int| 0 <= k < out@.len() ==> value_view((#[trigger] out@[k]).1) == slot_or_nothing(
                    slots_map(self.entries@),
                    (module, out@[k].0@),
                ),
            decreases names@.len() - i,
        {
            let value = self.value_of(module, names[i].as_str());
            let ghost before = out@;
            let name = names[i].clone();
            proof {
                assert(name@ == string_views(names@)[i as int]);
            }
            out.push((name, value));
            proof {
                assert(out@ == before.push(out@.last()));
                assert(pair_names(out@) =~= pair_names(before).push(string_views(names@)[i as int]));
                assert(string_views(names@).take(i + 1) =~= string_views(names@).take(i as int).push(string_views(names@)[i as int]));
            }
            i = i + 1;
        }
        proof {
            assert(string_views(names@).take(names@.len() as int) =~= string_views(names@));
        }
        out
    }

    /// The public names of `module` with their values, in increasing name order.
    pub fn public_slots(&self, module: ModuleId) -> (out: Vec<(String, ValueSet)>)
        requires
            keys_distinct(self.entries@),
        ensures
            named_values(out@, slots_map(self.entries@), module),
            forall|n: Seq<char>|
                #[trigger] pair_names(out@).contains(n) <==> public_names(
                    slots_map(self.entries@),
                    module,
                ).contains(n),
    {
        let mut names: Vec<String> = Vec::new();
        let mut i: usize = 0;
        while i < self.entries.len()
            invariant
                0 <= i <= self.entries@.len(),
                keys_distinct(self.entries@),
                strictly_sorted_strings(string_views(names@)),
                forall|n: Seq<char>|
                    #[trigger] string_views(names@).contains(n) <==> (exists|j: int|
                        0 <= j < i && entry_key(#[trigger] self.entries@[j]) == (module, n)) && public(n),
            decreases self.entries@.len() - i,
        {
            let ghost before = string_views(names@);
            if self.entries[i].module.0 == module.0 && is_public_name(self.entries[i].name.as_str()) {
                insert_sorted_unique(&mut names, self.entries[i].name.clone());
            }
            proof {
                assert forall|n: Seq<char>|
                    #[trigger] string_views(names@).contains(n) <==> (exists|j: int|
                        0 <= j < i + 1 && entry_key(#[trigger] self.entries@[j]) == (module, n)) && public(n) by {
                    if exists|j: int| 0 <= j < i + 1 && entry_key(#[trigger] self.entries@[j]) == (module, n) {
                        let j = choose|j: int| 0 <= j < i + 1 && entry_key(#[trigger] self.entries@[j]) == (module, n);
                        if j < i {
                            assert(exists|j: int| 0 <= j < i && entry_key(#[trigger] self.entries@[j]) == (module, n));
                        }
                    }
                    if before.contains(n) {
                        let j = choose|j: int| 0 <= j < i && entry_key(#[trigger] self.entries@[j]) == (module, n);
                        assert(0 <= j < i + 1);
                    }
                    if n == self.entries@[i as int].name@ && self.entries@[i as int].module == module {
                        assert(entry_key(self.entries@[i as int]) == (module, n));
                    }
                }
            }
            i = i + 1;
        }
        let ghost nv = string_views(names@);
        let out = self.values_of_names(module, names);
        proof {
            assert forall|n: Seq<char>|
                #[trigger] pair_names(out@).contains(n) <==> public_names(
                    slots_map(self.entries@),
                    module,
                ).contains(n) by {
                if has_key(self.entries@, (module, n)) {
                    let j = choose|j: int| 0 <= j < self.entries@.len() && entry_key(#[trigger] self.entries@[j]) == (module, n);
                    assert(exists|j: int| 0 <= j < self.entries@.len() && entry_key(#[trigger] self.entries@[j]) == (module, n));
                }
            }
        }
        out
    }

    /// The names a star import of `module` binds, with their values, in increasing name
    /// order: when the module's `__all__` lists names, those names, with its public names too
    /// when `__all__` may not be all; otherwise its public names. `explicit` is `None` when
    /// the module's source is unknown.
    pub fn export_surface(&self, module: ModuleId, explicit: Option<&Vec<String>>, implicit_possible: bool) -> (out: Vec<(String, ValueSet)>)
        requires
            keys_distinct(self.entries@),
        ensures
            named_values(out@, slots_map(self.entries@), module),
            forall|n: Seq<char>|
                #[trigger] pair_names(out@).contains(n) <==> match explicit {
                    Some(names) => if names@.len() > 0 {
                        string_views(names@).contains(n) || (implicit_possible && public_names(
                            slots_map(self.entries@),
                            module,
                        ).contains(n))
                    } else {
                        public_names(slots_map(self.entries@), module).contains(n)
                    },
                    None => public_names(slots_map(self.entries@), module).contains(n),
                },
    {
        let names = match explicit {
            Some(names) => names,
            None => {
                return self.public_slots(module);
            },
        };
        if names.len() == 0 {
            return self.public_slots(module);
        }
        let mut merged: Vec<String> = Vec::new();
        if implicit_possible {
            let public = self.public_slots(module);
            let mut i: usize = 0;
            while i < public.len()
                invariant
                    0 <= i <= public@.len(),
                    strictly_sorted_strings(string_views(merged@)),
                    forall|n: Seq<char>|
                        #[trigger] string_views(merged@).contains(n) <==> pair_names(public@).take(
                            i as int,
                        ).contains(n),
                decreases public@.len() - i,
            {
                let ghost pv = pair_names(public@);
                insert_sorted_unique(&mut merged, public[i].0.clone());
                proof {
                    let t0 = pv.take(i as int);
                    let t1 = pv.take(i + 1);
                    assert(t1 =~= t0.push(pv[i as int]));
                    assert forall|n: Seq<char>| #[trigger] t1.contains(n) <==> (t0.contains(n) || n == pv[i as int]) by {
                        if t1.contains(n) {
                            let k = choose|k: int| 0 <= k < t1.len() && t1[k] == n;
                            if k < i {
                                assert(t0[k] == n);
                            }
                        }
                        if t0.contains(n) {
                            let k = choose|k: int| 0 <= k < t0.len() && t0[k] == n;
                            assert(t1[k] == n);
                        }
                        if n == pv[i as int] {
                            assert(t1[i as int] == n);
                        }
                    }
                }
                i = i + 1;
            }
            proof {
                let pv = pair_names(public@);
                assert(pv.take(pv.len() as int) =~= pv);
            }
        }
        let ghost base = string_views(merged@);
        let mut j: usize = 0;
        while j < names.len()
            invariant
                0 <= j <= names@.len(),
                strictly_sorted_strings(string_views(merged@)),
                forall|n: Seq<char>|
                    #[trigger] string_views(merged@).contains(n) <==> (base.contains(n) || string_views(names@).take(
                        j as int,
                    ).contains(n)),
            decreases names@.len() - j,
        {
            let ghost nv = string_views(names@);
            insert_sorted_unique(&mut merged, names[j].clone());
            proof {
                    let t0 = nv.take(j as int);
                    let t1 = nv.take(j + 1);
                assert forall|n: Seq<char>| #[trigger] t1.contains(n) <==> (t0.contains(n) || n == nv[j as int]) by {
                    if t1.contains(n) {
                        let k = choose|k: int| 0 <= k < t1.len() && t1[k] == n;
                        if k < j {
                            assert(t0[k] == n);
                        }
                    }
                    if t0.contains(n) {
                        let k = choose|k: int| 0 <= k < t0.len() && t0[k] == n;
                        assert(t1[k] == n);
                    }
                    if n == nv[j as int] {
                        assert(t1[j as int] == n);
                    }
                }
            }
            j = j + 1;
        }
        proof {
            assert(string_views(names@).take(names@.len() as int) =~= string_views(names@));
        }
        self.values_of_names(module, merged)
    }
}

// ----- package attributes -----

/// The parent package and attribute of a dotted module name: the parts around its last dot.
pub open spec fn parent_and_attribute(full_name: Seq<char>) -> Option<(Seq<char>, Seq<char>)> {
    if exists|k: int| 0 <= k < full_name.len() && full_name[k] == '.' {
        let k = choose|k: int|
            0 <= k < full_name.len() && full_name[k] == '.' && forall|j: int| k < j < full_name.len() ==> full_name[j] != '.';
        Some((full_name.subrange(0, k), full_name.subrange(k + 1, full_name.len() as int)))
    } else {
        None
    }
}

/// The parent package and attribute of a dotted module name, split at its last dot.
pub fn split_parent(full_name: &str) -> (r: Option<(String, String)>)
    ensures
        match r {
            Some((p, a)) => parent_and_attribute(full_name@) == Some((p@, a@)),
            None => parent_and_attribute(full_name@) is None,
        },
{
    let chars = crate::text::str_chars(full_name);
    let mut k: usize = chars.len();
    while k > 0
        invariant
            0 <= k <= chars@.len(),
            chars@ == full_name@,
            forall|j: int| k <= j < chars@.len() ==> chars@[j] != '.',
        decreases k,
    {
        if chars[k - 1] == '.' {
            let dot = k - 1;
            proof {
                let s = full_name@;
                assert(0 <= dot < s.len() && s[dot as int] == '.');
                let c = choose|c: int| 0 <= c < s.len() && s[c] == '.' && forall|j: int| c < j < s.len() ==> s[j] != '.';
                if c < dot {
                    assert(s[dot as int] != '.');
                }
                if c > dot {
                    assert(chars@[c] != '.');
                }
            }
            let parent = crate::text::string_from_chars(crate::text::slice_chars(chars.as_slice(), 0, dot).as_slice());
            let attr = crate::text::string_from_chars(crate::text::slice_chars(chars.as_slice(), dot + 1, chars.len()).as_slice());
            return Some((parent, attr));
        }
        k = k - 1;
    }
    None
}

/// The value a package gains for a submodule imported as its attribute: the submodule, which
/// may be only partly initialized and whose binding depends on import order.
pub open spec fn submodule_attribute(module: ModuleId) -> ValueView {
    ValueView {
        modules: set![module],
        definitions: Set::empty(),
        external: false,
        importlib_module: false,
        importlib_import_module: false,
        uncertainties: set![Part2Uncertainty::PartialInitialization, Part2Uncertainty::NamespaceOrder],
    }
}

impl ModuleSlots {
    /// Binds submodule `module` as attribute `attr` of package `parent`; tells whether the
    /// slot grew.
    pub fn add_package_attribute(&mut self, parent: ModuleId, attr: &str, module: ModuleId) -> (changed: bool)
        requires
            keys_distinct(old(self).entries@),
        ensures
            keys_distinct(final(self).entries@),
            slots_map(final(self).entries@) == slots_map(old(self).entries@).insert(
                (parent, attr@),
                value_join(slot_or_nothing(slots_map(old(self).entries@), (parent, attr@)), submodule_attribute(module)),
            ),
            changed == (value_join(slot_or_nothing(slots_map(old(self).entries@), (parent, attr@)), submodule_attribute(module))
                != slot_or_nothing(slots_map(old(self).entries@), (parent, attr@))),
    {
        let value = ValueSet::module(module).with_uncertainty(Part2Uncertainty::PartialInitialization).with_uncertainty(
            Part2Uncertainty::NamespaceOrder,
        );
        proof {
            assert(value_view(value) =~= submodule_attribute(module));
        }
        self.union_into(parent, attr, value)
    }
}

// ----- export references -----

/// A definition that a module makes public under a name.
#[derive(Debug)]
pub struct ExportRecord {
    pub definition: DefId,
    pub public_name: String,
    pub kind: FindingExportKind,
    pub source_module: ModuleId,
}

pub open spec fn export_key(e: ExportRecord) -> (DefId, Seq<char>, FindingExportKind, ModuleId) {
    (e.definition, e.public_name@, e.kind, e.source_module)
}

pub open spec fn export_keys(s: Seq<ExportRecord>) -> Seq<(DefId, Seq<char>, FindingExportKind, ModuleId)> {
    s.map_values(|e: ExportRecord| export_key(e))
}

/// The export records after recording each of `defs` under one name, kind and module, in
/// order, skipping those already recorded.
pub open spec fn exports_after(
    old: Seq<(DefId, Seq<char>, FindingExportKind, ModuleId)>,
    defs: Seq<DefId>,
    name: Seq<char>,
    kind: FindingExportKind,
    module: ModuleId,
) -> Seq<(DefId, Seq<char>, FindingExportKind, ModuleId)>
    decreases defs.len(),
{
    if defs.len() == 0 {
        old
    } else {
        let prev = exports_after(old, defs.drop_last(), name, kind, module);
        let key = (defs.last(), name, kind, module);
        if prev.contains(key) {
            prev
        } else {
            prev.push(key)
        }
    }
}

/// Records each definition of `value` as exported under `public_name` by `source_module`,
/// unless already recorded, with a cross reference for each new record; tells whether any
/// record was added.
pub fn record_exports(
    exports: &mut Vec<ExportRecord>,
    cross_references: &mut Vec<DefId>,
    value: &ValueSet,
    public_name: &str,
    kind: FindingExportKind,
    source_module: ModuleId,
) -> (added: bool)
    ensures
        export_keys(final(exports)@) == exports_after(export_keys(old(exports)@), value.definitions@, public_name@, kind, source_module),
        final(cross_references)@ == old(cross_references)@ + export_keys(final(exports)@).subrange(
            old(exports)@.len() as int,
            final(exports)@.len() as int,
        ).map_values(|k: (DefId, Seq<char>, FindingExportKind, ModuleId)| k.0),
        added == (final(exports)@.len() != old(exports)@.len()),
{
    let before = exports.len();
    let ghost start = export_keys(exports@);
    let ghost cross_start = cross_references@;
    let defs = &value.definitions;
    let mut i: usize = 0;
    proof {
        assert(defs@.take(0) =~= Seq::<DefId>::empty());
        assert(export_keys(exports@).subrange(before as int, exports@.len() as int).map_values(
            |k: (DefId, Seq<char>, FindingExportKind, ModuleId)| k.0,
        ) =~= Seq::<DefId>::empty());
        assert(cross_references@ =~= cross_start + Seq::<DefId>::empty());
    }
    while i < defs.len()
        invariant
            0 <= i <= defs@.len(),
            before == start.len(),
            before <= exports@.len(),
            export_keys(exports@) == exports_after(start, defs@.take(i as int), public_name@, kind, source_module),
            cross_references@ == cross_start + export_keys(exports@).subrange(before as int, exports@.len() as int).map_values(
                |k: (DefId, Seq<char>, FindingExportKind, ModuleId)| k.0,
            ),
        decreases defs@.len() - i,
    {
        let d = defs[i];
        let ghost prev = export_keys(exports@);
        let mut found = false;
        let mut j: usize = 0;
        while j < exports.len()
            invariant
                0 <= j <= exports@.len(),
                prev == export_keys(exports@),
                found == exists|t: int| 0 <= t < j && prev[t] == (d, public_name@, kind, source_module),
            decreases exports@.len() - j,
        {
            let same_kind = match (exports[j].kind, kind) {
                (FindingExportKind::ExplicitAll, FindingExportKind::ExplicitAll) => true,
                (FindingExportKind::DirectReExport, FindingExportKind::DirectReExport) => true,
                (FindingExportKind::AliasedReExport, FindingExportKind::AliasedReExport) => true,
                (FindingExportKind::PackagePublicBinding, FindingExportKind::PackagePublicBinding) => true,
                _ => false,
            };
            if exports[j].definition.0 == d.0 && str_eq(exports[j].public_name.as_str(), public_name) && same_kind
                && exports[j].source_module.0 == source_module.0 {
                found = true;
            }
            proof {
                assert(prev[j as int] == export_key(exports@[j as int]));
            }
            j = j + 1;
        }
        proof {
            assert(defs@.take(i + 1).drop_last() =~= defs@.take(i as int));
            assert(defs@.take(i + 1).last() == d);
            if found {
                let t = choose|t: int| 0 <= t < j && prev[t] == (d, public_name@, kind, source_module);
                assert(prev.contains((d, public_name@, kind, source_module)));
            }
        }
        if !found {
            let ghost before_exports = exports@;
            exports.push(
                ExportRecord { definition: d, public_name: public_name.to_owned(), kind, source_module },
            );
            cross_references.push(d);
            proof {
                assert(export_keys(exports@) =~= prev.push((d, public_name@, kind, source_module)));
                assert(export_keys(exports@).subrange(before as int, exports@.len() as int) =~= prev.subrange(
                    before as int,
                    before_exports.len() as int,
                ).push((d, public_name@, kind, source_module)));
                assert(cross_references@ =~= cross_start + export_keys(exports@).subrange(
                    before as int,
                    exports@.len() as int,
                ).map_values(|k: (DefId, Seq<char>, FindingExportKind, ModuleId)| k.0));
            }
        }
        i = i + 1;
    }
    proof {
        assert(defs@.take(defs@.len() as int) =~= defs@);
    }
    exports.len() != before
}

// ----- from-imports -----

/// The value denotes nothing (uncertainties aside).
pub open spec fn denotes_nothing(v: ValueView) -> bool {
    v.modules.is_empty() && v.definitions.is_empty() && !v.external && !v.importlib_module && !v.importlib_import_module
}

pub open spec fn module_value(m: ModuleId) -> ValueView {
    ValueView {
        modules: set![m],
        definitions: Set::empty(),
        external: false,
        importlib_module: false,
        importlib_import_module: false,
        uncertainties: Set::empty(),
    }
}

pub open spec fn outside_import() -> ValueView {
    ValueView {
        modules: Set::empty(),
        definitions: Set::empty(),
        external: true,
        importlib_module: false,
        importlib_import_module: false,
        uncertainties: set![Part2Uncertainty::ExternalImport],
    }
}

/// What `from base import name` binds, given how the base module and the submodule
/// `base.name` resolve (`base` is `None` when a relative import climbs above the top-level
/// package): for a project module, its slot for `name` when that denotes anything, else the
/// submodule; for a namespace package, the submodule if it is a project module; outside the
/// project, an outside value; otherwise nothing but the uncertainty. The flag tells whether
/// the submodule becomes an attribute of the base package.
pub open spec fn import_from_spec(
    m: Map<(ModuleId, Seq<char>), ValueView>,
    base: Option<LocalModuleResolution>,
    name: Seq<char>,
    submodule: LocalModuleResolution,
) -> (ValueView, bool) {
    match base {
        None => (only_uncertainty(Part2Uncertainty::ImportResolution), false),
        Some(LocalModuleResolution::Module(b)) => {
            let slot = slot_or_nothing(m, (b, name));
            if !denotes_nothing(slot) {
                (slot, false)
            } else {
                match submodule {
                    LocalModuleResolution::Module(s) => (module_value(s), true),
                    LocalModuleResolution::Namespace(_) => (only_uncertainty(Part2Uncertainty::UnsupportedNamespace), false),
                    LocalModuleResolution::External => (outside_import(), false),
                    LocalModuleResolution::Unsupported(_) => (only_uncertainty(Part2Uncertainty::ImportResolution), false),
                }
            }
        },
        Some(LocalModuleResolution::Namespace(_)) => match submodule {
            LocalModuleResolution::Module(s) => (module_value(s), false),
            _ => (only_uncertainty(Part2Uncertainty::UnsupportedNamespace), false),
        },
        Some(LocalModuleResolution::External) => (outside_import(), false),
        Some(LocalModuleResolution::Unsupported(_)) => (only_uncertainty(Part2Uncertainty::ImportResolution), false),
    }
}

impl ModuleSlots {
    /// What `from base import name` binds, and whether the submodule becomes an attribute of
    /// the base package.
    pub fn import_from_target(
        &self,
        base: Option<&LocalModuleResolution>,
        name: &str,
        submodule: &LocalModuleResolution,
    ) -> (r: (ValueSet, bool))
        requires
            keys_distinct(self.entries@),
        ensures
            (value_view(r.0), r.1) == import_from_spec(
                slots_map(self.entries@),
                match base { Some(b) => Some(*b), None => None },
                name@,
                *submodule,
            ),
    {
        let nothing_but = |u: Part2Uncertainty| -> (v: ValueSet)
            ensures
                value_view(v) == only_uncertainty(u),
            {
                let v = ValueSet::empty().with_uncertainty(u);
                proof {
                    assert(value_view(v) =~= only_uncertainty(u));
                }
                v
            };
        match base {
            None => (nothing_but(Part2Uncertainty::ImportResolution), false),
            Some(LocalModuleResolution::Module(b)) => {
                let slot = self.value_of(*b, name);
                if !slot.is_empty() {
                    return (slot, false);
                }
                match submodule {
                    LocalModuleResolution::Module(s) => (ValueSet::module(*s), true),
                    LocalModuleResolution::Namespace(_) => (nothing_but(Part2Uncertainty::UnsupportedNamespace), false),
                    LocalModuleResolution::External => (ValueSet::external(Part2Uncertainty::ExternalImport), false),
                    LocalModuleResolution::Unsupported(_) => (nothing_but(Part2Uncertainty::ImportResolution), false),
                }
            },
            Some(LocalModuleResolution::Namespace(_)) => match submodule {
                LocalModuleResolution::Module(s) => (ValueSet::module(*s), false),
                _ => (nothing_but(Part2Uncertainty::UnsupportedNamespace), false),
            },
            Some(LocalModuleResolution::External) => (ValueSet::external(Part2Uncertainty::ExternalImport), false),
            Some(LocalModuleResolution::Unsupported(_)) => (nothing_but(Part2Uncertainty::ImportResolution), false),
        }
    }
}

// ----- star imports and cross references -----

/// The slots after joining each named value of `surface`, in order, into `module`.
pub open spec fn star_after(m: Map<(ModuleId, Seq<char>), ValueView>, module: ModuleId, surface: Seq<(String, ValueSet)>) -> Map<
    (ModuleId, Seq<char>),
    ValueView,
>
    decreases surface.len(),
{
    if surface.len() == 0 {
        m
    } else {
        let prev = star_after(m, module, surface.drop_last());
        let key = (module, surface.last().0@);
        prev.insert(key, value_join(slot_or_nothing(prev, key), value_view(surface.last().1)))
    }
}

/// Some join of the star import grew its slot.
pub open spec fn star_changed(m: Map<(ModuleId, Seq<char>), ValueView>, module: ModuleId, surface: Seq<(String, ValueSet)>) -> bool
    decreases surface.len(),
{
    if surface.len() == 0 {
        false
    } else {
        let prev = star_after(m, module, surface.drop_last());
        let key = (module, surface.last().0@);
        star_changed(m, module, surface.drop_last()) || value_join(slot_or_nothing(prev, key), value_view(surface.last().1))
            != slot_or_nothing(prev, key)
    }
}

impl ModuleSlots {
    /// Binds in `module` each name of a star import's surface to its value; tells whether any
    /// slot grew.
    pub fn star_import_into(&mut self, module: ModuleId, surface: &Vec<(String, ValueSet)>) -> (changed: bool)
        requires
            keys_distinct(old(self).entries@),
        ensures
            keys_distinct(final(self).entries@),
            slots_map(final(self).entries@) == star_after(slots_map(old(self).entries@), module, surface@),
            changed == star_changed(slots_map(old(self).entries@), module, surface@),
    {
        let ghost start = slots_map(self.entries@);
        let mut changed = false;
        let mut i: usize = 0;
        proof {
            assert(surface@.take(0) =~= Seq::<(String, ValueSet)>::empty());
        }
        while i < surface.len()
            invariant
                0 <= i <= surface@.len(),
                keys_distinct(self.entries@),
                start == slots_map(old(self).entries@),
                slots_map(self.entries@) == star_after(start, module, surface@.take(i as int)),
                changed == star_changed(start, module, surface@.take(i as int)),
            decreases surface@.len() - i,
        {
            let value = copy_value(&surface[i].1);
            let grew = self.union_into(module, surface[i].0.as_str(), value);
            proof {
                assert(surface@.take(i + 1).drop_last() =~= surface@.take(i as int));
                assert(surface@.take(i + 1).last() == surface@[i as int]);
            }
            changed = changed || grew;
            i = i + 1;
        }
        proof {
            assert(surface@.take(surface@.len() as int) =~= surface@);
        }
        changed
    }
}

/// The cross references after adding each of `defs`, in order, unless already present.
pub open spec fn cross_after(old: Seq<DefId>, defs: Seq<DefId>) -> Seq<DefId>
    decreases defs.len(),
{
    if defs.len() == 0 {
        old
    } else {
        let prev = cross_after(old, defs.drop_last());
        if prev.contains(defs.last()) {
            prev
        } else {
            prev.push(defs.last())
        }
    }
}

/// Adds a cross reference to each definition of `value` that has none yet.
pub fn add_cross_references(cross_references: &mut Vec<DefId>, value: &ValueSet)
    ensures
        final(cross_references)@ == cross_after(old(cross_references)@, value.definitions@),
{
    let defs = &value.definitions;
    let mut i: usize = 0;
    proof {
        assert(defs@.take(0) =~= Seq::<DefId>::empty());
    }
    while i < defs.len()
        invariant
            0 <= i <= defs@.len(),
            cross_references@ == cross_after(old(cross_references)@, defs@.take(i as int)),
        decreases defs@.len() - i,
    {
        let d = defs[i];
        let mut found = false;
        let mut j: usize = 0;
        while j < cross_references.len()
            invariant
                0 <= j <= cross_references@.len(),
                found == exists|t: int| 0 <= t < j && cross_references@[t] == d,
            decreases cross_references@.len() - j,
        {
            if cross_references[j].0 == d.0 {
                found = true;
            }
            j = j + 1;
        }
        proof {
            assert(defs@.take(i + 1).drop_last() =~= defs@.take(i as int));
            assert(defs@.take(i + 1).last() == d);
            if found {
                let t = choose|t: int| 0 <= t < j && cross_references@[t] == d;
                assert(cross_references@.contains(d));
            }
        }
        if !found {
            cross_references.push(d);
        }
        i = i + 1;
    }
    proof {
        assert(defs@.take(defs@.len() as int) =~= defs@);
    }
}

// ----- binding values -----

/// The value recorded for a binding, nothing when none is.
pub open spec fn binding_value_or_nothing(m: Map<u32, ValueSet>, b: u32) -> ValueView {
    if m.contains_key(b) {
        value_view(m[b])
    } else {
        nothing()
    }
}

/// The binding is a module-level binding: it belongs to the scope of its module.
pub open spec fn module_level(fact: Option<BindingFact>, module_scope: Option<ScopeId>) -> bool {
    fact matches Some(f) && module_scope == Some(f.scope)
}

/// Joins `value` into what `binding` may denote and, for a module-level binding, into the
/// slot of its name in its module; tells whether either grew. `fact` is the binding's fact and
/// `module_scope` the scope of the fact's module, when known.
pub fn record_binding_value(
    bindings: &mut BTreeMap<u32, ValueSet>,
    slots: &mut ModuleSlots,
    binding: BindingId,
    fact: Option<&BindingFact>,
    module_scope: Option<ScopeId>,
    value: ValueSet,
) -> (changed: bool)
    requires
        keys_distinct(old(slots).entries@),
    ensures
        keys_distinct(final(slots).entries@),
        final(bindings)@.dom() == old(bindings)@.dom().insert(binding.0),
        value_view(final(bindings)@[binding.0]) == value_join(binding_value_or_nothing(old(bindings)@, binding.0), value_view(value)),
        forall|b: u32| b != binding.0 && #[trigger] old(bindings)@.contains_key(b) ==> final(bindings)@[b] == old(bindings)@[b],
        module_level(match fact { Some(f) => Some(*f), None => None }, module_scope) ==> slots_map(final(slots).entries@)
            == slots_map(old(slots).entries@).insert(
            (fact->0.module, fact->0.name@),
            value_join(slot_or_nothing(slots_map(old(slots).entries@), (fact->0.module, fact->0.name@)), value_view(value)),
        ),
        !module_level(match fact { Some(f) => Some(*f), None => None }, module_scope) ==> final(slots).entries@
            == old(slots).entries@,
        changed == (value_join(binding_value_or_nothing(old(bindings)@, binding.0), value_view(value))
            != binding_value_or_nothing(old(bindings)@, binding.0) || (module_level(
            match fact { Some(f) => Some(*f), None => None },
            module_scope,
        ) && value_join(slot_or_nothing(slots_map(old(slots).entries@), (fact->0.module, fact->0.name@)), value_view(value))
            != slot_or_nothing(slots_map(old(slots).entries@), (fact->0.module, fact->0.name@)))),
{
    let ghost old_bindings = bindings@;
    let mut current = match bindings.remove(&binding.0) {
        Some(v) => v,
        None => {
            let v = ValueSet::empty();
            proof {
                assert(value_view(v) =~= nothing());
            }
            v
        },
    };
    let grew = current.union_with(copy_value(&value));
    bindings.insert(binding.0, current);
    proof {
        assert(bindings@.dom() =~= old_bindings.dom().insert(binding.0));
        assert forall|b: u32| b != binding.0 && #[trigger] old_bindings.contains_key(b) implies bindings@[b] == old_bindings[b] by {
        }
    }
    let mut changed = grew;
    if let Some(f) = fact {
        let same_scope = match module_scope {
            Some(scope) => scope.0 == f.scope.0,
            None => false,
        };
        if same_scope {
            let slot_grew = slots.union_into(f.module, f.name.as_str(), value);
            changed = changed || slot_grew;
        }
    }
    changed
}

} // verus!
