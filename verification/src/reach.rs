//! The marking state of the reachability solver: which definitions, function contexts and
//! modules each domain has reached, and the work that newly reached modules and contexts
//! leave to scan; and how a root or a call activates a definition.
use vstd::prelude::*;

use crate::ids::{BindingId, ContextId, DefId, ModuleId};
use crate::ir::DefinitionKind;
use crate::output::ReachabilityDomain;
use crate::seeds::ModuleExecutionMode;
use crate::semantic::{BindingFact, SemanticDefinition, SemanticGraph};
use crate::slots::{keys_distinct, slot_or_nothing, slots_map, ModuleSlots};
use crate::values::ValueSet;
use crate::text::str_eq;

verus! {

/// Work left for the solver: run a module in a domain, or scan a context.
#[derive(Clone, Copy, Debug, PartialEq, Eq, Structural)]
pub enum WorkItem {
    Module { domain: ReachabilityDomain, module: ModuleId, mode: ModuleExecutionMode },
    Context { domain: ReachabilityDomain, context: ContextId },
}

/// What each domain has reached. The lists are sets: order and repetition carry no meaning.
#[derive(Debug)]
pub struct ReachState {
    pub production_values: Vec<DefId>,
    pub test_values: Vec<DefId>,
    pub external_values: Vec<DefId>,
    pub production_contexts: Vec<ContextId>,
    pub test_contexts: Vec<ContextId>,
    pub external_contexts: Vec<ContextId>,
    pub module_modes: Vec<(ReachabilityDomain, ModuleId, ModuleExecutionMode)>,
    pub dynamic_class_construction: Vec<DefId>,
    /// The definitions each definition's body uses, as (user, used) pairs.
    pub graph_edges: Vec<(DefId, DefId)>,
    /// Pending work, each item once.
    pub worklist: Vec<WorkItem>,
}

/// The definitions a domain has reached as values.
pub open spec fn values_in(s: ReachState, d: ReachabilityDomain) -> Set<DefId> {
    match d {
        ReachabilityDomain::Production => s.production_values@.to_set(),
        ReachabilityDomain::Test => s.test_values@.to_set(),
        ReachabilityDomain::ExternalSurface => s.external_values@.to_set(),
    }
}

/// The function contexts a domain has reached.
pub open spec fn contexts_in(s: ReachState, d: ReachabilityDomain) -> Set<ContextId> {
    match d {
        ReachabilityDomain::Production => s.production_contexts@.to_set(),
        ReachabilityDomain::Test => s.test_contexts@.to_set(),
        ReachabilityDomain::ExternalSurface => s.external_contexts@.to_set(),
    }
}

/// Everything but the values of one domain is unchanged.
pub open spec fn same_but_values(a: ReachState, b: ReachState, d: ReachabilityDomain) -> bool {
    &&& forall|x: ReachabilityDomain| x != d ==> values_in(a, x) == values_in(b, x)
    &&& forall|x: ReachabilityDomain| contexts_in(a, x) == contexts_in(b, x)
    &&& a.module_modes@ == b.module_modes@
    &&& a.dynamic_class_construction@ == b.dynamic_class_construction@
    &&& a.graph_edges@ == b.graph_edges@
    &&& a.worklist@ == b.worklist@
}

/// Pushing an element, or keeping a list that already holds it, inserts it into the set.
proof fn lemma_push_or_keep<A>(before: Seq<A>, after: Seq<A>, x: A)
    requires
        after == before.push(x) || (after == before && before.contains(x)),
    ensures
        after.to_set() == before.to_set().insert(x),
{
    before.lemma_push_to_set_commute(x);
    if after == before {
        assert(before.to_set().insert(x) =~= before.to_set());
    }
}

/// Adds a definition to a set of them; tells whether it was new.
fn insert_def(list: &mut Vec<DefId>, x: DefId) -> (added: bool)
    ensures
        final(list)@.to_set() == old(list)@.to_set().insert(x),
        added == !old(list)@.to_set().contains(x),
{
    let ghost before = list@;
    let mut j: usize = 0;
    while j < list.len()
        invariant
            0 <= j <= list@.len(),
            list@ == before,
            forall|t: int| 0 <= t < j ==> list@[t] != x,
        decreases list@.len() - j,
    {
        if list[j].0 == x.0 {
            proof {
                assert(before.contains(x));
                lemma_push_or_keep(before, before, x);
            }
            return false;
        }
        j = j + 1;
    }
    list.push(x);
    proof {
        lemma_push_or_keep(before, list@, x);
    }
    true
}

/// Adds a context to a set of them; tells whether it was new.
fn insert_context(list: &mut Vec<ContextId>, x: ContextId) -> (added: bool)
    ensures
        final(list)@.to_set() == old(list)@.to_set().insert(x),
        added == !old(list)@.to_set().contains(x),
{
    let ghost before = list@;
    let mut j: usize = 0;
    while j < list.len()
        invariant
            0 <= j <= list@.len(),
            list@ == before,
            forall|t: int| 0 <= t < j ==> list@[t] != x,
        decreases list@.len() - j,
    {
        if list[j].0 == x.0 {
            proof {
                assert(before.contains(x));
                lemma_push_or_keep(before, before, x);
            }
            return false;
        }
        j = j + 1;
    }
    list.push(x);
    proof {
        lemma_push_or_keep(before, list@, x);
    }
    true
}

/// Adds a work item to a list without repeats.
fn insert_work(list: &mut Vec<WorkItem>, x: WorkItem)
    requires
        old(list)@.no_duplicates(),
    ensures
        final(list)@.no_duplicates(),
        final(list)@.to_set() == old(list)@.to_set().insert(x),
{
    let ghost before = list@;
    let mut j: usize = 0;
    while j < list.len()
        invariant
            0 <= j <= list@.len(),
            list@ == before,
            before == old(list)@,
            old(list)@.no_duplicates(),
            forall|t: int| 0 <= t < j ==> list@[t] != x,
        decreases list@.len() - j,
    {
        if list[j] == x {
            proof {
                assert(before.contains(x));
                lemma_push_or_keep(before, before, x);
            }
            return;
        }
        j = j + 1;
    }
    list.push(x);
    proof {
        lemma_push_or_keep(before, list@, x);
        assert forall|a: int, b: int| 0 <= a < b < list@.len() implies list@[a] != list@[b] by {
            if b == before.len() {
                assert(list@[a] == before[a]);
            }
        }
    }
}

/// The reachability state is well formed: its worklist holds each item once.
pub open spec fn reach_wf(s: ReachState) -> bool {
    s.worklist@.no_duplicates()
}

impl ReachState {
    /// Nothing reached, nothing pending.
    pub fn new() -> (s: Self)
        ensures
            reach_wf(s),
            forall|d: ReachabilityDomain| values_in(s, d) == Set::<DefId>::empty() && contexts_in(s, d) == Set::<ContextId>::empty(),
            s.module_modes@.len() == 0,
            s.dynamic_class_construction@.len() == 0,
            s.graph_edges@.len() == 0,
            s.worklist@.len() == 0,
    {
        let s = ReachState {
            production_values: Vec::new(),
            test_values: Vec::new(),
            external_values: Vec::new(),
            production_contexts: Vec::new(),
            test_contexts: Vec::new(),
            external_contexts: Vec::new(),
            module_modes: Vec::new(),
            dynamic_class_construction: Vec::new(),
            graph_edges: Vec::new(),
            worklist: Vec::new(),
        };
        proof {
            assert(Seq::<DefId>::empty().to_set() =~= Set::<DefId>::empty());
            assert(Seq::<ContextId>::empty().to_set() =~= Set::<ContextId>::empty());
        }
        s
    }

    /// The domain reaches `definition` as a value.
    pub fn mark_value(&mut self, domain: ReachabilityDomain, definition: DefId)
        requires
            reach_wf(*old(self)),
        ensures
            reach_wf(*final(self)),
            values_in(*final(self), domain) == values_in(*old(self), domain).insert(definition),
            same_but_values(*final(self), *old(self), domain),
    {
        match domain {
            ReachabilityDomain::Production => {
                insert_def(&mut self.production_values, definition);
            },
            ReachabilityDomain::Test => {
                insert_def(&mut self.test_values, definition);
            },
            ReachabilityDomain::ExternalSurface => {
                insert_def(&mut self.external_values, definition);
            },
        }
    }

    /// The domain runs `module` in `mode`; the first time, the module is left to scan.
    pub fn mark_module(&mut self, domain: ReachabilityDomain, module: ModuleId, mode: ModuleExecutionMode)
        requires
            reach_wf(*old(self)),
        ensures
            reach_wf(*final(self)),
            final(self).module_modes@.to_set() == old(self).module_modes@.to_set().insert((domain, module, mode)),
            final(self).worklist@.to_set() == if old(self).module_modes@.to_set().contains((domain, module, mode)) {
                old(self).worklist@.to_set()
            } else {
                old(self).worklist@.to_set().insert(WorkItem::Module { domain, module, mode })
            },
            forall|x: ReachabilityDomain| values_in(*final(self), x) == values_in(*old(self), x) && contexts_in(*final(self), x)
                == contexts_in(*old(self), x),
            final(self).dynamic_class_construction@ == old(self).dynamic_class_construction@,
            final(self).graph_edges@ == old(self).graph_edges@,
    {
        let ghost before = self.module_modes@;
        let mut j: usize = 0;
        while j < self.module_modes.len()
            invariant
                0 <= j <= self.module_modes@.len(),
                *self == *old(self),
                reach_wf(*old(self)),
                self.module_modes@ == before,
                forall|t: int| 0 <= t < j ==> self.module_modes@[t] != (domain, module, mode),
            decreases self.module_modes@.len() - j,
        {
            let (d, m, md) = self.module_modes[j];
            if d == domain && m == module && md == mode {
                proof {
                    assert(before.contains((domain, module, mode)));
                    lemma_push_or_keep(before, before, (domain, module, mode));
                }
                return;
            }
            j = j + 1;
        }
        self.module_modes.push((domain, module, mode));
        proof {
            lemma_push_or_keep(before, self.module_modes@, (domain, module, mode));
        }
        insert_work(&mut self.worklist, WorkItem::Module { domain, module, mode });
    }

    /// The domain reaches the function context; the first time, it is left to scan.
    pub fn mark_context(&mut self, domain: ReachabilityDomain, context: ContextId)
        requires
            reach_wf(*old(self)),
        ensures
            reach_wf(*final(self)),
            contexts_in(*final(self), domain) == contexts_in(*old(self), domain).insert(context),
            forall|x: ReachabilityDomain| x != domain ==> contexts_in(*final(self), x) == contexts_in(*old(self), x),
            forall|x: ReachabilityDomain| values_in(*final(self), x) == values_in(*old(self), x),
            final(self).worklist@.to_set() == if contexts_in(*old(self), domain).contains(context) {
                old(self).worklist@.to_set()
            } else {
                old(self).worklist@.to_set().insert(WorkItem::Context { domain, context })
            },
            final(self).module_modes@ == old(self).module_modes@,
            final(self).dynamic_class_construction@ == old(self).dynamic_class_construction@,
            final(self).graph_edges@ == old(self).graph_edges@,
    {
        let inserted = match domain {
            ReachabilityDomain::Production => insert_context(&mut self.production_contexts, context),
            ReachabilityDomain::Test => insert_context(&mut self.test_contexts, context),
            ReachabilityDomain::ExternalSurface => insert_context(&mut self.external_contexts, context),
        };
        if inserted {
            insert_work(&mut self.worklist, WorkItem::Context { domain, context });
        } else {
            proof {
                assert(self.worklist@.to_set() == old(self).worklist@.to_set());
            }
        }
    }

    /// The domain reaches each of the contexts.
    pub fn mark_contexts(&mut self, domain: ReachabilityDomain, contexts: &Vec<ContextId>)
        requires
            reach_wf(*old(self)),
        ensures
            reach_wf(*final(self)),
            contexts_in(*final(self), domain) == contexts_in(*old(self), domain) + contexts@.to_set(),
            forall|x: ReachabilityDomain| x != domain ==> contexts_in(*final(self), x) == contexts_in(*old(self), x),
            forall|x: ReachabilityDomain| values_in(*final(self), x) == values_in(*old(self), x),
            forall|w: WorkItem|
                #[trigger] final(self).worklist@.to_set().contains(w) <==> (old(self).worklist@.to_set().contains(w) || (
                (w matches WorkItem::Context { domain: wd, context: c } && wd == domain && contexts@.to_set().contains(c)
                    && !contexts_in(*old(self), domain).contains(c)))),
            final(self).module_modes@ == old(self).module_modes@,
            final(self).dynamic_class_construction@ == old(self).dynamic_class_construction@,
            final(self).graph_edges@ == old(self).graph_edges@,
    {
        let ghost start_ctx = contexts_in(*self, domain);
        let ghost start_work = self.worklist@.to_set();
        let mut i: usize = 0;
        proof {
            assert(contexts@.take(0).to_set() =~= Set::<ContextId>::empty());
            assert(start_ctx + Set::<ContextId>::empty() =~= start_ctx);
        }
        while i < contexts.len()
            invariant
                0 <= i <= contexts@.len(),
                reach_wf(*self),
                start_ctx == contexts_in(*old(self), domain),
                start_work == old(self).worklist@.to_set(),
                contexts_in(*self, domain) == start_ctx + contexts@.take(i as int).to_set(),
                forall|x: ReachabilityDomain| x != domain ==> contexts_in(*self, x) == contexts_in(*old(self), x),
                forall|x: ReachabilityDomain| values_in(*self, x) == values_in(*old(self), x),
                forall|w: WorkItem|
                    #[trigger] self.worklist@.to_set().contains(w) <==> (start_work.contains(w) || (
                    (w matches WorkItem::Context { domain: wd, context: c } && wd == domain && contexts@.take(
                        i as int,
                    ).to_set().contains(c) && !start_ctx.contains(c)))),
                self.module_modes@ == old(self).module_modes@,
                self.dynamic_class_construction@ == old(self).dynamic_class_construction@,
                self.graph_edges@ == old(self).graph_edges@,
            decreases contexts@.len() - i,
        {
            let c = contexts[i];
            let ghost before_ctx = contexts_in(*self, domain);
            let ghost before_work = self.worklist@.to_set();
            self.mark_context(domain, c);
            proof {
                let t0 = contexts@.take(i as int);
                let t1 = contexts@.take(i + 1);
                assert(t1 =~= t0.push(c));
                t0.lemma_push_to_set_commute(c);
                assert(contexts_in(*self, domain) =~= start_ctx + t1.to_set());
                assert forall|w: WorkItem|
                    #[trigger] self.worklist@.to_set().contains(w) <==> (start_work.contains(w) || (
                    (w matches WorkItem::Context { domain: wd, context: cc } && wd == domain && t1.to_set().contains(cc)
                        && !start_ctx.contains(cc)))) by {
                    if w == (WorkItem::Context { domain, context: c }) {
                        if !before_ctx.contains(c) {
                            assert(self.worklist@.to_set().contains(w));
                        }
                    }
                }
            }
            i = i + 1;
        }
        proof {
            assert(contexts@.take(contexts@.len() as int) =~= contexts@);
        }
    }
}

// ----- definitions and class methods -----

/// `k` is the last definition with the id: the one a lookup by id finds.
pub open spec fn is_last_definition(g: SemanticGraph, id: DefId, k: int) -> bool {
    &&& 0 <= k < g.definitions@.len()
    &&& g.definitions@[k].id == id
    &&& forall|j: int| k < j < g.definitions@.len() ==> (#[trigger] g.definitions@[j]).id != id
}

/// The definition a lookup by id finds.
pub open spec fn definition_by_id(g: SemanticGraph, id: DefId) -> Option<SemanticDefinition> {
    if exists|k: int| is_last_definition(g, id, k) {
        Some(g.definitions@[choose|k: int| is_last_definition(g, id, k)])
    } else {
        None
    }
}

/// `k` is the last binding with the id: the one a lookup by id finds.
pub open spec fn is_last_binding(g: SemanticGraph, id: BindingId, k: int) -> bool {
    &&& 0 <= k < g.bindings@.len()
    &&& g.bindings@[k].id == id
    &&& forall|j: int| k < j < g.bindings@.len() ==> (#[trigger] g.bindings@[j]).id != id
}

/// The binding a lookup by id finds.
pub open spec fn binding_by_id(g: SemanticGraph, id: BindingId) -> Option<BindingFact> {
    if exists|k: int| is_last_binding(g, id, k) {
        Some(g.bindings@[choose|k: int| is_last_binding(g, id, k)])
    } else {
        None
    }
}

fn find_definition(g: &SemanticGraph, id: DefId) -> (r: Option<usize>)
    ensures
        match r {
            Some(k) => is_last_definition(*g, id, k as int) && definition_by_id(*g, id) == Some(g.definitions@[k as int]),
            None => definition_by_id(*g, id) is None,
        },
{
    let mut k: usize = g.definitions.len();
    while k > 0
        invariant
            0 <= k <= g.definitions@.len(),
            forall|j: int| k <= j < g.definitions@.len() ==> (#[trigger] g.definitions@[j]).id != id,
        decreases k,
    {
        if g.definitions[k - 1].id.0 == id.0 {
            proof {
                assert(is_last_definition(*g, id, k - 1));
                let c = choose|c: int| is_last_definition(*g, id, c);
                if c < k - 1 {
                    assert(g.definitions@[k - 1].id != id);
                }
                if c > k - 1 {
                    assert(g.definitions@[c].id != id);
                }
            }
            return Some(k - 1);
        }
        k = k - 1;
    }
    proof {
        if exists|c: int| is_last_definition(*g, id, c) {
            let c = choose|c: int| is_last_definition(*g, id, c);
            assert(g.definitions@[c].id != id);
        }
    }
    None
}

fn find_binding(g: &SemanticGraph, id: BindingId) -> (r: Option<usize>)
    ensures
        match r {
            Some(k) => is_last_binding(*g, id, k as int) && binding_by_id(*g, id) == Some(g.bindings@[k as int]),
            None => binding_by_id(*g, id) is None,
        },
{
    let mut k: usize = g.bindings.len();
    while k > 0
        invariant
            0 <= k <= g.bindings@.len(),
            forall|j: int| k <= j < g.bindings@.len() ==> (#[trigger] g.bindings@[j]).id != id,
        decreases k,
    {
        if g.bindings[k - 1].id.0 == id.0 {
            proof {
                assert(is_last_binding(*g, id, k - 1));
                let c = choose|c: int| is_last_binding(*g, id, c);
                if c < k - 1 {
                    assert(g.bindings@[k - 1].id != id);
                }
                if c > k - 1 {
                    assert(g.bindings@[c].id != id);
                }
            }
            return Some(k - 1);
        }
        k = k - 1;
    }
    proof {
        if exists|c: int| is_last_binding(*g, id, c) {
            let c = choose|c: int| is_last_binding(*g, id, c);
            assert(g.bindings@[c].id != id);
        }
    }
    None
}

/// Definition `d` is a method of class `c`: defined in its module, bound in its scope.
pub open spec fn is_method_of(g: SemanticGraph, c: SemanticDefinition, d: SemanticDefinition) -> bool {
    &&& d.module == c.module
    &&& binding_by_id(g, d.binding) matches Some(b) && b.scope == c.scope
}

/// The contexts of the methods of `class` (named `name`, when given).
pub open spec fn method_contexts(g: SemanticGraph, class: DefId, name: Option<Seq<char>>) -> Set<ContextId> {
    match definition_by_id(g, class) {
        None => Set::empty(),
        Some(c) => Set::new(
            |x: ContextId|
                exists|i: int|
                    0 <= i < g.definitions@.len() && is_method_of(g, c, #[trigger] g.definitions@[i]) && (name is None
                        || g.definitions@[i].name@ == name->0) && g.definitions@[i].context == x,
        ),
    }
}

/// The contexts of the methods of `class`, named `name` when given.
pub fn class_method_contexts(g: &SemanticGraph, class: DefId, name: Option<&str>) -> (out: Vec<ContextId>)
    ensures
        out@.to_set() == method_contexts(*g, class, match name { Some(n) => Some(n@), None => None }),
{
    let ghost wanted = match name {
        Some(n) => Some(n@),
        None => None,
    };
    let mut out: Vec<ContextId> = Vec::new();
    let ck = match find_definition(g, class) {
        Some(ck) => ck,
        None => {
            proof {
                assert(out@.to_set() =~= Set::<ContextId>::empty());
            }
            return out;
        },
    };
    let ghost c = g.definitions@[ck as int];
    let mut i: usize = 0;
    proof {
        assert(out@.to_set() =~= Set::<ContextId>::empty());
    }
    while i < g.definitions.len()
        invariant
            0 <= i <= g.definitions@.len(),
            ck < g.definitions@.len(),
            c == g.definitions@[ck as int],
            definition_by_id(*g, class) == Some(c),
            wanted == match name {
                Some(n) => Some(n@),
                None => None,
            },
            out@.to_set() == Set::new(
                |x: ContextId|
                    exists|j: int|
                        0 <= j < i && is_method_of(*g, c, #[trigger] g.definitions@[j]) && (wanted is None
                            || g.definitions@[j].name@ == wanted->0) && g.definitions@[j].context == x,
            ),
        decreases g.definitions@.len() - i,
    {
        let d = &g.definitions[i];
        let mut method = false;
        if d.module.0 == g.definitions[ck].module.0 {
            if let Some(bk) = find_binding(g, d.binding) {
                method = g.bindings[bk].scope.0 == g.definitions[ck].scope.0;
            }
        }
        let named = match name {
            Some(n) => str_eq(d.name.as_str(), n),
            None => true,
        };
        let ghost before = out@;
        proof {
            let dd = g.definitions@[i as int];
            assert(dd.module == c.module <==> d.module.0 == c.module.0);
            assert(method == is_method_of(*g, c, dd));
            assert(named == (wanted is None || dd.name@ == wanted->0));
        }
        if method && named {
            out.push(d.context);
        }
        proof {
            if method && named {
                lemma_push_or_keep(before, out@, d.context);
            }
            assert(out@.to_set() =~= Set::new(
                |x: ContextId|
                    exists|j: int|
                        0 <= j < i + 1 && is_method_of(*g, c, #[trigger] g.definitions@[j]) && (wanted is None
                            || g.definitions@[j].name@ == wanted->0) && g.definitions@[j].context == x,
            ));
        }
        i = i + 1;
    }
    proof {
        assert(out@.to_set() =~= method_contexts(*g, class, wanted));
    }
    out
}

// ----- activation -----

/// From `a` to `b` the domain reached exactly the contexts `cs` more, leaving each one not
/// reached before to scan, and nothing else about contexts, work or modules changed.
pub open spec fn marked(a: ReachState, b: ReachState, domain: ReachabilityDomain, cs: Set<ContextId>) -> bool {
    &&& contexts_in(b, domain) == contexts_in(a, domain) + cs
    &&& forall|x: ReachabilityDomain| x != domain ==> contexts_in(b, x) == contexts_in(a, x)
    &&& forall|w: WorkItem|
        #[trigger] b.worklist@.to_set().contains(w) <==> (a.worklist@.to_set().contains(w) || (w matches WorkItem::Context {
            domain: wd,
            context: c,
        } && wd == domain && cs.contains(c) && !contexts_in(a, domain).contains(c)))
    &&& b.module_modes@ == a.module_modes@
    &&& b.graph_edges@ == a.graph_edges@
}

proof fn lemma_marked_compose(a: ReachState, b: ReachState, c: ReachState, domain: ReachabilityDomain, c1: Set<ContextId>, c2: Set<ContextId>)
    requires
        marked(a, b, domain, c1),
        marked(b, c, domain, c2),
    ensures
        marked(a, c, domain, c1 + c2),
{
    assert(contexts_in(c, domain) =~= contexts_in(a, domain) + (c1 + c2));
    assert forall|w: WorkItem|
        #[trigger] c.worklist@.to_set().contains(w) <==> (a.worklist@.to_set().contains(w) || (w matches WorkItem::Context {
            domain: wd,
            context: cc,
        } && wd == domain && (c1 + c2).contains(cc) && !contexts_in(a, domain).contains(cc))) by {
        assert(b.worklist@.to_set().contains(w) <==> (a.worklist@.to_set().contains(w) || (w matches WorkItem::Context {
            domain: wd,
            context: cc,
        } && wd == domain && c1.contains(cc) && !contexts_in(a, domain).contains(cc))));
    }
}

proof fn lemma_marked_none(a: ReachState, domain: ReachabilityDomain)
    ensures
        marked(a, a, domain, Set::empty()),
{
    assert(contexts_in(a, domain) =~= contexts_in(a, domain) + Set::<ContextId>::empty());
}

/// The contexts a call of `definition` reaches: a function's own context; for a class, its
/// `__new__` and `__init__` methods and its resolved metaclass's `__call__`.
pub open spec fn call_contexts(g: SemanticGraph, definition: DefId, metaclass: Option<DefId>) -> Set<ContextId> {
    match definition_by_id(g, definition) {
        None => Set::empty(),
        Some(d) => match d.kind {
            DefinitionKind::Function => set![d.context],
            DefinitionKind::Class => (match metaclass {
                Some(m) => method_contexts(g, m, Some("__call__"@)),
                None => Set::empty(),
            }) + method_contexts(g, definition, Some("__new__"@)) + method_contexts(g, definition, Some("__init__"@)),
        },
    }
}

/// The contexts an outside use of `definition` reaches: a function's own context; every
/// method of a class.
pub open spec fn external_use_contexts(g: SemanticGraph, definition: DefId) -> Set<ContextId> {
    match definition_by_id(g, definition) {
        None => Set::empty(),
        Some(d) => match d.kind {
            DefinitionKind::Function => set![d.context],
            DefinitionKind::Class => method_contexts(g, definition, None),
        },
    }
}

/// Construction of the class may dispatch through a metaclass that did not resolve.
pub open spec fn dynamic_construction(g: SemanticGraph, definition: DefId, metaclass: Option<DefId>, metaclass_keyword: bool) -> bool {
    definition_by_id(g, definition) matches Some(d) && d.kind == DefinitionKind::Class && metaclass is None && metaclass_keyword
}

impl ReachState {
    /// The domain reaches the contexts of the methods of `class` named `name` (every method
    /// when `name` is `None`).
    fn activate_methods(&mut self, g: &SemanticGraph, domain: ReachabilityDomain, class: DefId, name: Option<&str>)
        requires
            reach_wf(*old(self)),
        ensures
            reach_wf(*final(self)),
            marked(*old(self), *final(self), domain, method_contexts(*g, class, match name { Some(n) => Some(n@), None => None })),
            forall|x: ReachabilityDomain| values_in(*final(self), x) == values_in(*old(self), x),
            final(self).dynamic_class_construction@ == old(self).dynamic_class_construction@,
            final(self).graph_edges@ == old(self).graph_edges@,
    {
        let contexts = class_method_contexts(g, class, name);
        self.mark_contexts(domain, &contexts);
    }

    /// A call of `definition` in the domain: it is reached as a value, and so are the
    /// contexts the call runs (`metaclass` is the class's resolved metaclass, and
    /// `metaclass_keyword` whether it names one at all). A class whose metaclass did not
    /// resolve is recorded as constructed dynamically.
    pub fn activate_callable(
        &mut self,
        g: &SemanticGraph,
        domain: ReachabilityDomain,
        definition: DefId,
        metaclass: Option<DefId>,
        metaclass_keyword: bool,
    )
        requires
            reach_wf(*old(self)),
        ensures
            reach_wf(*final(self)),
            values_in(*final(self), domain) == values_in(*old(self), domain).insert(definition),
            forall|x: ReachabilityDomain| x != domain ==> values_in(*final(self), x) == values_in(*old(self), x),
            marked(*old(self), *final(self), domain, call_contexts(*g, definition, metaclass)),
            final(self).dynamic_class_construction@.to_set() == if dynamic_construction(*g, definition, metaclass, metaclass_keyword) {
                old(self).dynamic_class_construction@.to_set().insert(definition)
            } else {
                old(self).dynamic_class_construction@.to_set()
            },
    {
        let ghost s0 = *self;
        self.mark_value(domain, definition);
        let ghost s1 = *self;
        proof {
            assert(marked(s0, s1, domain, Set::empty())) by {
                assert(contexts_in(s1, domain) =~= contexts_in(s0, domain) + Set::<ContextId>::empty());
            }
        }
        let k = match find_definition(g, definition) {
            Some(k) => k,
            None => {
                proof {
                    assert(call_contexts(*g, definition, metaclass) == Set::<ContextId>::empty());
                }
                return;
            },
        };
        match g.definitions[k].kind {
            DefinitionKind::Function => {
                self.mark_context(domain, g.definitions[k].context);
                proof {
                    let c = g.definitions@[k as int].context;
                    assert(marked(s1, *self, domain, set![c])) by {
                        assert(contexts_in(*self, domain) =~= contexts_in(s1, domain) + set![c]);
                        assert forall|w: WorkItem|
                            #[trigger] self.worklist@.to_set().contains(w) <==> (s1.worklist@.to_set().contains(w) || (
                            w matches WorkItem::Context { domain: wd, context: cc } && wd == domain && set![c].contains(cc)
                                && !contexts_in(s1, domain).contains(cc))) by {
                        }
                    }
                    lemma_marked_compose(s0, s1, *self, domain, Set::empty(), set![c]);
                    assert(Set::<ContextId>::empty() + set![c] =~= set![c]);
                }
            },
            DefinitionKind::Class => {
                let ghost meta_set = match metaclass {
                    Some(m) => method_contexts(*g, m, Some("__call__"@)),
                    None => Set::<ContextId>::empty(),
                };
                self.mark_value(domain, definition);
                let ghost s2 = *self;
                proof {
                    assert(values_in(s2, domain) =~= values_in(s1, domain));
                    assert(marked(s1, s2, domain, Set::empty())) by {
                        assert(contexts_in(s2, domain) =~= contexts_in(s1, domain) + Set::<ContextId>::empty());
                    }
                    lemma_marked_compose(s0, s1, s2, domain, Set::empty(), Set::empty());
                    assert(Set::<ContextId>::empty() + Set::<ContextId>::empty() =~= Set::<ContextId>::empty());
                }
                match metaclass {
                    Some(m) => {
                        self.activate_methods(g, domain, m, Some("__call__"));
                        proof {
                            reveal_strlit("__call__");
                        }
                    },
                    None => {
                        proof {
                            lemma_marked_none(s2, domain);
                        }
                    },
                }
                let ghost s3 = *self;
                proof {
                    lemma_marked_compose(s0, s2, s3, domain, Set::empty(), meta_set);
                }
                self.activate_methods(g, domain, definition, Some("__new__"));
                let ghost s4 = *self;
                proof {
                    lemma_marked_compose(s0, s3, s4, domain, Set::<ContextId>::empty() + meta_set, method_contexts(*g, definition, Some("__new__"@)));
                }
                self.activate_methods(g, domain, definition, Some("__init__"));
                proof {
                    lemma_marked_compose(
                        s0,
                        s4,
                        *self,
                        domain,
                        Set::<ContextId>::empty() + meta_set + method_contexts(*g, definition, Some("__new__"@)),
                        method_contexts(*g, definition, Some("__init__"@)),
                    );
                    assert(Set::<ContextId>::empty() + meta_set + method_contexts(*g, definition, Some("__new__"@))
                        + method_contexts(*g, definition, Some("__init__"@)) =~= call_contexts(*g, definition, metaclass));
                }
                if metaclass.is_none() && metaclass_keyword {
                    insert_def(&mut self.dynamic_class_construction, definition);
                }
            },
        }
    }

    /// An outside use of `definition` in the domain: it is reached as a value, with a
    /// function's context or every method of a class.
    pub fn activate_external_use(&mut self, g: &SemanticGraph, domain: ReachabilityDomain, definition: DefId)
        requires
            reach_wf(*old(self)),
        ensures
            reach_wf(*final(self)),
            values_in(*final(self), domain) == values_in(*old(self), domain).insert(definition),
            forall|x: ReachabilityDomain| x != domain ==> values_in(*final(self), x) == values_in(*old(self), x),
            marked(*old(self), *final(self), domain, external_use_contexts(*g, definition)),
            final(self).dynamic_class_construction@ == old(self).dynamic_class_construction@,
            final(self).graph_edges@ == old(self).graph_edges@,
    {
        let ghost s0 = *self;
        self.mark_value(domain, definition);
        let ghost s1 = *self;
        proof {
            assert(marked(s0, s1, domain, Set::empty())) by {
                assert(contexts_in(s1, domain) =~= contexts_in(s0, domain) + Set::<ContextId>::empty());
            }
        }
        let k = match find_definition(g, definition) {
            Some(k) => k,
            None => {
                return;
            },
        };
        match g.definitions[k].kind {
            DefinitionKind::Function => {
                self.mark_context(domain, g.definitions[k].context);
                proof {
                    let c = g.definitions@[k as int].context;
                    assert(marked(s1, *self, domain, set![c])) by {
                        assert(contexts_in(*self, domain) =~= contexts_in(s1, domain) + set![c]);
                        assert forall|w: WorkItem|
                            #[trigger] self.worklist@.to_set().contains(w) <==> (s1.worklist@.to_set().contains(w) || (
                            w matches WorkItem::Context { domain: wd, context: cc } && wd == domain && set![c].contains(cc)
                                && !contexts_in(s1, domain).contains(cc))) by {
                        }
                    }
                    lemma_marked_compose(s0, s1, *self, domain, Set::empty(), set![c]);
                    assert(Set::<ContextId>::empty() + set![c] =~= set![c]);
                }
            },
            DefinitionKind::Class => {
                self.activate_methods(g, domain, definition, None);
                proof {
                    lemma_marked_compose(s0, s1, *self, domain, Set::empty(), method_contexts(*g, definition, None));
                    assert(Set::<ContextId>::empty() + method_contexts(*g, definition, None) =~= method_contexts(*g, definition, None));
                }
            },
        }
    }
}

// ----- the order of work -----

pub open spec fn domain_rank(d: ReachabilityDomain) -> int {
    match d {
        ReachabilityDomain::Production => 0,
        ReachabilityDomain::Test => 1,
        ReachabilityDomain::ExternalSurface => 2,
    }
}

pub open spec fn mode_rank(m: ModuleExecutionMode) -> int {
    match m {
        ModuleExecutionMode::Imported => 0,
        ModuleExecutionMode::TopLevel => 1,
    }
}

/// The position of a work item in the order in which work is taken: module work before
/// context work, then by domain (production, test, external surface), then by id, then
/// imported before top-level.
pub open spec fn work_rank(w: WorkItem) -> int {
    match w {
        WorkItem::Module { domain, module, mode } => domain_rank(domain) * 0x2_0000_0000 + module.0 * 2 + mode_rank(mode),
        WorkItem::Context { domain, context } => 0x6_0000_0000 + domain_rank(domain) * 0x2_0000_0000 + context.0 * 2,
    }
}

fn work_rank_exec(w: &WorkItem) -> (r: u64)
    ensures
        r == work_rank(*w),
{
    match w {
        WorkItem::Module { domain, module, mode } => {
            let d: u64 = match domain {
                ReachabilityDomain::Production => 0,
                ReachabilityDomain::Test => 1,
                ReachabilityDomain::ExternalSurface => 2,
            };
            let m: u64 = match mode {
                ModuleExecutionMode::Imported => 0,
                ModuleExecutionMode::TopLevel => 1,
            };
            d * 0x2_0000_0000 + (module.0 as u64) * 2 + m
        },
        WorkItem::Context { domain, context } => {
            let d: u64 = match domain {
                ReachabilityDomain::Production => 0,
                ReachabilityDomain::Test => 1,
                ReachabilityDomain::ExternalSurface => 2,
            };
            0x6_0000_0000 + d * 0x2_0000_0000 + (context.0 as u64) * 2
        },
    }
}

impl ReachState {
    /// Takes the first pending work item in work order, if any.
    pub fn pop_work(&mut self) -> (w: Option<WorkItem>)
        requires
            reach_wf(*old(self)),
        ensures
            reach_wf(*final(self)),
            w is None <==> old(self).worklist@.len() == 0,
            w matches Some(x) ==> {
                &&& old(self).worklist@.to_set().contains(x)
                &&& final(self).worklist@.to_set() == old(self).worklist@.to_set().remove(x)
                &&& forall|y: WorkItem| #[trigger] old(self).worklist@.to_set().contains(y) ==> work_rank(x) <= work_rank(y)
            },
            w is None ==> final(self).worklist@ == old(self).worklist@,
            forall|x: ReachabilityDomain| values_in(*final(self), x) == values_in(*old(self), x) && contexts_in(*final(self), x)
                == contexts_in(*old(self), x),
            final(self).module_modes@ == old(self).module_modes@,
            final(self).dynamic_class_construction@ == old(self).dynamic_class_construction@,
            final(self).graph_edges@ == old(self).graph_edges@,
    {
        if self.worklist.len() == 0 {
            return None;
        }
        let mut best: usize = 0;
        let mut best_rank = work_rank_exec(&self.worklist[0]);
        let mut i: usize = 1;
        while i < self.worklist.len()
            invariant
                1 <= i <= self.worklist@.len(),
                *self == *old(self),
                best < self.worklist@.len(),
                best_rank == work_rank(self.worklist@[best as int]),
                forall|j: int| 0 <= j < i ==> work_rank(self.worklist@[best as int]) <= work_rank(#[trigger] self.worklist@[j]),
            decreases self.worklist@.len() - i,
        {
            let r = work_rank_exec(&self.worklist[i]);
            if r < best_rank {
                best = i;
                best_rank = r;
            }
            i = i + 1;
        }
        let ghost before = self.worklist@;
        let x = self.worklist.remove(best);
        proof {
            assert(before[best as int] == x);
            assert(self.worklist@ =~= before.subrange(0, best as int) + before.subrange(best + 1, before.len() as int));
            assert forall|a: int, b: int| 0 <= a < b < self.worklist@.len() implies self.worklist@[a] != self.worklist@[b] by {
                let a0 = if a < best { a } else { a + 1 };
                let b0 = if b < best { b } else { b + 1 };
                assert(self.worklist@[a] == before[a0] && self.worklist@[b] == before[b0]);
            }
            assert forall|y: WorkItem| #[trigger] self.worklist@.to_set().contains(y) <==> before.to_set().remove(x).contains(y) by {
                if self.worklist@.contains(y) {
                    let k = choose|k: int| 0 <= k < self.worklist@.len() && self.worklist@[k] == y;
                    let k0 = if k < best { k } else { k + 1 };
                    assert(before[k0] == y);
                    assert(k0 != best);
                }
                if before.contains(y) && y != x {
                    let k = choose|k: int| 0 <= k < before.len() && before[k] == y;
                    if k < best {
                        assert(self.worklist@[k] == y);
                    } else {
                        assert(k != best);
                        assert(self.worklist@[k - 1] == y);
                    }
                }
            }
            assert(self.worklist@.to_set() =~= before.to_set().remove(x));
            assert forall|y: WorkItem| #[trigger] before.to_set().contains(y) implies work_rank(x) <= work_rank(y) by {
                let k = choose|k: int| 0 <= k < before.len() && before[k] == y;
                assert(work_rank(before[best as int]) <= work_rank(before[k]));
            }
        }
        Some(x)
    }
}

/// Once a domain has reached a context, reaching it again leaves no new work for it.
pub proof fn lemma_reached_context_not_queued_again(
    a: ReachState,
    b: ReachState,
    domain: ReachabilityDomain,
    cs: Set<ContextId>,
    c: ContextId,
)
    requires
        marked(a, b, domain, cs),
        contexts_in(a, domain).contains(c),
    ensures
        b.worklist@.to_set().contains(WorkItem::Context { domain, context: c }) <==> a.worklist@.to_set().contains(
            WorkItem::Context { domain, context: c },
        ),
        contexts_in(b, domain).contains(c),
{
}

// ----- selectors -----

/// Definition `c` is named `attr` in the body that definition `f` opens: defined in the same
/// module and bound in that scope.
pub open spec fn in_body_of(g: SemanticGraph, f: SemanticDefinition, c: SemanticDefinition, attr: Seq<char>) -> bool {
    &&& c.module == f.module
    &&& c.name@ == attr
    &&& binding_by_id(g, c.binding) matches Some(b) && b.scope == f.scope
}

/// Definition `c` is named `attr` in the body of the definition with id `d`.
pub open spec fn named_in(g: SemanticGraph, d: DefId, c: SemanticDefinition, attr: Seq<char>) -> bool {
    definition_by_id(g, d) matches Some(f) && in_body_of(g, f, c, attr)
}

/// The definitions named `attr` in the body of any of `defs`.
pub open spec fn attribute_step(g: SemanticGraph, defs: Set<DefId>, attr: Seq<char>) -> Set<DefId> {
    Set::new(
        |x: DefId|
            exists|d: DefId, i: int|
                #![trigger defs.contains(d), g.definitions@[i]]
                defs.contains(d) && 0 <= i < g.definitions@.len() && named_in(g, d, g.definitions@[i], attr)
                    && g.definitions@[i].id == x,
    )
}

/// The definitions named `attr` in the body of `d`.
pub open spec fn named_in_one(g: SemanticGraph, d: DefId, attr: Seq<char>) -> Set<DefId> {
    Set::new(
        |x: DefId|
            exists|i: int| 0 <= i < g.definitions@.len() && named_in(g, d, #[trigger] g.definitions@[i], attr) && g.definitions@[i].id == x,
    )
}

proof fn lemma_attribute_step_insert(g: SemanticGraph, defs: Set<DefId>, d: DefId, attr: Seq<char>)
    ensures
        attribute_step(g, defs.insert(d), attr) == attribute_step(g, defs, attr) + named_in_one(g, d, attr),
{
    assert forall|x: DefId| #[trigger] attribute_step(g, defs.insert(d), attr).contains(x) <==> (attribute_step(g, defs, attr)
        + named_in_one(g, d, attr)).contains(x) by {
        if attribute_step(g, defs.insert(d), attr).contains(x) {
            let (e, i) = choose|e: DefId, i: int|
                #![trigger defs.insert(d).contains(e), g.definitions@[i]]
                defs.insert(d).contains(e) && 0 <= i < g.definitions@.len() && named_in(g, e, g.definitions@[i], attr)
                    && g.definitions@[i].id == x;
            if e == d {
                assert(named_in_one(g, d, attr).contains(x));
            } else {
                assert(defs.contains(e));
                assert(attribute_step(g, defs, attr).contains(x));
            }
        }
        if attribute_step(g, defs, attr).contains(x) {
            let (e, i) = choose|e: DefId, i: int|
                #![trigger defs.contains(e), g.definitions@[i]]
                defs.contains(e) && 0 <= i < g.definitions@.len() && named_in(g, e, g.definitions@[i], attr) && g.definitions@[i].id
                    == x;
            assert(defs.insert(d).contains(e));
        }
        if named_in_one(g, d, attr).contains(x) {
            let i = choose|i: int| 0 <= i < g.definitions@.len() && named_in(g, d, #[trigger] g.definitions@[i], attr) && g.definitions@[i].id == x;
            assert(defs.insert(d).contains(d));
        }
    }
    assert(attribute_step(g, defs.insert(d), attr) =~= attribute_step(g, defs, attr) + named_in_one(g, d, attr));
}

/// The definitions reached by following `attrs` from `defs`.
pub open spec fn follow_attributes(g: SemanticGraph, defs: Set<DefId>, attrs: Seq<Seq<char>>) -> Set<DefId>
    decreases attrs.len(),
{
    if attrs.len() == 0 {
        defs
    } else {
        attribute_step(g, follow_attributes(g, defs, attrs.drop_last()), attrs.last())
    }
}

/// The definition an object selector `module:first.rest...` names, when exactly one matches:
/// the definitions the module binds to `first`, then those named by each further attribute in
/// the body of the previous ones.
pub open spec fn selected_definitions(
    g: SemanticGraph,
    slots: Map<(ModuleId, Seq<char>), crate::values::ValueView>,
    module: ModuleId,
    attrs: Seq<Seq<char>>,
) -> Set<DefId> {
    follow_attributes(g, slot_or_nothing(slots, (module, attrs[0])).definitions, attrs.drop_first())
}

/// Adds a definition to a list without repeats.
fn add_def(list: &mut Vec<DefId>, x: DefId)
    requires
        old(list)@.no_duplicates(),
    ensures
        final(list)@.no_duplicates(),
        final(list)@.to_set() == old(list)@.to_set().insert(x),
{
    let ghost before = list@;
    let mut j: usize = 0;
    while j < list.len()
        invariant
            0 <= j <= list@.len(),
            list@ == before,
            before == old(list)@,
            old(list)@.no_duplicates(),
            forall|t: int| 0 <= t < j ==> list@[t] != x,
        decreases list@.len() - j,
    {
        if list[j].0 == x.0 {
            proof {
                assert(before.contains(x));
                lemma_push_or_keep(before, before, x);
            }
            return;
        }
        j = j + 1;
    }
    list.push(x);
    proof {
        lemma_push_or_keep(before, list@, x);
        assert forall|a: int, b: int| 0 <= a < b < list@.len() implies list@[a] != list@[b] by {
            if b == before.len() {
                assert(list@[a] == before[a]);
            }
        }
    }
}

/// One attribute step from a list of definitions.
fn step_attribute(g: &SemanticGraph, defs: &Vec<DefId>, attr: &str) -> (next: Vec<DefId>)
    ensures
        next@.no_duplicates(),
        next@.to_set() == attribute_step(*g, defs@.to_set(), attr@),
{
    let mut next: Vec<DefId> = Vec::new();
    let mut k: usize = 0;
    proof {
        assert(next@.to_set() =~= Set::<DefId>::empty());
    }
    while k < defs.len()
        invariant
            0 <= k <= defs@.len(),
            next@.no_duplicates(),
            next@.to_set() == attribute_step(*g, defs@.take(k as int).to_set(), attr@),
        decreases defs@.len() - k,
    {
        let d = defs[k];
        let ghost done = next@.to_set();
        let found = find_definition(g, d);
        if let Some(fk) = found {
            let mut i: usize = 0;
            while i < g.definitions.len()
                invariant
                    0 <= i <= g.definitions@.len(),
                    fk < g.definitions@.len(),
                    definition_by_id(*g, d) == Some(g.definitions@[fk as int]),
                    next@.no_duplicates(),
                    next@.to_set() == done + Set::new(
                        |x: DefId|
                            exists|j: int|
                                0 <= j < i && in_body_of(*g, g.definitions@[fk as int], #[trigger] g.definitions@[j], attr@)
                                    && g.definitions@[j].id == x,
                    ),
                decreases g.definitions@.len() - i,
            {
                let c = &g.definitions[i];
                let mut matches_attr = false;
                if c.module.0 == g.definitions[fk].module.0 && str_eq(c.name.as_str(), attr) {
                    if let Some(bk) = find_binding(g, c.binding) {
                        matches_attr = g.bindings[bk].scope.0 == g.definitions[fk].scope.0;
                    }
                }
                let ghost before = next@.to_set();
                if matches_attr {
                    add_def(&mut next, c.id);
                }
                proof {
                    let f = g.definitions@[fk as int];
                    let cc = g.definitions@[i as int];
                    assert(matches_attr == in_body_of(*g, f, cc, attr@));
                    assert(next@.to_set() =~= done + Set::new(
                        |x: DefId|
                            exists|j: int|
                                0 <= j < i + 1 && in_body_of(*g, f, #[trigger] g.definitions@[j], attr@) && g.definitions@[j].id == x,
                    ));
                }
                i = i + 1;
            }
            proof {
                let f = g.definitions@[fk as int];
                assert(next@.to_set() =~= done + named_in_one(*g, d, attr@));
            }
        } else {
            proof {
                assert(named_in_one(*g, d, attr@) =~= Set::<DefId>::empty());
                assert(next@.to_set() =~= done + named_in_one(*g, d, attr@));
            }
        }
        proof {
            let t0 = defs@.take(k as int);
            let t1 = defs@.take(k + 1);
            assert(t1 =~= t0.push(d));
            t0.lemma_push_to_set_commute(d);
            lemma_attribute_step_insert(*g, t0.to_set(), d, attr@);
        }
        k = k + 1;
    }
    proof {
        assert(defs@.take(defs@.len() as int) =~= defs@);
    }
    next
}

/// The one definition an object selector names, given the module it resolved to: `None`
/// when the module did not resolve, the selector names no attribute, or the attributes name
/// no definition or several.
pub fn resolve_selector(
    g: &SemanticGraph,
    slots: &ModuleSlots,
    module: Option<ModuleId>,
    attributes: &Vec<String>,
) -> (r: Option<DefId>)
    requires
        keys_distinct(slots.entries@),
    ensures
        match r {
            Some(d) => module is Some && attributes@.len() > 0 && selected_definitions(
                *g,
                slots_map(slots.entries@),
                module->0,
                attributes@.map_values(|a: String| a@),
            ) == set![d],
            None => module is None || attributes@.len() == 0 || !(exists|d: DefId| selected_definitions(
                *g,
                slots_map(slots.entries@),
                module->0,
                attributes@.map_values(|a: String| a@),
            ) == set![d]),
        },
{
    let m = match module {
        Some(m) => m,
        None => {
            return None;
        },
    };
    if attributes.len() == 0 {
        return None;
    }
    let ghost attrs = attributes@.map_values(|a: String| a@);
    let first = slots.value_of(m, attributes[0].as_str());
    let mut defs: Vec<DefId> = Vec::new();
    let mut j: usize = 0;
    proof {
        assert(defs@.to_set() =~= Set::<DefId>::empty());
    }
    while j < first.definitions.len()
        invariant
            0 <= j <= first.definitions@.len(),
            defs@.no_duplicates(),
            defs@.to_set() == first.definitions@.take(j as int).to_set(),
        decreases first.definitions@.len() - j,
    {
        add_def(&mut defs, first.definitions[j]);
        proof {
            let t0 = first.definitions@.take(j as int);
            assert(first.definitions@.take(j + 1) =~= t0.push(first.definitions@[j as int]));
            t0.lemma_push_to_set_commute(first.definitions@[j as int]);
        }
        j = j + 1;
    }
    proof {
        assert(first.definitions@.take(first.definitions@.len() as int) =~= first.definitions@);
        assert(attrs.drop_first().take(0) =~= Seq::<Seq<char>>::empty());
    }
    let mut a: usize = 1;
    while a < attributes.len()
        invariant
            1 <= a <= attributes@.len(),
            attrs == attributes@.map_values(|x: String| x@),
            defs@.no_duplicates(),
            defs@.to_set() == follow_attributes(*g, first.definitions@.to_set(), attrs.drop_first().take(a - 1)),
        decreases attributes@.len() - a,
    {
        let next = step_attribute(g, &defs, attributes[a].as_str());
        proof {
            let t = attrs.drop_first().take(a as int);
            assert(t.drop_last() =~= attrs.drop_first().take(a - 1));
            assert(t.last() == attributes@[a as int]@);
        }
        defs = next;
        a = a + 1;
    }
    proof {
        assert(attrs.drop_first().take(attributes@.len() - 1) =~= attrs.drop_first());
        assert(attrs[0] == attributes@[0]@);
        defs@.unique_seq_to_set();
    }
    if defs.len() == 1 {
        proof {
            assert(defs@.to_set() =~= set![defs@[0]]);
        }
        Some(defs[0])
    } else {
        proof {
            if exists|d: DefId| defs@.to_set() == set![d] {
                let d = choose|d: DefId| defs@.to_set() == set![d];
                assert(set![d].len() == 1);
            }
        }
        None
    }
}

// ----- values used by expressions -----

/// How an expression uses what it denotes: only evaluates it, calls it, or lets it escape.
#[derive(Clone, Copy, Debug, PartialEq, Eq, Structural)]
pub enum ExprUse {
    Runtime,
    Call,
    Escape,
}

/// What is known of a class's metaclass: the class it resolves to, and whether the class
/// names a metaclass at all.
#[derive(Clone, Copy, Debug)]
pub struct ClassMeta {
    pub class: DefId,
    pub metaclass: Option<DefId>,
    pub keyword: bool,
}

/// The metaclass facts of a class: the first listed for it, none when it is not listed.
pub open spec fn meta_of(metas: Seq<ClassMeta>, d: DefId) -> (Option<DefId>, bool)
    decreases metas.len(),
{
    if metas.len() == 0 {
        (None, false)
    } else if metas[0].class == d {
        (metas[0].metaclass, metas[0].keyword)
    } else {
        meta_of(metas.drop_first(), d)
    }
}

fn find_meta(metas: &Vec<ClassMeta>, d: DefId) -> (r: (Option<DefId>, bool))
    ensures
        r == meta_of(metas@, d),
{
    let mut i: usize = 0;
    proof {
        assert(metas@.skip(0) =~= metas@);
    }
    while i < metas.len()
        invariant
            0 <= i <= metas@.len(),
            meta_of(metas@, d) == meta_of(metas@.skip(i as int), d),
        decreases metas@.len() - i,
    {
        proof {
            assert(metas@.skip(i as int).drop_first() =~= metas@.skip(i + 1));
            assert(metas@.skip(i as int)[0] == metas@[i as int]);
        }
        if metas[i].class.0 == d.0 {
            return (metas[i].metaclass, metas[i].keyword);
        }
        i = i + 1;
    }
    proof {
        assert(metas@.skip(metas@.len() as int) =~= Seq::<ClassMeta>::empty());
    }
    (None, false)
}

/// The contexts one use of a definition reaches.
pub open spec fn use_contexts(g: SemanticGraph, metas: Seq<ClassMeta>, u: ExprUse, d: DefId) -> Set<ContextId> {
    match u {
        ExprUse::Runtime => Set::empty(),
        ExprUse::Call => call_contexts(g, d, meta_of(metas, d).0),
        ExprUse::Escape => external_use_contexts(g, d),
    }
}

/// The contexts the uses of the definitions reach.
pub open spec fn uses_contexts(g: SemanticGraph, metas: Seq<ClassMeta>, u: ExprUse, defs: Seq<DefId>) -> Set<ContextId>
    decreases defs.len(),
{
    if defs.len() == 0 {
        Set::empty()
    } else {
        uses_contexts(g, metas, u, defs.drop_last()) + use_contexts(g, metas, u, defs.last())
    }
}

/// The classes among the called definitions that are constructed through an unresolved
/// metaclass.
pub open spec fn uses_dynamic(g: SemanticGraph, metas: Seq<ClassMeta>, u: ExprUse, defs: Seq<DefId>) -> Set<DefId>
    decreases defs.len(),
{
    if defs.len() == 0 {
        Set::empty()
    } else {
        uses_dynamic(g, metas, u, defs.drop_last()) + if u == ExprUse::Call && dynamic_construction(
            g,
            defs.last(),
            meta_of(metas, defs.last()).0,
            meta_of(metas, defs.last()).1,
        ) {
            set![defs.last()]
        } else {
            Set::empty()
        }
    }
}

/// The module work a domain gains by importing each of the modules: one item for each not
/// yet run imported.
pub open spec fn new_module_work(old_modes: Set<(ReachabilityDomain, ModuleId, ModuleExecutionMode)>, domain: ReachabilityDomain, modules: Seq<ModuleId>, w: WorkItem) -> bool {
    w matches WorkItem::Module { domain: wd, module: m, mode } && wd == domain && mode == ModuleExecutionMode::Imported
        && modules.contains(m) && !old_modes.contains((domain, m, ModuleExecutionMode::Imported))
}

/// Adds a pair to a set of them.
fn insert_edge(list: &mut Vec<(DefId, DefId)>, x: (DefId, DefId))
    ensures
        final(list)@.to_set() == old(list)@.to_set().insert(x),
{
    let ghost before = list@;
    let mut j: usize = 0;
    while j < list.len()
        invariant
            0 <= j <= list@.len(),
            list@ == before,
            forall|t: int| 0 <= t < j ==> list@[t] != x,
        decreases list@.len() - j,
    {
        let (a, b) = list[j];
        if a.0 == x.0.0 && b.0 == x.1.0 {
            proof {
                assert(before[j as int] == x);
                assert(before.contains(x));
                lemma_push_or_keep(before, before, x);
            }
            return;
        }
        j = j + 1;
    }
    list.push(x);
    proof {
        lemma_push_or_keep(before, list@, x);
    }
}

impl ReachState {
    /// An expression of `owner`'s body (when given) denotes `value`, used as `expr_use`, in
    /// the domain: each definition is reached as a value (and recorded as used by `owner`),
    /// called or used from outside as the use says, and each module is imported.
    pub fn mark_value_set(
        &mut self,
        g: &SemanticGraph,
        metas: &Vec<ClassMeta>,
        domain: ReachabilityDomain,
        owner: Option<DefId>,
        value: &ValueSet,
        expr_use: ExprUse,
    )
        requires
            reach_wf(*old(self)),
        ensures
            reach_wf(*final(self)),
            values_in(*final(self), domain) == values_in(*old(self), domain) + value.definitions@.to_set(),
            forall|x: ReachabilityDomain| x != domain ==> values_in(*final(self), x) == values_in(*old(self), x),
            contexts_in(*final(self), domain) == contexts_in(*old(self), domain) + uses_contexts(*g, metas@, expr_use, value.definitions@),
            forall|x: ReachabilityDomain| x != domain ==> contexts_in(*final(self), x) == contexts_in(*old(self), x),
            final(self).module_modes@.to_set() == old(self).module_modes@.to_set() + Set::new(
                |t: (ReachabilityDomain, ModuleId, ModuleExecutionMode)|
                    exists|m: ModuleId| value.modules@.contains(m) && t == (domain, m, ModuleExecutionMode::Imported),
            ),
            forall|w: WorkItem|
                #[trigger] final(self).worklist@.to_set().contains(w) <==> (old(self).worklist@.to_set().contains(w) || (w matches WorkItem::Context {
                    domain: wd,
                    context: c,
                } && wd == domain && uses_contexts(*g, metas@, expr_use, value.definitions@).contains(c) && !contexts_in(
                    *old(self),
                    domain,
                ).contains(c)) || new_module_work(old(self).module_modes@.to_set(), domain, value.modules@, w)),
            final(self).dynamic_class_construction@.to_set() == old(self).dynamic_class_construction@.to_set() + uses_dynamic(
                *g,
                metas@,
                expr_use,
                value.definitions@,
            ),
            final(self).graph_edges@.to_set() == old(self).graph_edges@.to_set() + match owner {
                Some(o) => Set::new(|e: (DefId, DefId)| value.definitions@.contains(e.1) && e.0 == o),
                None => Set::empty(),
            },
    {
        let defs = &value.definitions;
        let ghost s0 = *self;
        // the owner's uses
        if let Some(o) = owner {
            let mut i: usize = 0;
            while i < defs.len()
                invariant
                    0 <= i <= defs@.len(),
                    self.graph_edges@.to_set() == s0.graph_edges@.to_set() + Set::new(
                        |e: (DefId, DefId)| defs@.take(i as int).contains(e.1) && e.0 == o,
                    ),
                    forall|x: ReachabilityDomain| values_in(*self, x) == values_in(s0, x) && contexts_in(*self, x) == contexts_in(s0, x),
                    self.worklist@ == s0.worklist@,
                    self.module_modes@ == s0.module_modes@,
                    self.dynamic_class_construction@ == s0.dynamic_class_construction@,
                decreases defs@.len() - i,
            {
                insert_edge(&mut self.graph_edges, (o, defs[i]));
                proof {
                    let t0 = defs@.take(i as int);
                    let t1 = defs@.take(i + 1);
                    assert(t1 =~= t0.push(defs@[i as int]));
                    assert forall|e: (DefId, DefId)| #[trigger] t1.contains(e.1) <==> (t0.contains(e.1) || e.1 == defs@[i as int]) by {
                        if t1.contains(e.1) {
                            let k = choose|k: int| 0 <= k < t1.len() && t1[k] == e.1;
                            if k < i {
                                assert(t0[k] == e.1);
                            }
                        }
                        if t0.contains(e.1) {
                            let k = choose|k: int| 0 <= k < t0.len() && t0[k] == e.1;
                            assert(t1[k] == e.1);
                        }
                        if e.1 == defs@[i as int] {
                            assert(t1[i as int] == e.1);
                        }
                    }
                    assert(self.graph_edges@.to_set() =~= s0.graph_edges@.to_set() + Set::new(
                        |e: (DefId, DefId)| t1.contains(e.1) && e.0 == o,
                    ));
                }
                i = i + 1;
            }
            proof {
                assert(defs@.take(defs@.len() as int) =~= defs@);
            }
        } else {
            proof {
                assert(self.graph_edges@.to_set() =~= s0.graph_edges@.to_set() + Set::<(DefId, DefId)>::empty());
            }
        }
        let ghost s1 = *self;
        // the values themselves
        proof {
            lemma_marked_none(s1, domain);
            assert(defs@.take(0) =~= Seq::<DefId>::empty());
            assert(values_in(s1, domain) =~= values_in(s1, domain) + defs@.take(0).to_set());
            assert(s1.dynamic_class_construction@.to_set() =~= s1.dynamic_class_construction@.to_set() + Set::<DefId>::empty());
        }
        let mut i: usize = 0;
        while i < defs.len()
            invariant
                0 <= i <= defs@.len(),
                reach_wf(*self),
                values_in(*self, domain) == values_in(s1, domain) + defs@.take(i as int).to_set(),
                forall|x: ReachabilityDomain| x != domain ==> values_in(*self, x) == values_in(s1, x),
                marked(s1, *self, domain, uses_contexts(*g, metas@, expr_use, defs@.take(i as int))),
                self.dynamic_class_construction@.to_set() == s1.dynamic_class_construction@.to_set() + uses_dynamic(
                    *g,
                    metas@,
                    expr_use,
                    defs@.take(i as int),
                ),
            decreases defs@.len() - i,
        {
            let d = defs[i];
            let ghost a = *self;
            self.mark_value(domain, d);
            let ghost b = *self;
            proof {
                assert(marked(a, b, domain, Set::empty())) by {
                    assert(contexts_in(b, domain) =~= contexts_in(a, domain) + Set::<ContextId>::empty());
                }
            }
            match expr_use {
                ExprUse::Runtime => {
                    proof {
                        lemma_marked_none(b, domain);
                    }
                },
                ExprUse::Call => {
                    let (meta, keyword) = find_meta(metas, d);
                    self.activate_callable(g, domain, d, meta, keyword);
                },
                ExprUse::Escape => {
                    self.activate_external_use(g, domain, d);
                },
            }
            proof {
                let t0 = defs@.take(i as int);
                let t1 = defs@.take(i + 1);
                assert(t1 =~= t0.push(d));
                assert(t1.drop_last() =~= t0);
                t0.lemma_push_to_set_commute(d);
                let uc = use_contexts(*g, metas@, expr_use, d);
                assert(marked(b, *self, domain, uc));
                lemma_marked_compose(a, b, *self, domain, Set::empty(), uc);
                assert(Set::<ContextId>::empty() + uc =~= uc);
                lemma_marked_compose(s1, a, *self, domain, uses_contexts(*g, metas@, expr_use, t0), uc);
                assert(values_in(*self, domain) =~= values_in(s1, domain) + t1.to_set());
                assert(self.dynamic_class_construction@.to_set() =~= s1.dynamic_class_construction@.to_set() + uses_dynamic(
                    *g,
                    metas@,
                    expr_use,
                    t1,
                ));
            }
            i = i + 1;
        }
        proof {
            assert(defs@.take(defs@.len() as int) =~= defs@);
        }
        let ghost s2 = *self;
        // the modules
        let modules = &value.modules;
        let mut j: usize = 0;
        proof {
            assert(modules@.take(0) =~= Seq::<ModuleId>::empty());
        }
        while j < modules.len()
            invariant
                0 <= j <= modules@.len(),
                reach_wf(*self),
                forall|x: ReachabilityDomain| values_in(*self, x) == values_in(s2, x) && contexts_in(*self, x) == contexts_in(s2, x),
                self.dynamic_class_construction@ == s2.dynamic_class_construction@,
                self.graph_edges@ == s2.graph_edges@,
                self.module_modes@.to_set() == s2.module_modes@.to_set() + Set::new(
                    |t: (ReachabilityDomain, ModuleId, ModuleExecutionMode)|
                        exists|m: ModuleId| modules@.take(j as int).contains(m) && t == (domain, m, ModuleExecutionMode::Imported),
                ),
                forall|w: WorkItem|
                    #[trigger] self.worklist@.to_set().contains(w) <==> (s2.worklist@.to_set().contains(w) || new_module_work(
                        s2.module_modes@.to_set(),
                        domain,
                        modules@.take(j as int),
                        w,
                    )),
            decreases modules@.len() - j,
        {
            let m = modules[j];
            let ghost before_modes = self.module_modes@.to_set();
            self.mark_module(domain, m, ModuleExecutionMode::Imported);
            proof {
                let t0 = modules@.take(j as int);
                let t1 = modules@.take(j + 1);
                assert(t1 =~= t0.push(m));
                assert forall|x: ModuleId| #[trigger] t1.contains(x) <==> (t0.contains(x) || x == m) by {
                    if t1.contains(x) {
                        let k = choose|k: int| 0 <= k < t1.len() && t1[k] == x;
                        if k < j {
                            assert(t0[k] == x);
                        }
                    }
                    if t0.contains(x) {
                        let k = choose|k: int| 0 <= k < t0.len() && t0[k] == x;
                        assert(t1[k] == x);
                    }
                    if x == m {
                        assert(t1[j as int] == x);
                    }
                }
                let s_0 = Set::new(
                    |t: (ReachabilityDomain, ModuleId, ModuleExecutionMode)|
                        exists|mm: ModuleId| t0.contains(mm) && t == (domain, mm, ModuleExecutionMode::Imported),
                );
                let s_1 = Set::new(
                    |t: (ReachabilityDomain, ModuleId, ModuleExecutionMode)|
                        exists|mm: ModuleId| t1.contains(mm) && t == (domain, mm, ModuleExecutionMode::Imported),
                );
                assert forall|t: (ReachabilityDomain, ModuleId, ModuleExecutionMode)| #[trigger] s_1.contains(t) <==> (s_0.contains(t) || t == (domain, m, ModuleExecutionMode::Imported)) by {
                    if s_1.contains(t) {
                        let mm = choose|mm: ModuleId| t1.contains(mm) && t == (domain, mm, ModuleExecutionMode::Imported);
                        if mm != m {
                            assert(t0.contains(mm));
                        }
                    }
                    if s_0.contains(t) {
                        let mm = choose|mm: ModuleId| t0.contains(mm) && t == (domain, mm, ModuleExecutionMode::Imported);
                        assert(t1.contains(mm));
                    }
                    if t == (domain, m, ModuleExecutionMode::Imported) {
                        assert(t1.contains(m));
                    }
                }
                assert(self.module_modes@.to_set() =~= s2.module_modes@.to_set() + s_1);
                assert forall|w: WorkItem|
                    #[trigger] self.worklist@.to_set().contains(w) <==> (s2.worklist@.to_set().contains(w) || new_module_work(
                        s2.module_modes@.to_set(),
                        domain,
                        t1,
                        w,
                    )) by {
                    if w == (WorkItem::Module { domain, module: m, mode: ModuleExecutionMode::Imported }) {
                        if before_modes.contains((domain, m, ModuleExecutionMode::Imported)) && !s2.module_modes@.to_set().contains(
                            (domain, m, ModuleExecutionMode::Imported),
                        ) {
                            let mm = choose|mm: ModuleId| t0.contains(mm) && (domain, m, ModuleExecutionMode::Imported) == (domain, mm, ModuleExecutionMode::Imported);
                            assert(new_module_work(s2.module_modes@.to_set(), domain, t0, w));
                        }
                    }
                }
            }
            j = j + 1;
        }
        proof {
            assert(modules@.take(modules@.len() as int) =~= modules@);
            assert(s2.module_modes@ == s0.module_modes@);
            assert(contexts_in(s1, domain) == contexts_in(s0, domain));
        }
    }
}

// ----- classes constructed dynamically -----

/// The body of definition `a` uses definition `b`.
pub open spec fn uses(edges: Seq<(DefId, DefId)>, a: DefId, b: DefId) -> bool {
    exists|k: int| 0 <= k < edges.len() && #[trigger] edges[k] == (a, b)
}

/// `p` is a path of uses from one of `starts` that avoids `blocked`.
pub open spec fn avoiding_path(edges: Seq<(DefId, DefId)>, blocked: Set<DefId>, starts: Set<DefId>, p: Seq<DefId>) -> bool {
    &&& p.len() >= 1
    &&& starts.contains(p[0])
    &&& forall|i: int| 0 <= i < p.len() ==> !blocked.contains(#[trigger] p[i])
    &&& forall|i: int| 0 <= i < p.len() - 1 ==> #[trigger] uses(edges, p[i], p[i + 1])
}

/// The definitions reachable from `starts` through uses, avoiding `blocked`.
pub open spec fn reach_avoiding(edges: Seq<(DefId, DefId)>, blocked: Set<DefId>, starts: Set<DefId>) -> Set<DefId> {
    Set::new(|v: DefId| exists|p: Seq<DefId>| #[trigger] avoiding_path(edges, blocked, starts, p) && p.last() == v)
}

/// How many entries of `u` are not in `v`.
pub open spec fn missing(u: Seq<DefId>, v: Set<DefId>) -> nat
    decreases u.len(),
{
    if u.len() == 0 {
        0
    } else {
        missing(u.drop_last(), v) + if v.contains(u.last()) {
            0nat
        } else {
            1nat
        }
    }
}

proof fn lemma_missing_shrinks(u: Seq<DefId>, v: Set<DefId>, x: DefId)
    ensures
        missing(u, v.insert(x)) <= missing(u, v),
        u.contains(x) && !v.contains(x) ==> missing(u, v.insert(x)) < missing(u, v),
    decreases u.len(),
{
    if u.len() > 0 {
        lemma_missing_shrinks(u.drop_last(), v, x);
        if u.contains(x) && !v.contains(x) && u.last() != x {
            let k = choose|k: int| 0 <= k < u.len() && u[k] == x;
            assert(u.drop_last()[k] == x);
        }
    }
}

/// Every definition named by the uses, as users or used.
pub open spec fn use_nodes(edges: Seq<(DefId, DefId)>) -> Seq<DefId> {
    edges.map_values(|e: (DefId, DefId)| e.1)
}

/// Whether the list holds `x`.
fn holds_def(list: &Vec<DefId>, x: DefId) -> (yes: bool)
    ensures
        yes == list@.contains(x),
{
    let mut i: usize = 0;
    while i < list.len()
        invariant
            0 <= i <= list@.len(),
            forall|j: int| 0 <= j < i ==> list@[j] != x,
        decreases list@.len() - i,
    {
        if list[i].0 == x.0 {
            return true;
        }
        i = i + 1;
    }
    false
}

/// A path avoiding `blocked` ends in `found` when every start is found and every use from a
/// found definition outside `blocked` leads to a found definition.
proof fn lemma_closed_contains_paths(
    edges: Seq<(DefId, DefId)>,
    blocked: Set<DefId>,
    starts: Set<DefId>,
    found: Set<DefId>,
    p: Seq<DefId>,
    n: int,
)
    requires
        avoiding_path(edges, blocked, starts, p),
        0 <= n < p.len(),
        forall|s: DefId| #[trigger] starts.contains(s) ==> found.contains(s),
        forall|y: DefId, z: DefId| found.contains(y) && !blocked.contains(y) && #[trigger] uses(edges, y, z) ==> found.contains(z),
    ensures
        found.contains(p[n]),
    decreases n,
{
    if n > 0 {
        lemma_closed_contains_paths(edges, blocked, starts, found, p, n - 1);
        let m = n - 1;
        assert(uses(edges, p[m], p[m + 1]));
        assert(!blocked.contains(p[m]));
    }
}

/// Adds to `result` every definition reachable from `starts` through uses that avoids the
/// definitions already in `result`.
fn explore_avoiding(edges: &Vec<(DefId, DefId)>, starts: &Vec<DefId>, result: &mut Vec<DefId>)
    ensures
        final(result)@.to_set() == old(result)@.to_set() + reach_avoiding(edges@, old(result)@.to_set(), starts@.to_set()),
{
    let ghost r1 = result@.to_set();
    let ghost universe = starts@ + use_nodes(edges@);
    let mut stack: Vec<DefId> = Vec::new();
    let mut k: usize = 0;
    while k < starts.len()
        invariant
            0 <= k <= starts@.len(),
            stack@ == starts@.take(k as int),
            result@.to_set() == r1,
        decreases starts@.len() - k,
    {
        stack.push(starts[k]);
        proof {
            assert(starts@.take(k + 1) =~= starts@.take(k as int).push(starts@[k as int]));
        }
        k = k + 1;
    }
    proof {
        assert(starts@.take(starts@.len() as int) =~= starts@);
        assert forall|x: DefId| #[trigger] stack@.contains(x) implies universe.contains(x) by {
            let i = choose|i: int| 0 <= i < stack@.len() && stack@[i] == x;
            assert(universe[i] == x);
        }
    }
    while stack.len() > 0
        invariant
            universe == starts@ + use_nodes(edges@),
            r1.subset_of(result@.to_set()),
            forall|x: DefId| #[trigger] stack@.contains(x) ==> universe.contains(x),
            forall|x: DefId| #[trigger] stack@.contains(x) ==> starts@.to_set().contains(x) || exists|y: DefId|
                result@.to_set().contains(y) && !r1.contains(y) && #[trigger] uses(edges@, y, x),
            forall|v: DefId|
                #[trigger] result@.to_set().contains(v) && !r1.contains(v) ==> reach_avoiding(edges@, r1, starts@.to_set()).contains(v),
            forall|s: DefId| #[trigger] starts@.to_set().contains(s) ==> result@.to_set().contains(s) || stack@.contains(s),
            forall|y: DefId, z: DefId|
                result@.to_set().contains(y) && !r1.contains(y) && #[trigger] uses(edges@, y, z) ==> result@.to_set().contains(z)
                    || stack@.contains(z),
        decreases missing(universe, result@.to_set()), stack@.len(),
    {
        let ghost whole = stack@;
        let x = stack.pop().unwrap();
        let ghost rest = stack@;
        proof {
            assert(whole == rest.push(x));
            assert(whole.contains(x)) by {
                assert(whole[rest.len() as int] == x);
            }
            assert forall|z: DefId| #[trigger] whole.contains(z) implies rest.contains(z) || z == x by {
                let i = choose|i: int| 0 <= i < whole.len() && whole[i] == z;
                if i < rest.len() {
                    assert(rest[i] == z);
                }
            }
            assert forall|z: DefId| #[trigger] rest.contains(z) implies whole.contains(z) by {
                let i = choose|i: int| 0 <= i < rest.len() && rest[i] == z;
                assert(whole[i] == z);
            }
        }
        if holds_def(result, x) {
            proof {
                assert(result@.to_set().contains(x));
            }
            continue;
        }
        let ghost before = result@.to_set();
        let ghost before_seq = result@;
        proof {
            assert(!r1.contains(x));
            assert(reach_avoiding(edges@, r1, starts@.to_set()).contains(x)) by {
                if starts@.to_set().contains(x) {
                    let p = seq![x];
                    assert(avoiding_path(edges@, r1, starts@.to_set(), p));
                    assert(p.last() == x);
                } else {
                    let y = choose|y: DefId| result@.to_set().contains(y) && !r1.contains(y) && #[trigger] uses(edges@, y, x);
                    assert(reach_avoiding(edges@, r1, starts@.to_set()).contains(y));
                    let p = choose|p: Seq<DefId>| #[trigger] avoiding_path(edges@, r1, starts@.to_set(), p) && p.last() == y;
                    let q = p.push(x);
                    assert forall|i: int| 0 <= i < q.len() implies !r1.contains(#[trigger] q[i]) by {
                        if i < p.len() {
                            assert(q[i] == p[i]);
                        }
                    }
                    assert forall|i: int| 0 <= i < q.len() - 1 implies #[trigger] uses(edges@, q[i], q[i + 1]) by {
                        if i < p.len() - 1 {
                            assert(q[i] == p[i] && q[i + 1] == p[i + 1]);
                            assert(uses(edges@, p[i], p[i + 1]));
                        } else {
                            assert(q[i] == y && q[i + 1] == x);
                        }
                    }
                    assert(q[0] == p[0]);
                    assert(avoiding_path(edges@, r1, starts@.to_set(), q));
                    assert(q.last() == x);
                }
            }
        }
        result.push(x);
        proof {
            before_seq.lemma_push_to_set_commute(x);
            lemma_missing_shrinks(universe, before, x);
        }
        let mut j: usize = 0;
        while j < edges.len()
            invariant
                0 <= j <= edges@.len(),
                universe == starts@ + use_nodes(edges@),
                forall|z: DefId| #[trigger] stack@.contains(z) ==> rest.contains(z) || uses(edges@, x, z),
                forall|z: DefId| #[trigger] rest.contains(z) ==> stack@.contains(z),
                forall|t: int| 0 <= t < j && (#[trigger] edges@[t]).0 == x ==> stack@.contains(edges@[t].1),
                forall|z: DefId| #[trigger] stack@.contains(z) ==> universe.contains(z) || rest.contains(z),
            decreases edges@.len() - j,
        {
            let (a, b) = edges[j];
            let ghost prev = stack@;
            if a.0 == x.0 {
                stack.push(b);
                proof {
                    assert(stack@ == prev.push(b));
                    assert(edges@[j as int] == (x, b));
                    assert(uses(edges@, x, b));
                    assert(use_nodes(edges@)[j as int] == b);
                    assert(universe[starts@.len() + j] == b);
                    assert forall|z: DefId| #[trigger] stack@.contains(z) implies prev.contains(z) || z == b by {
                        let i = choose|i: int| 0 <= i < stack@.len() && stack@[i] == z;
                        if i < prev.len() {
                            assert(prev[i] == z);
                        }
                    }
                    assert forall|z: DefId| #[trigger] prev.contains(z) implies stack@.contains(z) by {
                        let i = choose|i: int| 0 <= i < prev.len() && prev[i] == z;
                        assert(stack@[i] == z);
                    }
                    assert(stack@[prev.len() as int] == b);
                }
            }
            j = j + 1;
        }
        proof {
            assert forall|z: DefId| uses(edges@, x, z) implies #[trigger] stack@.contains(z) by {
                let t = choose|t: int| 0 <= t < edges@.len() && #[trigger] edges@[t] == (x, z);
                assert(edges@[t].0 == x);
            }
            assert forall|z: DefId| #[trigger] stack@.contains(z) implies universe.contains(z) by {
                if rest.contains(z) {
                    assert(whole.contains(z));
                }
            }
        }
    }
    proof {
        let found = result@.to_set();
        assert forall|v: DefId| #[trigger] reach_avoiding(edges@, r1, starts@.to_set()).contains(v) implies found.contains(v) by {
            let p = choose|p: Seq<DefId>| #[trigger] avoiding_path(edges@, r1, starts@.to_set(), p) && p.last() == v;
            lemma_closed_contains_paths(edges@, r1, starts@.to_set(), found, p, p.len() - 1);
        }
        assert(found =~= r1 + reach_avoiding(edges@, r1, starts@.to_set()));
    }
}

/// The ids of the methods of `class`.
pub open spec fn method_ids(g: SemanticGraph, class: DefId) -> Set<DefId> {
    match definition_by_id(g, class) {
        None => Set::empty(),
        Some(c) => Set::new(
            |x: DefId| exists|i: int| 0 <= i < g.definitions@.len() && is_method_of(g, c, #[trigger] g.definitions@[i]) && g.definitions@[i].id == x,
        ),
    }
}

/// The ids of the methods of `class`.
pub fn class_method_ids(g: &SemanticGraph, class: DefId) -> (out: Vec<DefId>)
    ensures
        out@.to_set() == method_ids(*g, class),
{
    let mut out: Vec<DefId> = Vec::new();
    let ck = match find_definition(g, class) {
        Some(ck) => ck,
        None => {
            proof {
                assert(out@.to_set() =~= Set::<DefId>::empty());
            }
            return out;
        },
    };
    let ghost c = g.definitions@[ck as int];
    let mut i: usize = 0;
    proof {
        assert(out@.to_set() =~= Set::<DefId>::empty());
    }
    while i < g.definitions.len()
        invariant
            0 <= i <= g.definitions@.len(),
            ck < g.definitions@.len(),
            c == g.definitions@[ck as int],
            definition_by_id(*g, class) == Some(c),
            out@.to_set() == Set::new(
                |x: DefId| exists|j: int| 0 <= j < i && is_method_of(*g, c, #[trigger] g.definitions@[j]) && g.definitions@[j].id == x,
            ),
        decreases g.definitions@.len() - i,
    {
        let d = &g.definitions[i];
        let mut method = false;
        if d.module.0 == g.definitions[ck].module.0 {
            if let Some(bk) = find_binding(g, d.binding) {
                method = g.bindings[bk].scope.0 == g.definitions[ck].scope.0;
            }
        }
        let ghost before = out@;
        proof {
            let dd = g.definitions@[i as int];
            assert(dd.module == c.module <==> d.module.0 == c.module.0);
            assert(method == is_method_of(*g, c, dd));
        }
        if method {
            out.push(d.id);
        }
        proof {
            if method {
                lemma_push_or_keep(before, out@, d.id);
            }
            assert(out@.to_set() =~= Set::new(
                |x: DefId| exists|j: int| 0 <= j < i + 1 && is_method_of(*g, c, #[trigger] g.definitions@[j]) && g.definitions@[j].id == x,
            ));
        }
        i = i + 1;
    }
    proof {
        assert(out@.to_set() =~= method_ids(*g, class));
    }
    out
}

/// Definition ids in strictly increasing order.
pub open spec fn defs_increasing(s: Seq<DefId>) -> bool {
    forall|i: int, j: int| 0 <= i < j < s.len() ==> (#[trigger] s[i]).0 < (#[trigger] s[j]).0
}

/// Two increasing lists of the same definitions are the same list.
pub proof fn lemma_increasing_unique(a: Seq<DefId>, b: Seq<DefId>)
    requires
        defs_increasing(a),
        defs_increasing(b),
        a.to_set() == b.to_set(),
    ensures
        a == b,
    decreases a.len(),
{
    if a.len() == 0 {
        if b.len() > 0 {
            assert(b.to_set().contains(b[0]));
        }
    } else if b.len() == 0 {
        assert(a.to_set().contains(a[0]));
    } else {
        assert(a.to_set().contains(a[0]));
        assert(b.to_set().contains(b[0]));
        let ia = choose|i: int| 0 <= i < b.len() && b[i] == a[0];
        let ib = choose|i: int| 0 <= i < a.len() && a[i] == b[0];
        if ia > 0 {
            assert(b[0].0 < b[ia].0);
        }
        if ib > 0 {
            assert(a[0].0 < a[ib].0);
        }
        assert(a[0] == b[0]);
        let ra = a.drop_first();
        let rb = b.drop_first();
        assert forall|x: DefId| #[trigger] ra.to_set().contains(x) <==> rb.to_set().contains(x) by {
            if ra.contains(x) {
                let i = choose|i: int| 0 <= i < ra.len() && ra[i] == x;
                assert(a[i + 1] == x);
                assert(a.to_set().contains(x));
                let k = choose|k: int| 0 <= k < b.len() && b[k] == x;
                if k == 0 {
                    assert(a[0].0 < a[i + 1].0);
                }
                assert(rb[k - 1] == x);
            }
            if rb.contains(x) {
                let i = choose|i: int| 0 <= i < rb.len() && rb[i] == x;
                assert(b[i + 1] == x);
                assert(b.to_set().contains(x));
                let k = choose|k: int| 0 <= k < a.len() && a[k] == x;
                if k == 0 {
                    assert(b[0].0 < b[i + 1].0);
                }
                assert(ra[k - 1] == x);
            }
        }
        assert(ra.to_set() =~= rb.to_set());
        lemma_increasing_unique(ra, rb);
        assert(a =~= seq![a[0]] + ra);
        assert(b =~= seq![b[0]] + rb);
    }
}

/// Adds a definition to a strictly increasing list, keeping it so.
fn insert_increasing(list: &mut Vec<DefId>, x: DefId)
    requires
        defs_increasing(old(list)@),
    ensures
        defs_increasing(final(list)@),
        final(list)@.to_set() == old(list)@.to_set().insert(x),
{
    let ghost before = list@;
    let mut i: usize = 0;
    while i < list.len() && list[i].0 < x.0
        invariant
            0 <= i <= list@.len(),
            list@ == before,
            defs_increasing(before),
            forall|j: int| 0 <= j < i ==> (#[trigger] before[j]).0 < x.0,
        decreases list@.len() - i,
    {
        i = i + 1;
    }
    if i < list.len() && list[i].0 == x.0 {
        proof {
            assert(before[i as int] == x);
            assert(before.contains(x));
            lemma_push_or_keep(before, before, x);
        }
        return;
    }
    list.insert(i, x);
    proof {
        assert forall|a: int, b: int| 0 <= a < b < list@.len() implies (#[trigger] list@[a]).0 < (#[trigger] list@[b]).0 by {
            if b < i {
                assert(list@[a] == before[a] && list@[b] == before[b]);
            } else if b == i {
                assert(list@[a] == before[a]);
            } else if a == i {
                assert(list@[b] == before[b - 1]);
                if b - 1 > i {
                    assert(before[i as int].0 < before[b - 1].0);
                }
            } else if a < i {
                assert(list@[a] == before[a] && list@[b] == before[b - 1]);
            } else {
                assert(list@[a] == before[a - 1] && list@[b] == before[b - 1]);
            }
        }
        assert forall|y: DefId| #[trigger] list@.to_set().contains(y) <==> before.to_set().insert(x).contains(y) by {
            if list@.contains(y) {
                let k = choose|k: int| 0 <= k < list@.len() && list@[k] == y;
                if k < i {
                    assert(before[k] == y);
                } else if k > i {
                    assert(before[k - 1] == y);
                }
            }
            if before.contains(y) {
                let k = choose|k: int| 0 <= k < before.len() && before[k] == y;
                if k < i {
                    assert(list@[k] == y);
                } else {
                    assert(list@[k + 1] == y);
                }
            }
            if y == x {
                assert(list@[i as int] == x);
            }
        }
        assert(list@.to_set() =~= before.to_set().insert(x));
    }
}

/// The definitions a class constructed through an unresolved metaclass may run, taking the
/// seed classes in increasing order: each class itself, and everything its methods use,
/// stopping at what an earlier seed already reached.
pub open spec fn construction_members(g: SemanticGraph, edges: Seq<(DefId, DefId)>, seeds: Seq<DefId>) -> Set<DefId>
    decreases seeds.len(),
{
    if seeds.len() == 0 {
        Set::empty()
    } else {
        let reached = construction_members(g, edges, seeds.drop_last()).insert(seeds.last());
        reached + reach_avoiding(edges, reached, method_ids(g, seeds.last()))
    }
}

/// The seeds: the classes found constructed dynamically while solving, and the production
/// reachable classes whose metaclass did not resolve.
pub open spec fn construction_seeds(g: SemanticGraph, dynamic: Set<DefId>, production: Set<DefId>, unresolved: Set<DefId>) -> Set<DefId> {
    dynamic + Set::new(
        |x: DefId|
            exists|i: int|
                0 <= i < g.definitions@.len() && (#[trigger] g.definitions@[i]).id == x && g.definitions@[i].kind
                    == DefinitionKind::Class && production.contains(x) && unresolved.contains(x),
    )
}

/// The definitions a dynamically constructed class may run.
pub fn dynamic_construction_members(
    g: &SemanticGraph,
    dynamic: &Vec<DefId>,
    production_values: &Vec<DefId>,
    unresolved_metaclass: &Vec<DefId>,
    edges: &Vec<(DefId, DefId)>,
) -> (members: Vec<DefId>)
    ensures
        forall|seeds: Seq<DefId>|
            defs_increasing(seeds) && seeds.to_set() == construction_seeds(
                *g,
                dynamic@.to_set(),
                production_values@.to_set(),
                unresolved_metaclass@.to_set(),
            ) ==> #[trigger] construction_members(*g, edges@, seeds) == members@.to_set(),
        exists|seeds: Seq<DefId>|
            defs_increasing(seeds) && #[trigger] seeds.to_set() == construction_seeds(
                *g,
                dynamic@.to_set(),
                production_values@.to_set(),
                unresolved_metaclass@.to_set(),
            ),
{
    let mut seeds: Vec<DefId> = Vec::new();
    let mut i: usize = 0;
    proof {
        assert(seeds@.to_set() =~= Set::<DefId>::empty());
    }
    while i < dynamic.len()
        invariant
            0 <= i <= dynamic@.len(),
            defs_increasing(seeds@),
            seeds@.to_set() == dynamic@.take(i as int).to_set(),
        decreases dynamic@.len() - i,
    {
        insert_increasing(&mut seeds, dynamic[i]);
        proof {
            let t0 = dynamic@.take(i as int);
            assert(dynamic@.take(i + 1) =~= t0.push(dynamic@[i as int]));
            t0.lemma_push_to_set_commute(dynamic@[i as int]);
        }
        i = i + 1;
    }
    proof {
        assert(dynamic@.take(dynamic@.len() as int) =~= dynamic@);
    }
    let ghost base = seeds@.to_set();
    let mut k: usize = 0;
    while k < g.definitions.len()
        invariant
            0 <= k <= g.definitions@.len(),
            base == dynamic@.to_set(),
            defs_increasing(seeds@),
            seeds@.to_set() == base + Set::new(
                |x: DefId|
                    exists|j: int|
                        0 <= j < k && (#[trigger] g.definitions@[j]).id == x && g.definitions@[j].kind == DefinitionKind::Class
                            && production_values@.to_set().contains(x) && unresolved_metaclass@.to_set().contains(x),
            ),
        decreases g.definitions@.len() - k,
    {
        let d = &g.definitions[k];
        let is_class = match d.kind {
            DefinitionKind::Class => true,
            _ => false,
        };
        let ghost before = seeds@.to_set();
        if is_class && holds_def(production_values, d.id) && holds_def(unresolved_metaclass, d.id) {
            insert_increasing(&mut seeds, d.id);
        }
        proof {
            assert(production_values@.to_set().contains(d.id) == production_values@.contains(d.id));
            assert(seeds@.to_set() =~= base + Set::new(
                |x: DefId|
                    exists|j: int|
                        0 <= j < k + 1 && (#[trigger] g.definitions@[j]).id == x && g.definitions@[j].kind == DefinitionKind::Class
                            && production_values@.to_set().contains(x) && unresolved_metaclass@.to_set().contains(x),
            ));
        }
        k = k + 1;
    }
    let ghost order = seeds@;
    proof {
        assert(seeds@.to_set() =~= construction_seeds(*g, dynamic@.to_set(), production_values@.to_set(), unresolved_metaclass@.to_set()));
    }
    let mut members: Vec<DefId> = Vec::new();
    let mut s: usize = 0;
    proof {
        assert(order.take(0) =~= Seq::<DefId>::empty());
        assert(members@.to_set() =~= Set::<DefId>::empty());
    }
    while s < seeds.len()
        invariant
            0 <= s <= seeds@.len(),
            seeds@ == order,
            members@.to_set() == construction_members(*g, edges@, order.take(s as int)),
        decreases seeds@.len() - s,
    {
        let class = seeds[s];
        let ghost prev = members@.to_set();
        let ghost prev_seq = members@;
        members.push(class);
        proof {
            prev_seq.lemma_push_to_set_commute(class);
        }
        let methods = class_method_ids(g, class);
        explore_avoiding(edges, &methods, &mut members);
        proof {
            let t1 = order.take(s + 1);
            assert(t1.drop_last() =~= order.take(s as int));
            assert(t1.last() == class);
        }
        s = s + 1;
    }
    proof {
        assert(order.take(order.len() as int) =~= order);
        assert forall|q: Seq<DefId>|
            defs_increasing(q) && q.to_set() == construction_seeds(
                *g,
                dynamic@.to_set(),
                production_values@.to_set(),
                unresolved_metaclass@.to_set(),
            ) implies #[trigger] construction_members(*g, edges@, q) == members@.to_set() by {
            lemma_increasing_unique(q, order);
        }
        assert(defs_increasing(order) && order.to_set() == construction_seeds(
            *g,
            dynamic@.to_set(),
            production_values@.to_set(),
            unresolved_metaclass@.to_set(),
        ));
    }
    members
}

} // verus!
