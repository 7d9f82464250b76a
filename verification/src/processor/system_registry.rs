use vstd::prelude::*;
use std::collections::{HashMap, HashSet};
use vstd::std_specs::iter::IteratorSpec;

use crate::processor::system_blocker::CurrentSystemBlockers;
use crate::processor::system_queue::SystemQueue;

verus! {

broadcast use vstd::std_specs::hash::group_hash_axioms;

/// A condition on which systems may be queued.
pub enum Invariant<C> {
    /// The criteria of each system, by id, tested on the current events.
    EventCondition(HashMap<u64, C>),
}

/// `pass` is what testing system `id` against `criteria` with `test` came to:
/// `true` when it has criteria and they passed, `false` when it has none or they
/// did not pass.
pub open spec fn tested<C, T: Fn(&C) -> bool>(criteria: Map<u64, C>, id: u64, pass: bool, test: T) -> bool {
    if pass {
        criteria.contains_key(id) && test.ensures((&criteria[id],), true)
    } else {
        criteria.contains_key(id) ==> test.ensures((&criteria[id],), false)
    }
}

/// The items of `items` whose result in `passes` is `true`, in their order.
pub open spec fn kept(items: Seq<u64>, passes: Seq<bool>) -> Seq<u64>
    decreases passes.len(),
{
    if passes.len() == 0 || items.len() != passes.len() {
        Seq::empty()
    } else {
        let rest = kept(items.drop_last(), passes.drop_last());
        if passes.last() {
            rest.push(items.last())
        } else {
            rest
        }
    }
}

impl<C> Invariant<C> {
    /// The criteria of each system.
    pub open spec fn criteria(&self) -> Map<u64, C> {
        match self {
            Invariant::EventCondition(m) => m@,
        }
    }

    /// Whether system `id` has criteria under this invariant that pass `test`.
    pub fn admits<T: Fn(&C) -> bool>(&self, id: u64, test: &T) -> (pass: bool)
        requires
            forall|c: C| #[trigger] test.requires((&c,)),
        ensures
            tested(self.criteria(), id, pass, *test),
    {
        match self {
            Invariant::EventCondition(criteria_map) => match criteria_map.get(&id) {
                Some(criteria) => test(criteria),
                None => false,
            },
        }
    }

    /// The systems of `filtering` that this invariant admits (see
    /// [`Invariant::admits`]), in their order.
    pub fn filter<T: Fn(&C) -> bool>(&self, filtering: Vec<u64>, test: &T) -> (admitted: Vec<u64>)
        requires
            forall|c: C| #[trigger] test.requires((&c,)),
        ensures
            exists|passes: Seq<bool>|
                {
                    &&& passes.len() == filtering@.len()
                    &&& forall|i: int|
                        0 <= i < passes.len() ==> tested(self.criteria(), filtering@[i], passes[i], *test)
                    &&& admitted@ == #[trigger] kept(filtering@, passes)
                },
    {
        let ghost items = filtering@;
        let ghost mut passes: Seq<bool> = Seq::empty();
        let mut admitted: Vec<u64> = Vec::new();
        for id in it: filtering.into_iter()
            invariant
                it.seq() == items,
                forall|c: C| #[trigger] test.requires((&c,)),
                passes.len() == it.index(),
                forall|i: int| 0 <= i < passes.len() ==> tested(self.criteria(), items[i], passes[i], *test),
                admitted@ == kept(items.take(it.index() as int), passes),
        {
            let ghost k = it.index() as int;
            let ghost p0 = passes;
            proof {
                assert(items[k] == id);
            }
            let pass = self.admits(id, test);
            if pass {
                admitted.push(id);
            }
            proof {
                passes = passes.push(pass);
                assert(passes.drop_last() =~= p0);
                assert(items.take(k + 1).drop_last() =~= items.take(k));
                assert(items.take(k + 1).last() == id);
                assert forall|i: int| 0 <= i < passes.len() implies tested(
                    self.criteria(),
                    items[i],
                    passes[i],
                    *test,
                ) by {
                    if i < k {
                        assert(passes[i] == p0[i]);
                    }
                }
            }
        }
        proof {
            assert(items.take(items.len() as int) == items);
        }
        admitted
    }
}

/// The systems that may run, by id, each with the id of its resource.
pub struct SystemRegistry {
    registry: HashMap<u64, u64>,
}

/// Some invariant of `invariants` admits system `id`, as `test` found.
pub open spec fn some_admits<C, T: Fn(&C) -> bool>(invariants: Seq<Invariant<C>>, id: u64, test: T) -> bool {
    exists|i: int| 0 <= i < invariants.len() && tested(#[trigger] invariants[i].criteria(), id, true, test)
}

/// No invariant of `invariants` admits system `id`, as `test` found.
pub open spec fn none_admits<C, T: Fn(&C) -> bool>(invariants: Seq<Invariant<C>>, id: u64, test: T) -> bool {
    forall|i: int| 0 <= i < invariants.len() ==> tested(#[trigger] invariants[i].criteria(), id, false, test)
}

/// Whether some invariant of `invariants` admits system `id`, asking them in turn.
fn any_admits<C, T: Fn(&C) -> bool>(invariants: &Vec<Invariant<C>>, id: u64, test: &T) -> (pass: bool)
    requires
        forall|c: C| #[trigger] test.requires((&c,)),
    ensures
        pass ==> some_admits(invariants@, id, *test),
        !pass ==> none_admits(invariants@, id, *test),
{
    let mut i: usize = 0;
    while i < invariants.len()
        invariant
            i <= invariants@.len(),
            forall|c: C| #[trigger] test.requires((&c,)),
            forall|j: int| 0 <= j < i ==> tested(#[trigger] invariants@[j].criteria(), id, false, *test),
        decreases invariants@.len() - i,
    {
        if invariants[i].admits(id, test) {
            proof {
                assert(tested(invariants@[i as int].criteria(), id, true, *test));
            }
            return true;
        }
        i = i + 1;
    }
    false
}

impl SystemRegistry {
    /// The resource of each registered system.
    pub closed spec fn resources(&self) -> Map<u64, u64> {
        self.registry@
    }

    /// A registry of the systems of `registry`, each with its resource.
    pub fn new(registry: HashMap<u64, u64>) -> (r: Self)
        ensures
            r.resources() == registry@,
    {
        Self { registry }
    }

    /// The queue of the registered systems whose resource a blocker of `blockers`
    /// blocks and that some invariant of `invariants` admits, as `test` finds their
    /// criteria on the current events.
    pub fn enqueue<C, T: Fn(&C) -> bool>(
        &self,
        invariants: &Vec<Invariant<C>>,
        blockers: &CurrentSystemBlockers,
        test: &T,
    ) -> (queue: SystemQueue)
        requires
            forall|c: C| #[trigger] test.requires((&c,)),
        ensures
            forall|id: u64|
                #[trigger] queue.queued().contains(id) ==> {
                    &&& self.resources().contains_key(id)
                    &&& blockers.blocked().contains(self.resources()[id])
                    &&& some_admits(invariants@, id, *test)
                },
            forall|id: u64|
                self.resources().contains_key(id) && !#[trigger] queue.queued().contains(id) ==> (
                !blockers.blocked().contains(self.resources()[id]) || none_admits(invariants@, id, *test)),
    {
        let mut queued: HashSet<u64> = HashSet::new();
        let ghost pairs = vstd::std_specs::hash::spec_hash_map_iter(&self.registry).remaining();
        for item in it: self.registry.iter()
            invariant
                it.seq() == pairs,
                pairs == vstd::std_specs::hash::spec_hash_map_iter(&self.registry).remaining(),
                forall|c: C| #[trigger] test.requires((&c,)),
                forall|id: u64|
                    #[trigger] queued@.contains(id) ==> {
                        &&& self.registry@.contains_key(id)
                        &&& blockers.blocked().contains(self.registry@[id])
                        &&& some_admits(invariants@, id, *test)
                    },
                forall|j: int|
                    0 <= j < it.index() && !queued@.contains(*(#[trigger] pairs[j]).0) ==> (
                    !blockers.blocked().contains(self.registry@[*pairs[j].0]) || none_admits(
                        invariants@,
                        *pairs[j].0,
                        *test,
                    )),
        {
            let ghost idx = it.index();
            let (id, resource) = item;
            proof {
                assert(pairs[idx] == item);
                assert(self.registry@.contains_key(*id));
                assert(self.registry@[*id] == *resource);
            }
            if blockers.blocks(resource) {
                if any_admits(invariants, *id, test) {
                    queued.insert(*id);
                }
            }
        }
        proof {
            assert forall|id: u64|
                self.registry@.contains_key(id) && !#[trigger] queued@.contains(id) implies (
                !blockers.blocked().contains(self.registry@[id]) || none_admits(invariants@, id, *test)) by {
                assert(pairs.contains((&id, &self.registry@[id])));
                let j = choose|j: int| 0 <= j < pairs.len() && pairs[j] == (&id, &self.registry@[id]);
                assert(*pairs[j].0 == id);
            }
        }
        SystemQueue::new(queued)
    }
}

} // verus!
