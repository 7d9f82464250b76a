use vstd::prelude::*;
use std::collections::{HashMap, HashSet};
use vstd::std_specs::iter::IteratorSpec;

verus! {

broadcast use vstd::std_specs::hash::group_hash_axioms;

/// The systems queued to run, by id.
pub struct SystemQueue {
    systems: HashSet<u64>,
}

impl SystemQueue {
    /// The queued systems.
    pub closed spec fn queued(&self) -> Set<u64> {
        self.systems@
    }

    /// A queue of `systems`.
    pub fn new(systems: HashSet<u64>) -> (q: Self)
        ensures
            q.queued() == systems@,
    {
        Self { systems }
    }

    /// The queued systems.
    pub fn systems(&self) -> (s: &HashSet<u64>)
        ensures
            s@ == self.queued(),
    {
        &self.systems
    }

    /// The queued systems that `try_promote`, asked once about each of them, makes
    /// ready to run (it resolves the system, checks that it can run and takes it),
    /// each under what it gave; the others are dropped.
    pub fn promote<V, F: Fn(u64) -> Option<V>>(self, try_promote: F) -> (promoted: HashMap<u64, V>)
        requires
            forall|id: u64| self.queued().contains(id) ==> #[trigger] try_promote.requires((id,)),
        ensures
            promoted@.dom() <= self.queued(),
            forall|id: u64|
                #[trigger] promoted@.contains_key(id) ==> try_promote.ensures((id,), Some(promoted@[id])),
            forall|id: u64|
                self.queued().contains(id) && !#[trigger] promoted@.contains_key(id) ==> try_promote.ensures(
                    (id,),
                    None::<V>,
                ),
    {
        let queue = self.systems;
        let mut promoted: HashMap<u64, V> = HashMap::new();
        let ghost keys = vstd::std_specs::hash::spec_hash_keys_iter(&queue).remaining();
        proof {
            assert forall|i: int| 0 <= i < keys.len() implies queue@.contains(*#[trigger] keys[i]) by {
                assert(keys.unref()[i] == *keys[i]);
                assert(keys.unref().to_set().contains(keys.unref()[i]));
            }
        }
        for id in it: queue.iter()
            invariant
                it.seq() == keys,
                forall|i: int| 0 <= i < keys.len() ==> queue@.contains(*#[trigger] keys[i]),
                forall|id: u64| queue@.contains(id) ==> #[trigger] try_promote.requires((id,)),
                forall|y: u64|
                    #[trigger] promoted@.contains_key(y) ==> (exists|i: int|
                        0 <= i < it.index() && *keys[i] == y) && try_promote.ensures((y,), Some(promoted@[y])),
                forall|i: int|
                    0 <= i < it.index() && !promoted@.contains_key(*#[trigger] keys[i]) ==> try_promote.ensures(
                        (*keys[i],),
                        None::<V>,
                    ),
        {
            let ghost idx = it.index();
            let ghost before = promoted@;
            proof {
                assert(keys[idx] == id);
            }
            let got = try_promote(*id);
            let ghost g = got;
            match got {
                Some(value) => {
                    promoted.insert(*id, value);
                },
                None => {},
            }
            proof {
                assert forall|y: u64|
                    #[trigger] promoted@.contains_key(y) implies (exists|i: int|
                    0 <= i < idx + 1 && *keys[i] == y) && try_promote.ensures((y,), Some(promoted@[y])) by {
                    if y != *id || g is None {
                        assert(before.contains_key(y));
                        let i = choose|i: int| 0 <= i < idx && *keys[i] == y;
                        assert(0 <= i < idx + 1 && *keys[i] == y);
                    } else {
                        assert(0 <= idx < idx + 1 && *keys[idx] == y);
                    }
                }
                assert forall|i: int|
                    0 <= i < idx + 1 && !promoted@.contains_key(*#[trigger] keys[i]) implies try_promote.ensures(
                    (*keys[i],),
                    None::<V>,
                ) by {
                    if i < idx {
                        assert(!before.contains_key(*keys[i]));
                    }
                }
            }
        }
        proof {
            assert forall|y: u64| #[trigger] promoted@.contains_key(y) implies queue@.contains(y) by {
                let i = choose|i: int| 0 <= i < keys.len() && *keys[i] == y;
            }
            assert forall|y: u64|
                queue@.contains(y) && !#[trigger] promoted@.contains_key(y) implies try_promote.ensures(
                (y,),
                None::<V>,
            ) by {
                assert(keys.unref().to_set().contains(y));
                let i = choose|i: int| 0 <= i < keys.unref().len() && keys.unref()[i] == y;
                assert(*keys[i] == y);
            }
        }
        promoted
    }
}

} // verus!
