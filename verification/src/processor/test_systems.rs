use vstd::prelude::*;
use std::collections::HashSet;
use vstd::std_specs::iter::IteratorSpec;

use crate::processor::Processor;

verus! {

broadcast use vstd::std_specs::hash::group_hash_axioms;

/// Marks the step that keeps, of a queue of systems, those that can run.
pub struct TestSystems;

impl Processor<TestSystems> {
    /// The systems of `queue` that pass `check`, which is asked once about each of
    /// them: whether the system could be resolved and may make its accesses.
    pub fn test_systems<F: Fn(u64) -> bool>(queue: &HashSet<u64>, check: F) -> (passing: HashSet<
        u64,
    >)
        requires
            forall|id: u64| queue@.contains(id) ==> #[trigger] check.requires((id,)),
        ensures
            passing@ <= queue@,
            forall|id: u64| #[trigger] passing@.contains(id) ==> check.ensures((id,), true),
            forall|id: u64|
                queue@.contains(id) && !#[trigger] passing@.contains(id) ==> check.ensures(
                    (id,),
                    false,
                ),
    {
        let mut passing: HashSet<u64> = HashSet::new();
        let ghost keys = vstd::std_specs::hash::spec_hash_keys_iter(queue).remaining();
        proof {
            assert forall|y: u64| queue@.contains(y) implies exists|i: int|
                0 <= i < keys.len() && *keys[i] == y by {
                assert(keys.unref().to_set().contains(y));
                let i = choose|i: int| 0 <= i < keys.unref().len() && keys.unref()[i] == y;
                assert(*keys[i] == y);
            }
            assert forall|i: int| 0 <= i < keys.len() implies queue@.contains(*#[trigger] keys[i]) by {
                assert(keys.unref()[i] == *keys[i]);
                assert(keys.unref().to_set().contains(keys.unref()[i]));
            }
        }
        for id in it: queue.iter()
            invariant
                it.seq() == keys,
                forall|i: int| 0 <= i < keys.len() ==> queue@.contains(*#[trigger] keys[i]),
                forall|id: u64| queue@.contains(id) ==> #[trigger] check.requires((id,)),
                forall|y: u64|
                    #[trigger] passing@.contains(y) ==> (exists|i: int|
                        0 <= i < it.index() && *keys[i] == y) && check.ensures((y,), true),
                forall|i: int|
                    0 <= i < it.index() && !passing@.contains(*#[trigger] keys[i]) ==> check.ensures(
                        (*keys[i],),
                        false,
                    ),
        {
            let ghost idx = it.index();
            proof {
                assert(keys[idx] == id);
            }
            let ok = check(*id);
            if ok {
                passing.insert(*id);
            }
            proof {
                assert forall|y: u64|
                    #[trigger] passing@.contains(y) implies (exists|i: int|
                    0 <= i < idx + 1 && *keys[i] == y) && check.ensures((y,), true) by {
                    if y != *id {
                        let i = choose|i: int| 0 <= i < idx && *keys[i] == y;
                        assert(0 <= i < idx + 1 && *keys[i] == y);
                    } else {
                        assert(0 <= idx < idx + 1 && *keys[idx] == y);
                    }
                }
            }
        }
        proof {
            assert forall|y: u64| #[trigger] passing@.contains(y) implies queue@.contains(y) by {
                let i = choose|i: int| 0 <= i < keys.len() && *keys[i] == y;
            }
            assert forall|y: u64|
                queue@.contains(y) && !#[trigger] passing@.contains(y) implies check.ensures(
                (y,),
                false,
            ) by {
                let i = choose|i: int| 0 <= i < keys.len() && *keys[i] == y;
            }
        }
        passing
    }
}

} // verus!
