use vstd::prelude::*;
use std::collections::HashSet;
use vstd::std_specs::iter::IteratorSpec;

verus! {

broadcast use vstd::std_specs::hash::group_hash_axioms;

/// Where a system asks to run: before some nodes, after others, and with which
/// priority when a cycle among such requests has to be cut (greater priorities
/// lose their outgoing edge first). The priority is a key whose order is the
/// order of the priorities it stands for.
pub struct ProcessorOrdering {
    assert_before: HashSet<u64>,
    assert_after: HashSet<u64>,
    end_of_chain_priority: u64,
}

/// The elements of `a` that are also in `b`.
fn intersection(a: &HashSet<u64>, b: &HashSet<u64>) -> (r: HashSet<u64>)
    ensures
        r@ == a@.intersect(b@),
{
    let mut r: HashSet<u64> = HashSet::new();
    for x in it: a.iter()
        invariant
            it.seq() == vstd::std_specs::hash::spec_hash_keys_iter(a).remaining(),
            forall|y: u64|
                #![trigger r@.contains(y)]
                r@.contains(y) <==> (exists|i: int| 0 <= i < it.index() && *it.seq()[i] == y)
                    && b@.contains(y),
    {
        let ghost idx = it.index();
        proof {
            assert(it.seq()[idx] == x);
        }
        if b.contains(x) {
            r.insert(*x);
        }
        proof {
            assert forall|y: u64|
                #![trigger r@.contains(y)]
                r@.contains(y) <==> (exists|i: int| 0 <= i < idx + 1 && *it.seq()[i] == y) && b@.contains(
                    y,
                ) by {
                if y != *x && (exists|i: int| 0 <= i < idx + 1 && *it.seq()[i] == y) {
                    let i = choose|i: int| 0 <= i < idx + 1 && *it.seq()[i] == y;
                    assert(i < idx);
                }
            }
        }
    }
    proof {
        let keys = vstd::std_specs::hash::spec_hash_keys_iter(a).remaining();
        assert forall|y: u64| r@.contains(y) <==> a@.intersect(b@).contains(y) by {
            if a@.contains(y) {
                assert(keys.unref().to_set().contains(y));
                let i = choose|i: int| 0 <= i < keys.unref().len() && keys.unref()[i] == y;
                assert(*keys[i] == y);
            }
            if r@.contains(y) {
                let i = choose|i: int| 0 <= i < keys.len() && *keys[i] == y;
                assert(keys.unref()[i] == y);
                assert(keys.unref().to_set().contains(y));
            }
        }
        assert(r@ =~= a@.intersect(b@));
    }
    r
}

impl ProcessorOrdering {
    /// The nodes that this one runs before.
    pub closed spec fn before(&self) -> Set<u64> {
        self.assert_before@
    }

    /// The nodes that this one runs after.
    pub closed spec fn after(&self) -> Set<u64> {
        self.assert_after@
    }

    /// The priority key.
    pub closed spec fn priority(&self) -> u64 {
        self.end_of_chain_priority
    }

    /// An ordering with the given requests and priority key.
    pub fn new(assert_before: HashSet<u64>, assert_after: HashSet<u64>, end_of_chain_priority: u64) -> (o:
        Self)
        ensures
            o.before() == assert_before@,
            o.after() == assert_after@,
            o.priority() == end_of_chain_priority,
    {
        Self { assert_before, assert_after, end_of_chain_priority }
    }

    /// The same ordering with its requests cut down to the nodes of `superset`.
    pub fn constrained_by(&self, superset: &HashSet<u64>) -> (o: Self)
        ensures
            o.before() == self.before().intersect(superset@),
            o.after() == self.after().intersect(superset@),
            o.priority() == self.priority(),
    {
        Self {
            assert_before: intersection(&self.assert_before, superset),
            assert_after: intersection(&self.assert_after, superset),
            end_of_chain_priority: self.end_of_chain_priority,
        }
    }

    /// The requests and the priority key, taken apart.
    pub fn into_assert_before_assert_after_priority(self) -> (r: (HashSet<u64>, HashSet<u64>, u64))
        ensures
            r.0@ == self.before(),
            r.1@ == self.after(),
            r.2 == self.priority(),
    {
        let Self { assert_before, assert_after, end_of_chain_priority } = self;
        (assert_before, assert_after, end_of_chain_priority)
    }
}

} // verus!
