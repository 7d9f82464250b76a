use vstd::prelude::*;

verus! {

/// Blocks the systems that use one resource, named by its id.
pub struct SystemBlocker {
    blocks: u64,
}

impl SystemBlocker {
    /// The id of the blocked resource.
    pub closed spec fn blocked(&self) -> u64 {
        self.blocks
    }

    /// A blocker of the resource `blocks`.
    pub fn new(blocks: u64) -> (b: Self)
        ensures
            b.blocked() == blocks,
    {
        Self { blocks }
    }

    /// Whether this blocker blocks `resource_id`.
    pub fn blocks(&self, resource_id: &u64) -> (r: bool)
        ensures
            r == (self.blocked() == *resource_id),
    {
        self.blocks == *resource_id
    }
}

/// The blockers in force.
pub struct CurrentSystemBlockers {
    blockers: Vec<SystemBlocker>,
}

impl CurrentSystemBlockers {
    /// The ids of the blocked resources.
    pub closed spec fn blocked(&self) -> Set<u64> {
        Set::new(|r: u64| exists|i: int| 0 <= i < self.blockers@.len() && #[trigger] self.blockers@[i].blocked() == r)
    }

    /// The blockers `blockers` in force.
    pub fn new(blockers: Vec<SystemBlocker>) -> (c: Self)
        ensures
            forall|r: u64| c.blocked().contains(r) <==> exists|i: int|
                0 <= i < blockers@.len() && #[trigger] blockers@[i].blocked() == r,
    {
        Self { blockers }
    }

    /// Whether some blocker in force blocks `resource_id`.
    pub fn blocks(&self, resource_id: &u64) -> (r: bool)
        ensures
            r == self.blocked().contains(*resource_id),
    {
        let mut i: usize = 0;
        while i < self.blockers.len()
            invariant
                i <= self.blockers@.len(),
                forall|j: int| 0 <= j < i ==> #[trigger] self.blockers@[j].blocked() != *resource_id,
            decreases self.blockers@.len() - i,
        {
            if self.blockers[i].blocks(resource_id) {
                proof {
                    assert(self.blockers@[i as int].blocked() == *resource_id);
                }
                return true;
            }
            i = i + 1;
        }
        false
    }
}

} // verus!
