use vstd::prelude::*;
use std::collections::HashSet;
use vstd::std_specs::iter::IteratorSpec;

verus! {

broadcast use vstd::std_specs::hash::group_hash_axioms;

/// What a system hands back when it finishes: the events it spawns, named by id,
/// and whether it asks to be removed.
pub struct SystemResult {
    spawn_events: HashSet<u64>,
    remove_self: bool,
}

impl SystemResult {
    /// The ids of the events to spawn.
    pub closed spec fn events(&self) -> Set<u64> {
        self.spawn_events@
    }

    /// Whether the system asks to be removed.
    pub closed spec fn removes_self(&self) -> bool {
        self.remove_self
    }

    /// A result with the given events and removal request.
    pub fn new(spawn_events: HashSet<u64>, remove_self: bool) -> (r: Self)
        ensures
            r.events() == spawn_events@,
            r.removes_self() == remove_self,
    {
        Self { spawn_events, remove_self }
    }

    /// Adds one event to spawn.
    pub fn with_event(&mut self, event: u64)
        ensures
            final(self).events() == old(self).events().insert(event),
            final(self).removes_self() == old(self).removes_self(),
    {
        self.spawn_events.insert(event);
    }

    /// Adds every event of `events` to spawn.
    pub fn with_events(&mut self, events: Vec<u64>)
        ensures
            final(self).events() == old(self).events().union(events@.to_set()),
            final(self).removes_self() == old(self).removes_self(),
    {
        let ghost start = self.spawn_events@;
        for event in it: events.into_iter()
            invariant
                it.seq() == events@,
                self.spawn_events@ == start.union(events@.take(it.index()).to_set()),
                self.remove_self == old(self).remove_self,
                start == old(self).spawn_events@,
        {
            let ghost idx = it.index();
            proof {
                assert(events@[idx] == event);
                assert(events@.take(idx + 1) == events@.take(idx).push(event));
                events@.take(idx).lemma_push_to_set_commute(event);
            }
            self.spawn_events.insert(event);
            proof {
                assert(self.spawn_events@ =~= start.union(events@.take(idx + 1).to_set()));
            }
        }
        proof {
            assert(events@.take(events@.len() as int) == events@);
        }
    }

    /// The ids of the events to spawn.
    pub fn spawn_events(&self) -> (e: &HashSet<u64>)
        ensures
            e@ == self.events(),
    {
        &self.spawn_events
    }

    /// Whether the system asks to be removed.
    pub fn remove_self(&self) -> (r: bool)
        ensures
            r == self.removes_self(),
    {
        self.remove_self
    }

    /// Sets whether the system asks to be removed.
    pub fn with_self_as(&mut self, remove_self: bool)
        ensures
            final(self).events() == old(self).events(),
            final(self).removes_self() == remove_self,
    {
        self.remove_self = remove_self
    }
}

impl Default for SystemResult {
    fn default() -> (r: Self)
        ensures
            r.events() == Set::<u64>::empty(),
            !r.removes_self(),
    {
        Self::new(HashSet::new(), false)
    }
}

/// Builds a [`SystemResult`] step by step.
pub struct SystemResultBuilder {
    current_system_result: SystemResult,
}

impl SystemResultBuilder {
    /// The result built so far.
    pub closed spec fn result(&self) -> SystemResult {
        self.current_system_result
    }

    /// Adds one event to spawn.
    pub fn with_event(self, event: u64) -> (b: Self)
        ensures
            b.result().events() == self.result().events().insert(event),
            b.result().removes_self() == self.result().removes_self(),
    {
        let mut builder = self;
        builder.current_system_result.with_event(event);
        builder
    }

    /// Adds every event of `events` to spawn.
    pub fn with_events(self, events: Vec<u64>) -> (b: Self)
        ensures
            b.result().events() == self.result().events().union(events@.to_set()),
            b.result().removes_self() == self.result().removes_self(),
    {
        let mut builder = self;
        builder.current_system_result.with_events(events);
        builder
    }

    /// Asks for the system to be removed.
    pub fn without_self(self) -> (b: Self)
        ensures
            b.result().events() == self.result().events(),
            b.result().removes_self(),
    {
        let mut builder = self;
        builder.current_system_result.with_self_as(true);
        builder
    }

    /// The result built.
    pub fn build(self) -> (r: SystemResult)
        ensures
            r == self.result(),
    {
        self.current_system_result
    }

    /// Asks for the system to be kept.
    pub fn with_self(self) -> (b: Self)
        ensures
            b.result().events() == self.result().events(),
            !b.result().removes_self(),
    {
        let mut builder = self;
        builder.current_system_result.with_self_as(false);
        builder
    }
}

impl Default for SystemResultBuilder {
    fn default() -> (b: Self)
        ensures
            b.result().events() == Set::<u64>::empty(),
            !b.result().removes_self(),
    {
        Self { current_system_result: SystemResult::default() }
    }
}

} // verus!
