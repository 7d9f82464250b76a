use vstd::prelude::*;

use crate::status::{Status, StatusKind};

verus! {

/// What the scheduler tracks for one node of an active execution graph:
/// how many of its dependencies have not completed yet, and its stage.
pub struct ExecutionData {
    dependencies: usize,
    status: Status,
}

impl ExecutionData {
    /// Number of dependencies still outstanding.
    pub closed spec fn remaining(self) -> nat {
        self.dependencies as nat
    }

    /// The stage of the node.
    pub closed spec fn kind(self) -> StatusKind {
        self.status.kind()
    }

    /// Fresh data: `dependency_count` outstanding dependencies, stage `Incomplete`.
    pub fn new(dependency_count: usize) -> (d: Self)
        ensures
            d.remaining() == dependency_count,
            d.kind() == StatusKind::Incomplete,
    {
        Self { dependencies: dependency_count, status: Status::default() }
    }

    /// The status of the node.
    pub fn status(&self) -> (s: &Status)
        ensures
            s.kind() == self.kind(),
    {
        &self.status
    }

    /// Sets the stage as [`Status::replace`] does; the count is untouched.
    pub fn mark_status(&mut self, new_status: StatusKind, expected_current_status: Option<StatusKind>) -> (r:
        Result<StatusKind, StatusKind>)
        ensures
            final(self).remaining() == old(self).remaining(),
            match expected_current_status {
                None => r == Ok::<StatusKind, StatusKind>(old(self).kind()) && final(self).kind()
                    == new_status,
                Some(expected) => if old(self).kind() == expected {
                    r == Ok::<StatusKind, StatusKind>(old(self).kind()) && final(self).kind()
                        == new_status
                } else {
                    r == Err::<StatusKind, StatusKind>(old(self).kind()) && final(self).kind()
                        == old(self).kind()
                },
            },
    {
        self.status.replace(new_status, expected_current_status)
    }

    /// Takes `dependency_count` off the outstanding count when that does not go
    /// below zero, returning `Ok` with the count before; otherwise leaves the count
    /// as it is and returns `Err` with it. The stage is untouched.
    pub fn mark_dependency(&mut self, dependency_count: usize) -> (r: Result<usize, usize>)
        ensures
            final(self).kind() == old(self).kind(),
            if dependency_count <= old(self).remaining() {
                &&& r == Ok::<usize, usize>(old(self).remaining() as usize)
                &&& final(self).remaining() == old(self).remaining() - dependency_count
            } else {
                &&& r == Err::<usize, usize>(old(self).remaining() as usize)
                &&& final(self).remaining() == old(self).remaining()
            },
    {
        let old_dependency_count = self.dependencies;
        match old_dependency_count.checked_sub(dependency_count) {
            Some(new_count) => {
                self.dependencies = new_count;
                Ok(old_dependency_count)
            },
            None => Err(old_dependency_count),
        }
    }

    /// Whether the node is ready to run: it has not completed and no dependency
    /// is outstanding.
    pub fn foo(&self) -> (ready: bool)
        ensures
            ready == (self.kind() != StatusKind::Complete && self.remaining() == 0),
    {
        self.status.get() != StatusKind::Complete && self.dependencies == 0
    }
}

} // verus!
