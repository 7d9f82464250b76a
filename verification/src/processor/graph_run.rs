use vstd::prelude::*;
use std::collections::{HashMap, HashSet};

use crate::execution_graph::active_execution_graph::{lemma_built_graph_never_stuck, ActiveExecutionGraph};
use crate::execution_graph::{acyclic, declared_graph, edges_within, ExecutionGraph};
use crate::processor_ordering::ProcessorOrdering;
use crate::processor::{
    completed, made_pending, system_ran, ExecuteGraph, ExecuteSystemResult, Processor, RunNode, RunSystem,
    SystemRun, TaskOutcome,
};
use crate::status::StatusKind;

verus! {

broadcast use vstd::std_specs::hash::group_hash_axioms;

/// The state of running one execution graph: the graph, the run flag of each
/// system (set while it may be claimed), the result of each system that has
/// completed (`Err` with the payload when it panicked), and the nodes whose systems
/// run on in futures that have not been settled yet.
pub struct GraphRun<R, P> {
    graph: ActiveExecutionGraph,
    flags: HashMap<u64, bool>,
    results: HashMap<u64, Result<R, P>>,
    awaiting: HashSet<u64>,
}

/// The right, taken by [`GraphRun::claim`], to run the system of one node and
/// record what came of it.
pub struct Claim {
    node: u64,
}

impl Claim {
    /// The claimed node.
    pub closed spec fn node(&self) -> u64 {
        self.node
    }

    /// The claimed node.
    pub fn node_id(&self) -> (n: u64)
        ensures
            n == self.node(),
    {
        self.node
    }
}

impl<R, P> GraphRun<R, P> {
    /// The dependencies of each node.
    pub closed spec fn dependencies(&self) -> Map<u64, Set<u64>> {
        self.graph.dependencies()
    }

    /// The stage of each node.
    pub closed spec fn statuses(&self) -> Map<u64, StatusKind> {
        self.graph.statuses()
    }

    /// The run flag of each system.
    pub closed spec fn flags(&self) -> Map<u64, bool> {
        self.flags@
    }

    /// The result of each system that has completed.
    pub closed spec fn results(&self) -> Map<u64, Result<R, P>> {
        self.results@
    }

    /// The nodes whose futures have not been settled.
    pub closed spec fn awaiting(&self) -> Set<u64> {
        self.awaiting@
    }

    /// Node `k` has completed.
    pub open spec fn is_complete(&self, k: u64) -> bool {
        self.statuses().contains_key(k) && self.statuses()[k] == StatusKind::Complete
    }

    /// Node `k` may be claimed now: every one of its dependencies has completed, it
    /// has not, and its flag is set.
    pub open spec fn runnable(&self, k: u64) -> bool {
        &&& self.statuses().contains_key(k)
        &&& self.statuses()[k] != StatusKind::Complete
        &&& forall|d: u64| #[trigger] self.dependencies()[k].contains(d) ==> self.is_complete(d)
        &&& self.flags().contains_key(k)
        &&& self.flags()[k]
    }

    /// Node `k` has been claimed and its run has not been recorded.
    pub open spec fn is_claimed(&self, k: u64) -> bool {
        &&& self.statuses().contains_key(k)
        &&& self.statuses()[k] != StatusKind::Complete
        &&& self.flags().contains_key(k)
        &&& !self.flags()[k]
        &&& !self.awaiting().contains(k)
    }

    /// The graph is well formed; every node has a flag; a set flag belongs to a
    /// node that has not completed; exactly the completed nodes have results; and a
    /// node whose future is awaited is pending and cannot be claimed.
    pub closed spec fn wf(&self) -> bool {
        &&& self.graph.wf()
        &&& self.statuses().dom() <= self.flags().dom()
        &&& forall|k: u64|
            #[trigger] self.flags().contains_key(k) && self.flags()[k]
                && self.statuses().contains_key(k) ==> self.statuses()[k] != StatusKind::Complete
        &&& forall|k: u64|
            #![trigger self.results().contains_key(k)]
            #![trigger self.statuses().contains_key(k)]
            self.results().contains_key(k) <==> self.is_complete(k)
        &&& forall|k: u64|
            #[trigger] self.awaiting().contains(k) ==> {
                &&& self.statuses().contains_key(k)
                &&& self.statuses()[k] == StatusKind::Pending
                &&& !self.flags()[k]
            }
    }

    /// Starts running `graph`, with the run flags `flags`: no node has started, and
    /// there are no results yet.
    pub fn new(graph: ExecutionGraph, flags: HashMap<u64, bool>) -> (run: Self)
        requires
            graph@.dom() <= flags@.dom(),
        ensures
            run.wf(),
            run.dependencies() == graph@,
            run.statuses() == Map::new(|k: u64| graph@.contains_key(k), |k: u64| StatusKind::Incomplete),
            run.flags() == flags@,
            run.results() == Map::<u64, Result<R, P>>::empty(),
            run.awaiting() == Set::<u64>::empty(),
    {
        let active = ActiveExecutionGraph::from(graph);
        let run = GraphRun { graph: active, flags, results: HashMap::new(), awaiting: HashSet::new() };
        proof {
            assert(run.statuses().dom() =~= graph@.dom());
        }
        run
    }

    /// Whether every node has completed.
    pub fn is_finished(&self) -> (r: bool)
        ensures
            r == forall|k: u64| #[trigger] self.statuses().contains_key(k) ==> self.is_complete(k),
    {
        let r = self.graph.is_finished();
        proof {
            if !r {
                let k = choose|k: u64| #[trigger]
                    self.graph.statuses().contains_key(k) && !self.graph.is_complete(k);
                assert(self.statuses().contains_key(k) && !self.is_complete(k));
            }
        }
        r
    }

    /// A node that may be claimed now and is not in `blacklist`, if there is one.
    pub fn next_leaf(&self, blacklist: &HashSet<u64>) -> (leaf: Option<u64>)
        requires
            self.wf(),
        ensures
            leaf matches Some(k) ==> self.runnable(k) && !blacklist@.contains(k),
            leaf is None ==> forall|k: u64| #[trigger] self.runnable(k) ==> blacklist@.contains(k),
    {
        let leaves = self.graph.get_leaves();
        let mut i: usize = 0;
        while i < leaves.len()
            invariant
                self.wf(),
                i <= leaves@.len(),
                forall|j: int|
                    #![trigger leaves@[j]]
                    0 <= j < leaves@.len() ==> self.graph.is_ready(leaves@[j].0),
                forall|k: u64|
                    self.graph.is_ready(k) ==> exists|j: int|
                        0 <= j < leaves@.len() && #[trigger] leaves@[j].0 == k,
                forall|j: int|
                    #![trigger leaves@[j]]
                    0 <= j < i ==> !self.runnable(leaves@[j].0) || blacklist@.contains(leaves@[j].0),
            decreases leaves@.len() - i,
        {
            let (k, _) = leaves[i];
            proof {
                assert(self.graph.is_ready(leaves@[i as int].0));
                assert(self.statuses().contains_key(k));
                assert(self.flags().contains_key(k));
            }
            let flag = match self.flags.get(&k) {
                Some(f) => *f,
                None => false,
            };
            if flag && !blacklist.contains(&k) {
                return Some(k);
            }
            i = i + 1;
        }
        proof {
            assert forall|k: u64| #[trigger] self.runnable(k) implies blacklist@.contains(k) by {
                assert forall|d: u64| #[trigger] self.graph.dependencies()[k].contains(d) implies self.graph.is_complete(d) by {
                    assert(self.dependencies()[k].contains(d));
                }
                assert(self.graph.is_ready(k));
                let j = choose|j: int| 0 <= j < leaves@.len() && #[trigger] leaves@[j].0 == k;
            }
        }
        None
    }

    /// Takes the right to run the system of `node`: a claim on it when its flag
    /// was set, which [`GraphRun::record`] asks for; the flag is cleared either way.
    pub fn claim(&mut self, node: u64) -> (claim: Option<Claim>)
        requires
            old(self).wf(),
            old(self).statuses().contains_key(node),
        ensures
            final(self).wf(),
            claim is Some == old(self).flags()[node],
            claim matches Some(c) ==> c.node() == node,
            final(self).flags() == old(self).flags().insert(node, false),
            final(self).dependencies() == old(self).dependencies(),
            final(self).statuses() == old(self).statuses(),
            final(self).results() == old(self).results(),
            final(self).awaiting() == old(self).awaiting(),
            claim is Some ==> final(self).is_claimed(node),
    {
        let mut flag = match self.flags.get(&node) {
            Some(f) => *f,
            None => false,
        };
        let claimed = Processor::<RunSystem>::claim(&mut flag);
        let ghost flags0 = self.flags@;
        self.flags.insert(node, flag);
        proof {
            assert(self.graph == old(self).graph);
            assert(self.awaiting == old(self).awaiting);
            assert forall|k: u64| #[trigger] self.awaiting().contains(k) implies {
                &&& self.statuses().contains_key(k)
                &&& self.statuses()[k] == StatusKind::Pending
                &&& !self.flags()[k]
            } by {
                assert(old(self).awaiting().contains(k));
                if k != node {
                    assert(self.flags()[k] == flags0[k]);
                }
            }
            if claimed {
                assert(old(self).flags().contains_key(node) && old(self).flags()[node]);
                assert(old(self).statuses()[node] != StatusKind::Complete);
                assert(!old(self).awaiting().contains(node));
                assert(self.is_claimed(node));
            }
        }
        if claimed {
            Some(Claim { node })
        } else {
            None
        }
    }

    /// What recording the run `run` of the claimed system of `node` does, from
    /// `before` to `after`, handing back `task`: a result or a panic completes the
    /// node and is kept as its result; a spawned future makes the node pending and
    /// awaited and is handed back; after an error, or when the system could not be
    /// resolved, its flag is set again; when another runner had taken it, nothing
    /// changes.
    pub open spec fn recorded<F>(before: Self, after: Self, node: u64, run: SystemRun<R, F, P>, task: Option<F>) -> bool {
        &&& after.dependencies() == before.dependencies()
        &&& match run {
            SystemRun::Finished(result) => {
                &&& task is None
                &&& after.statuses() == completed(before.statuses(), node)
                &&& after.results() == before.results().insert(node, Ok::<R, P>(result))
                &&& after.flags() == before.flags()
                &&& after.awaiting() == before.awaiting()
            },
            SystemRun::Panicked(payload) => {
                &&& task is None
                &&& after.statuses() == completed(before.statuses(), node)
                &&& after.results() == before.results().insert(node, Err::<R, P>(payload))
                &&& after.flags() == before.flags()
                &&& after.awaiting() == before.awaiting()
            },
            SystemRun::Spawned(future) => {
                &&& task == Some(future)
                &&& after.statuses() == made_pending(before.statuses(), node)
                &&& after.statuses()[node] == StatusKind::Pending
                &&& after.results() == before.results()
                &&& after.flags() == before.flags()
                &&& after.awaiting() == before.awaiting().insert(node)
            },
            SystemRun::Taken => {
                &&& task is None
                &&& after.statuses() == before.statuses()
                &&& after.results() == before.results()
                &&& after.flags() == before.flags()
                &&& after.awaiting() == before.awaiting()
            },
            _ => {
                &&& task is None
                &&& after.statuses() == before.statuses()
                &&& after.results() == before.results()
                &&& after.flags() == before.flags().insert(node, true)
                &&& after.awaiting() == before.awaiting()
            },
        }
    }

    /// Records what the run of the system of the node claimed by `claim` came to,
    /// and hands back the future that runs it on, if it was spawned (see
    /// [`GraphRun::recorded`]).
    pub fn record<F>(&mut self, claim: Claim, run: SystemRun<R, F, P>) -> (task: Option<F>)
        requires
            old(self).wf(),
            old(self).is_claimed(claim.node()),
        ensures
            final(self).wf(),
            !old(self).results().contains_key(claim.node()),
            Self::recorded(*old(self), *final(self), claim.node(), run, task),
    {
        let node = claim.node;
        let mut flag = false;
        let result = Processor::<RunSystem>::hand_on(&mut flag, run);
        let result = Processor::<RunNode>::run_node(&mut self.graph, node, result);
        match result {
            Some(ExecuteSystemResult::Final(r)) => {
                self.results.insert(node, Ok(r));
                None
            },
            Some(ExecuteSystemResult::Panicked(p)) => {
                self.results.insert(node, Err(p));
                None
            },
            Some(ExecuteSystemResult::Pending(future)) => {
                self.awaiting.insert(node);
                Some(future)
            },
            None => {
                if flag {
                    self.flags.insert(node, true);
                }
                None
            },
        }
    }

    /// Claims `node` and, only when the claim succeeds, runs its system with `run`
    /// and records what that came to. A node whose flag is clear is not run: nothing
    /// changes, and no result comes of it.
    pub fn claim_and_run<F, Run: FnOnce() -> SystemRun<R, F, P>>(&mut self, node: u64, run: Run) -> (task:
        Option<F>)
        requires
            old(self).wf(),
            old(self).statuses().contains_key(node),
            old(self).flags()[node] ==> run.requires(()),
        ensures
            final(self).wf(),
            !old(self).flags()[node] ==> {
                &&& task is None
                &&& final(self).dependencies() == old(self).dependencies()
                &&& final(self).statuses() == old(self).statuses()
                &&& final(self).results() == old(self).results()
                &&& final(self).flags() == old(self).flags()
                &&& final(self).awaiting() == old(self).awaiting()
            },
            old(self).flags()[node] ==> exists|mid: Self, out: SystemRun<R, F, P>|
                #![trigger Self::recorded(mid, *final(self), node, out, task)]
                {
                    &&& mid.dependencies() == old(self).dependencies()
                    &&& mid.statuses() == old(self).statuses()
                    &&& mid.results() == old(self).results()
                    &&& mid.awaiting() == old(self).awaiting()
                    &&& mid.flags() == old(self).flags().insert(node, false)
                    &&& run.ensures((), out)
                    &&& Self::recorded(mid, *final(self), node, out, task)
                },
    {
        match self.claim(node) {
            Some(claim) => {
                let ghost mid = *self;
                let out = run();
                let ghost o = out;
                let task = self.record(claim, out);
                proof {
                    assert(Self::recorded(mid, *self, node, o, task));
                }
                task
            },
            None => {
                proof {
                    assert(self.flags() =~= old(self).flags());
                }
                None
            },
        }
    }

    /// Whether the future of `node` is awaited.
    pub fn is_awaiting(&self, node: u64) -> (r: bool)
        ensures
            r == self.awaiting().contains(node),
    {
        self.awaiting.contains(&node)
    }

    /// Records what the awaited future of `node` came to. A result or a panic
    /// completes the node and is kept as its result; after an error the node's
    /// flag is set again, so that its system is run again.
    pub fn settle(&mut self, node: u64, outcome: TaskOutcome<R, P>)
        requires
            old(self).wf(),
            old(self).awaiting().contains(node),
        ensures
            final(self).wf(),
            final(self).dependencies() == old(self).dependencies(),
            final(self).awaiting() == old(self).awaiting().remove(node),
            !old(self).results().contains_key(node),
            match outcome {
                TaskOutcome::Finished(result) => {
                    &&& final(self).statuses() == completed(old(self).statuses(), node)
                    &&& final(self).results() == old(self).results().insert(node, Ok::<R, P>(result))
                    &&& final(self).flags() == old(self).flags()
                },
                TaskOutcome::Panicked(payload) => {
                    &&& final(self).statuses() == completed(old(self).statuses(), node)
                    &&& final(self).results() == old(self).results().insert(node, Err::<R, P>(payload))
                    &&& final(self).flags() == old(self).flags()
                },
                TaskOutcome::Failed => {
                    &&& final(self).statuses() == old(self).statuses()
                    &&& final(self).results() == old(self).results()
                    &&& final(self).flags() == old(self).flags().insert(node, true)
                },
            },
    {
        self.awaiting.remove(&node);
        let mut flag = false;
        let kept = Processor::<ExecuteGraph>::settle_task(&mut self.graph, &mut flag, node, outcome);
        match kept {
            Some(result) => {
                self.results.insert(node, result);
            },
            None => {
                self.flags.insert(node, true);
            },
        }
    }

    /// In every state that the operations above reach: a system has a result
    /// exactly when its node has completed, so no result is ever overwritten and
    /// none is missing; a completed system can never be claimed again; and a system
    /// whose future is awaited is pending and cannot be claimed.
    pub proof fn lemma_run_invariant(&self)
        requires
            self.wf(),
        ensures
            forall|k: u64| #[trigger] self.results().contains_key(k) <==> self.is_complete(k),
            forall|k: u64|
                #[trigger] self.is_complete(k) ==> self.flags().contains_key(k) && !self.flags()[k],
            forall|k: u64|
                #[trigger] self.awaiting().contains(k) ==> self.statuses()[k] == StatusKind::Pending
                    && self.flags().contains_key(k) && !self.flags()[k],
    {
        assert forall|k: u64| #[trigger] self.results().contains_key(k) <==> self.is_complete(k) by {
            assert(self.statuses().contains_key(k) ==> (self.results().contains_key(k) <==> self.is_complete(k)));
        }
    }

    /// A run of a graph built from orderings (see [`ExecutionGraph::new`]) is never
    /// stuck: while some node has not completed, some node whose dependencies have
    /// all completed can be claimed, or has its future awaited, or has been claimed
    /// and waits for its run to be recorded.
    pub proof fn lemma_run_never_stuck(&self, input: Seq<(u64, ProcessorOrdering)>, u: u64)
        requires
            self.wf(),
            edges_within(self.dependencies(), declared_graph(input)),
            acyclic(self.dependencies()),
            self.statuses().contains_key(u),
            !self.is_complete(u),
        ensures
            exists|k: u64|
                #![trigger self.statuses()[k]]
                self.runnable(k) || self.awaiting().contains(k) || self.is_claimed(k),
    {
        lemma_built_graph_never_stuck(input, self.dependencies(), self.graph, u);
        let k = choose|k: u64| #[trigger] self.graph.is_ready(k);
        assert forall|d: u64| #[trigger] self.dependencies()[k].contains(d) implies self.is_complete(d) by {
            assert(self.graph.dependencies()[k].contains(d));
        }
        assert(self.flags().contains_key(k));
        if self.flags()[k] {
            assert(self.runnable(k));
        } else if !self.awaiting().contains(k) {
            assert(self.is_claimed(k));
        }
        assert(self.runnable(k) || self.awaiting().contains(k) || self.is_claimed(k));
    }

    /// The results of the systems that completed.
    pub fn into_results(self) -> (results: HashMap<u64, Result<R, P>>)
        ensures
            results@ == self.results(),
    {
        self.results
    }
}

} // verus!
