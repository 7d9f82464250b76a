use vstd::prelude::*;
use std::collections::HashMap;
use vstd::std_specs::iter::IteratorSpec;

use crate::execution_data::ExecutionData;
use crate::execution_graph::{acyclic, declared_graph, edges_within, has_edge, is_cycle, ExecutionGraph};
use crate::processor_ordering::ProcessorOrdering;
use crate::node_map::NodeMap;
use crate::status::StatusKind;

verus! {

broadcast use vstd::std_specs::hash::group_hash_axioms;

/// The dependencies in `deps` that have not completed according to `statuses`.
pub open spec fn outstanding_in(deps: Set<u64>, statuses: Map<u64, StatusKind>) -> Set<u64> {
    deps.filter(|d: u64| !(statuses.contains_key(d) && statuses[d] == StatusKind::Complete))
}

/// Completing `t`, which had not completed, takes it out of every set of
/// outstanding dependencies that held it, and nothing else.
proof fn lemma_outstanding_after_completion(deps: Set<u64>, before: Map<u64, StatusKind>, t: u64)
    requires
        deps.finite(),
        before.contains_key(t),
        before[t] != StatusKind::Complete,
    ensures
        outstanding_in(deps, before).finite(),
        outstanding_in(deps, before.insert(t, StatusKind::Complete)).finite(),
        outstanding_in(deps, before).len() == outstanding_in(
            deps,
            before.insert(t, StatusKind::Complete),
        ).len() + if deps.contains(t) {
            1int
        } else {
            0int
        },
{
    let after = before.insert(t, StatusKind::Complete);
    let o1 = outstanding_in(deps, before);
    let o2 = outstanding_in(deps, after);
    deps.lemma_len_filter(|d: u64| !(before.contains_key(d) && before[d] == StatusKind::Complete));
    deps.lemma_len_filter(|d: u64| !(after.contains_key(d) && after[d] == StatusKind::Complete));
    if deps.contains(t) {
        assert(o2 =~= o1.remove(t));
        assert(o1.contains(t));
    } else {
        assert(o2 =~= o1);
    }
}

/// An execution graph being run: its dependencies, and for each node its stage and
/// how many of its dependencies have not completed.
pub struct ActiveExecutionGraph {
    nodes: NodeMap,
    currently_executing: HashMap<u64, ExecutionData>,
}

impl ActiveExecutionGraph {
    /// The dependencies of each node.
    pub closed spec fn dependencies(&self) -> Map<u64, Set<u64>> {
        self.nodes@
    }

    /// The stage of each node.
    pub closed spec fn statuses(&self) -> Map<u64, StatusKind> {
        Map::new(
            |k: u64| self.currently_executing@.contains_key(k),
            |k: u64| self.currently_executing@[k].kind(),
        )
    }

    /// Node `d` has completed.
    pub open spec fn is_complete(&self, d: u64) -> bool {
        self.statuses().contains_key(d) && self.statuses()[d] == StatusKind::Complete
    }

    /// Node `k` may run: it has not completed, and every one of its dependencies has.
    pub open spec fn is_ready(&self, k: u64) -> bool {
        &&& self.statuses().contains_key(k)
        &&& self.statuses()[k] != StatusKind::Complete
        &&& forall|d: u64| #[trigger] self.dependencies()[k].contains(d) ==> self.is_complete(d)
    }

    /// Every node has its data, its dependencies are finitely many, and its count is
    /// the number of them that have not completed.
    pub closed spec fn wf(&self) -> bool {
        &&& self.currently_executing@.dom() == self.nodes@.dom()
        &&& forall|k: u64|
            #[trigger] self.nodes@.contains_key(k) ==> {
                &&& self.nodes@[k].finite()
                &&& self.currently_executing@[k].remaining() == outstanding_in(
                    self.nodes@[k],
                    self.statuses(),
                ).len()
            }
    }

    /// Starts running `value`: every node `Incomplete`, counting all its dependencies.
    pub fn from(value: ExecutionGraph) -> (g: Self)
        ensures
            g.wf(),
            g.dependencies() == value@,
            g.statuses() == Map::new(|k: u64| value@.contains_key(k), |k: u64| StatusKind::Incomplete),
    {
        let nodes = value.nodes;
        let flow = nodes.create_execution_flow();
        let ghost ids = flow@.map_values(|e: (u64, ExecutionData)| e.0);
        let mut currently_executing: HashMap<u64, ExecutionData> = HashMap::new();
        for item in it: flow.into_iter()
            invariant
                it.seq() == flow@,
                ids == flow@.map_values(|e: (u64, ExecutionData)| e.0),
                ids.no_duplicates(),
                forall|k: u64|
                    #[trigger] currently_executing@.contains_key(k) <==> exists|i: int|
                        0 <= i < it.index() && flow@[i].0 == k,
                forall|i: int|
                    0 <= i < it.index() ==> currently_executing@.contains_key(#[trigger] flow@[i].0)
                        && currently_executing@[flow@[i].0] == flow@[i].1,
        {
            let ghost idx = it.index();
            proof {
                assert(flow@[idx] == item);
            }
            let (data, execution_data) = item;
            currently_executing.insert(data, execution_data);
            proof {
                assert forall|i: int|
                    0 <= i < idx + 1 implies currently_executing@.contains_key(#[trigger] flow@[i].0)
                        && currently_executing@[flow@[i].0] == flow@[i].1 by {
                    if i < idx {
                        assert(ids[i] != ids[idx]);
                    }
                }
                assert forall|k: u64|
                    #[trigger] currently_executing@.contains_key(k) <==> exists|i: int|
                        0 <= i < idx + 1 && flow@[i].0 == k by {
                    if k != data && (exists|i: int| 0 <= i < idx + 1 && flow@[i].0 == k) {
                        let i = choose|i: int| 0 <= i < idx + 1 && flow@[i].0 == k;
                        assert(i < idx);
                    }
                    if k == data {
                        assert(flow@[idx].0 == k);
                    }
                }
            }
        }
        let g = Self { nodes, currently_executing };
        proof {
            assert(g.currently_executing@.dom() =~= g.nodes@.dom());
            assert(g.statuses() =~= Map::new(|k: u64| value@.contains_key(k), |k: u64| StatusKind::Incomplete))
                by {
                assert forall|k: u64| #[trigger] g.currently_executing@.contains_key(k) implies g.currently_executing@[k].kind()
                    == StatusKind::Incomplete by {
                    let i = choose|i: int| 0 <= i < flow@.len() && flow@[i].0 == k;
                }
            }
            assert forall|k: u64| #[trigger] g.nodes@.contains_key(k) implies {
                &&& g.nodes@[k].finite()
                &&& g.currently_executing@[k].remaining() == outstanding_in(g.nodes@[k], g.statuses()).len()
            } by {
                let i = choose|i: int| 0 <= i < flow@.len() && flow@[i].0 == k;
                assert(outstanding_in(g.nodes@[k], g.statuses()) =~= g.nodes@[k]);
            }
        }
        g
    }

    /// Under well-formedness, a node may run exactly when its data says that it has
    /// not completed and has no dependency outstanding.
    proof fn lemma_ready_by_count(&self, k: u64)
        requires
            self.wf(),
            self.currently_executing@.contains_key(k),
        ensures
            self.is_ready(k) <==> (self.currently_executing@[k].kind() != StatusKind::Complete
                && self.currently_executing@[k].remaining() == 0),
    {
        assert(self.nodes@.contains_key(k));
        let o = outstanding_in(self.nodes@[k], self.statuses());
        self.nodes@[k].lemma_len_filter(
            |d: u64| !(self.statuses().contains_key(d) && self.statuses()[d] == StatusKind::Complete),
        );
        assert(self.statuses()[k] == self.currently_executing@[k].kind());
        if o.len() == 0 {
            assert(o =~= Set::empty());
            assert forall|d: u64| #[trigger] self.dependencies()[k].contains(d) implies self.is_complete(d) by {
                if !self.is_complete(d) {
                    assert(o.contains(d));
                }
            }
        } else {
            assert(!o.is_empty());
            let d = o.choose();
            assert(o.contains(d));
            assert(self.dependencies()[k].contains(d));
            assert(!self.is_complete(d));
        }
    }

    /// The nodes that may run now (see [`ActiveExecutionGraph::is_ready`]), each
    /// once, with its stage.
    pub fn get_leaves(&self) -> (leaves: Vec<(u64, StatusKind)>)
        requires
            self.wf(),
        ensures
            leaves@.map_values(|e: (u64, StatusKind)| e.0).no_duplicates(),
            forall|i: int|
                #![trigger leaves@[i]]
                0 <= i < leaves@.len() ==> self.is_ready(leaves@[i].0) && leaves@[i].1 == self.statuses()[leaves@[i].0],
            forall|k: u64| self.is_ready(k) ==> exists|i: int| 0 <= i < leaves@.len() && #[trigger] leaves@[i].0 == k,
    {
        proof {
            assert forall|k: u64| #[trigger] self.currently_executing@.contains_key(k) implies (self.is_ready(k) <==> (
                self.currently_executing@[k].kind() != StatusKind::Complete
                    && self.currently_executing@[k].remaining() == 0)) by {
                self.lemma_ready_by_count(k);
            }
        }
        let ghost pairs = vstd::std_specs::hash::spec_hash_map_iter(&self.currently_executing).remaining();
        let mut leaves: Vec<(u64, StatusKind)> = Vec::new();
        let ghost mut seen_ids: Set<u64> = Set::empty();
        let ghost mut count: int = 0;
        for item in it: self.currently_executing.iter()
            invariant
                it.seq() == pairs,
                count == it.index(),
                0 <= count <= pairs.len(),
                forall|j: int| 0 <= j < count ==> seen_ids.contains(*(#[trigger] pairs[j]).0),
                pairs == vstd::std_specs::hash::spec_hash_map_iter(&self.currently_executing).remaining(),
                pairs.no_duplicates(),
                forall|k: u64| #[trigger] self.currently_executing@.contains_key(k) ==> (self.is_ready(k) <==> (
                    self.currently_executing@[k].kind() != StatusKind::Complete
                        && self.currently_executing@[k].remaining() == 0)),
                forall|i: int|
                    #![trigger leaves@[i]]
                    0 <= i < leaves@.len() ==> self.is_ready(leaves@[i].0) && leaves@[i].1
                        == self.statuses()[leaves@[i].0] && seen_ids.contains(leaves@[i].0),
                forall|k: u64|
                    #[trigger] seen_ids.contains(k) && self.is_ready(k) ==> exists|i: int|
                        0 <= i < leaves@.len() && #[trigger] leaves@[i].0 == k,
                forall|j: int| it.index() <= j < pairs.len() ==> !seen_ids.contains(*(#[trigger] pairs[j]).0),
                forall|k: u64| #[trigger] seen_ids.contains(k) ==> self.currently_executing@.contains_key(k),
                leaves@.map_values(|e: (u64, StatusKind)| e.0).no_duplicates(),
        {
            let ghost idx = it.index();
            let ghost before = leaves@;
            let (data, execution_data) = item;
            proof {
                assert(pairs[idx] == item);
                assert(self.currently_executing@.contains_key(*data));
                assert(self.currently_executing@[*data] == *execution_data);
                assert(!seen_ids.contains(*data));
            }
            if execution_data.foo() {
                let kind = execution_data.status().get();
                leaves.push((*data, kind));
                proof {
                    let ids = leaves@.map_values(|e: (u64, StatusKind)| e.0);
                    let ids0 = before.map_values(|e: (u64, StatusKind)| e.0);
                    assert(ids =~= ids0.push(*data));
                    assert forall|a: int, b: int| 0 <= a < ids.len() && 0 <= b < ids.len() && a != b implies ids[a]
                        != ids[b] by {
                        if a < before.len() && b < before.len() {
                            assert(ids0[a] != ids0[b]);
                        } else if a < before.len() {
                            assert(seen_ids.contains(before[a].0));
                        } else {
                            assert(seen_ids.contains(before[b].0));
                        }
                    }
                }
            }
            proof {
                let old_seen = seen_ids;
                seen_ids = seen_ids.insert(*data);
                count = count + 1;
                assert forall|i: int|
                    #![trigger leaves@[i]]
                    0 <= i < leaves@.len() implies self.is_ready(leaves@[i].0) && leaves@[i].1
                        == self.statuses()[leaves@[i].0] && seen_ids.contains(leaves@[i].0) by {
                    if i < before.len() {
                        assert(leaves@[i] == before[i]);
                    }
                }
                assert forall|k: u64|
                    #[trigger] seen_ids.contains(k) && self.is_ready(k) implies exists|i: int|
                        0 <= i < leaves@.len() && #[trigger] leaves@[i].0 == k by {
                    if k == *data {
                        assert(leaves@[before.len() as int].0 == k);
                    } else {
                        assert(old_seen.contains(k));
                        let i = choose|i: int| 0 <= i < before.len() && #[trigger] before[i].0 == k;
                        assert(leaves@[i] == before[i]);
                    }
                }
                assert forall|j: int| idx + 1 <= j < pairs.len() implies !seen_ids.contains(*(#[trigger] pairs[j]).0) by {
                    assert(pairs[j] != pairs[idx]);
                    if *pairs[j].0 == *data {
                        assert(*pairs[j].1 == self.currently_executing@[*data]);
                    }
                }
            }
        }
        proof {
            assert forall|k: u64| self.is_ready(k) implies exists|i: int|
                0 <= i < leaves@.len() && #[trigger] leaves@[i].0 == k by {
                assert(self.currently_executing@.contains_key(k));
                assert(pairs.contains((&k, &self.currently_executing@[k])));
                let j = choose|j: int| 0 <= j < pairs.len() && pairs[j] == (&k, &self.currently_executing@[k]);
                assert(*pairs[j].0 == k);
                assert(count == pairs.len());
                assert(seen_ids.contains(k));
            }
        }
        leaves
    }

    /// Every node has completed.
    pub open spec fn finished(&self) -> bool {
        forall|k: u64| #[trigger] self.statuses().contains_key(k) ==> self.is_complete(k)
    }

    /// Whether every node has completed.
    pub fn is_finished(&self) -> (r: bool)
        ensures
            r == self.finished(),
    {
        let ghost pairs = vstd::std_specs::hash::spec_hash_map_iter(&self.currently_executing).remaining();
        for item in it: self.currently_executing.iter()
            invariant
                it.seq() == pairs,
                pairs == vstd::std_specs::hash::spec_hash_map_iter(&self.currently_executing).remaining(),
                forall|j: int|
                    0 <= j < it.index() ==> (#[trigger] pairs[j]).1.kind() == StatusKind::Complete,
        {
            let ghost idx = it.index();
            proof {
                assert(pairs[idx] == item);
            }
            let (data, execution_data) = item;
            if execution_data.status().get() != StatusKind::Complete {
                proof {
                    assert(self.currently_executing@.contains_key(*data));
                    assert(self.currently_executing@[*data] == *execution_data);
                    assert(self.statuses().contains_key(*data));
                    assert(!self.is_complete(*data));
                }
                return false;
            }
        }
        proof {
            assert forall|k: u64| #[trigger] self.statuses().contains_key(k) implies self.is_complete(k) by {
                assert(self.currently_executing@.contains_key(k));
                assert(pairs.contains((&k, &self.currently_executing@[k])));
                let j = choose|j: int| 0 <= j < pairs.len() && pairs[j] == (&k, &self.currently_executing@[k]);
                assert(pairs[j].1.kind() == StatusKind::Complete);
            }
        }
        true
    }

    /// Sets the stage of `target`. `None` when there is no such node (nothing
    /// changes). Marking `Pending` succeeds only from `Incomplete` (`Err` with the
    /// current stage otherwise, and nothing changes). Marking `Complete` always
    /// succeeds with the stage before; the first time, it also takes `target` off the
    /// outstanding dependencies of every node that depends on it.
    pub fn mark_status(&mut self, target: u64, new_status: StatusKind) -> (r: Option<
        Result<StatusKind, StatusKind>,
    >)
        requires
            old(self).wf(),
            new_status != StatusKind::Incomplete,
        ensures
            final(self).wf(),
            final(self).dependencies() == old(self).dependencies(),
            !old(self).statuses().contains_key(target) ==> r is None && final(self).statuses() == old(
                self,
            ).statuses(),
            old(self).statuses().contains_key(target) ==> ({
                let before = old(self).statuses()[target];
                if new_status == StatusKind::Pending {
                    if before == StatusKind::Incomplete {
                        &&& r == Some(Ok::<StatusKind, StatusKind>(StatusKind::Incomplete))
                        &&& final(self).statuses() == old(self).statuses().insert(
                            target,
                            StatusKind::Pending,
                        )
                    } else {
                        &&& r == Some(Err::<StatusKind, StatusKind>(before))
                        &&& final(self).statuses() == old(self).statuses()
                    }
                } else {
                    &&& r == Some(Ok::<StatusKind, StatusKind>(before))
                    &&& final(self).statuses() == old(self).statuses().insert(
                        target,
                        StatusKind::Complete,
                    )
                }
            }),
    {
        let ghost s1 = self.statuses();
        let ghost exec0 = self.currently_executing@;
        match new_status {
            StatusKind::Incomplete => None,
            StatusKind::Pending => {
                let mut data = match self.currently_executing.remove(&target) {
                    Some(d) => d,
                    None => {
                        proof {
                            assert(!exec0.contains_key(target));
                            assert(self.currently_executing@ == exec0);
                        }
                        return None;
                    },
                };
                let r = data.mark_status(StatusKind::Pending, Some(StatusKind::Incomplete));
                self.currently_executing.insert(target, data);
                proof {
                    assert(self.currently_executing@.dom() =~= exec0.dom());
                    let s2 = self.statuses();
                    if s1[target] == StatusKind::Incomplete {
                        assert(s2 =~= s1.insert(target, StatusKind::Pending));
                    } else {
                        assert(s2 =~= s1);
                    }
                    assert forall|k: u64| #[trigger] self.nodes@.contains_key(k) implies {
                        &&& self.nodes@[k].finite()
                        &&& self.currently_executing@[k].remaining() == outstanding_in(
                            self.nodes@[k],
                            self.statuses(),
                        ).len()
                    } by {
                        assert(outstanding_in(self.nodes@[k], s2) =~= outstanding_in(self.nodes@[k], s1));
                    }
                }
                Some(r)
            },
            StatusKind::Complete => {
                let mut data = match self.currently_executing.remove(&target) {
                    Some(d) => d,
                    None => {
                        proof {
                            assert(self.currently_executing@ == exec0);
                        }
                        return None;
                    },
                };
                let marked = data.mark_status(StatusKind::Complete, None);
                let old_status = match marked {
                    Ok(s) => s,
                    Err(s) => s,
                };
                self.currently_executing.insert(target, data);
                let ghost s2 = self.statuses();
                proof {
                    assert(self.currently_executing@.dom() =~= exec0.dom());
                    assert(s2 =~= s1.insert(target, StatusKind::Complete));
                }
                if old_status == StatusKind::Complete {
                    proof {
                        assert(s2 =~= s1);
                    }
                    return Some(Ok(old_status));
                }
                let dependents = self.nodes.find_all_dependent(target);
                proof {
                    assert forall|k: u64| #[trigger] self.nodes@.contains_key(k) implies {
                        &&& self.nodes@[k].finite()
                        &&& self.currently_executing@[k].remaining() == outstanding_in(self.nodes@[k], s2).len()
                            + if self.nodes@[k].contains(target) && !dependents@.take(0).contains(k) {
                            1int
                        } else {
                            0int
                        }
                    } by {
                        lemma_outstanding_after_completion(self.nodes@[k], s1, target);
                    }
                }
                let mut idx: usize = 0;
                while idx < dependents.len()
                    invariant
                        idx <= dependents@.len(),
                        dependents@.no_duplicates(),
                        forall|x: u64|
                            #![trigger dependents@.contains(x)]
                            dependents@.contains(x) <==> self.nodes@.contains_key(x) && self.nodes@[x].contains(
                                target,
                            ),
                        self.currently_executing@.dom() == self.nodes@.dom(),
                        self.statuses() == s2,
                        self.nodes@ == old(self).nodes@,
                        forall|k: u64| #[trigger] self.nodes@.contains_key(k) ==> {
                            &&& self.nodes@[k].finite()
                            &&& self.currently_executing@[k].remaining() == outstanding_in(self.nodes@[k], s2).len()
                                + if self.nodes@[k].contains(target) && !dependents@.take(idx as int).contains(k) {
                                1int
                            } else {
                                0int
                            }
                        },
                    decreases dependents@.len() - idx,
                {
                    let dependent = dependents[idx];
                    let ghost exec_before = self.currently_executing@;
                    proof {
                        assert(dependents@.contains(dependent));
                        assert(!dependents@.take(idx as int).contains(dependent)) by {
                            if dependents@.take(idx as int).contains(dependent) {
                                let j = choose|j: int| 0 <= j < idx && dependents@.take(idx as int)[j] == dependent;
                                assert(dependents@[j] == dependents@[idx as int]);
                            }
                        }
                        assert(self.currently_executing@[dependent].remaining() >= 1);
                    }
                    let mut dependent_data = self.currently_executing.remove(&dependent).unwrap();
                    let _ = dependent_data.mark_dependency(1);
                    self.currently_executing.insert(dependent, dependent_data);
                    proof {
                        assert(self.currently_executing@.dom() =~= exec_before.dom());
                        assert(self.statuses() =~= s2);
                        let t0 = dependents@.take(idx as int);
                        let t1 = dependents@.take(idx + 1);
                        assert(t1 =~= t0.push(dependent));
                        assert forall|k: u64| t1.contains(k) <==> t0.contains(k) || k == dependent by {
                            if t1.contains(k) {
                                let j = choose|j: int| 0 <= j < t1.len() && t1[j] == k;
                                if j < idx {
                                    assert(t0[j] == k);
                                }
                            }
                            if t0.contains(k) {
                                let j = choose|j: int| 0 <= j < t0.len() && t0[j] == k;
                                assert(t1[j] == k);
                            }
                            if k == dependent {
                                assert(t1[idx as int] == k);
                            }
                        }
                    }
                    idx = idx + 1;
                }
                proof {
                    assert(dependents@.take(dependents@.len() as int) == dependents@);
                    assert forall|k: u64| #[trigger] self.nodes@.contains_key(k) implies {
                        &&& self.nodes@[k].finite()
                        &&& self.currently_executing@[k].remaining() == outstanding_in(
                            self.nodes@[k],
                            self.statuses(),
                        ).len()
                    } by {
                        if self.nodes@[k].contains(target) {
                            assert(dependents@.contains(k));
                        }
                    }
                }
                Some(Ok(old_status))
            },
        }
    }
}

/// A dependency of `u` that has not completed, when there is one.
spec fn blocker(g: ActiveExecutionGraph, u: u64) -> u64 {
    choose|d: u64| g.dependencies()[u].contains(d) && !g.is_complete(d)
}

/// From `u`, `n` steps each to a dependency that has not completed.
spec fn blocked_walk(g: ActiveExecutionGraph, u: u64, n: nat) -> Seq<u64>
    decreases n,
{
    if n == 0 {
        seq![u]
    } else {
        let w = blocked_walk(g, u, (n - 1) as nat);
        w.push(blocker(g, w.last()))
    }
}

/// When no node may run, the walk from a node that has not completed stays among
/// such nodes, each step going to a dependency of the node before.
proof fn lemma_blocked_walk(g: ActiveExecutionGraph, u: u64, n: nat)
    requires
        forall|k: u64| !#[trigger] g.is_ready(k),
        forall|k: u64, d: u64|
            g.dependencies().contains_key(k) && #[trigger] g.dependencies()[k].contains(d)
                ==> g.dependencies().contains_key(d),
        g.dependencies().dom() == g.statuses().dom(),
        g.statuses().contains_key(u),
        g.statuses()[u] != StatusKind::Complete,
    ensures
        blocked_walk(g, u, n).len() == n + 1,
        forall|i: int|
            0 <= i <= n ==> g.statuses().contains_key(#[trigger] blocked_walk(g, u, n)[i])
                && g.statuses()[blocked_walk(g, u, n)[i]] != StatusKind::Complete,
        forall|i: int|
            0 <= i < n ==> g.dependencies()[blocked_walk(g, u, n)[i]].contains(
                #[trigger] blocked_walk(g, u, n)[i + 1],
            ),
    decreases n,
{
    if n > 0 {
        lemma_blocked_walk(g, u, (n - 1) as nat);
        let w = blocked_walk(g, u, (n - 1) as nat);
        let last = w.last();
        assert(w[n - 1] == last);
        assert(!g.is_ready(last));
        let d = blocker(g, last);
        assert(exists|d: u64| g.dependencies()[last].contains(d) && !g.is_complete(d));
        assert(g.dependencies()[last].contains(d) && !g.is_complete(d));
        let w2 = blocked_walk(g, u, n);
        assert(w2 == w.push(d));
        assert forall|i: int| 0 <= i < n implies g.dependencies()[w2[i]].contains(#[trigger] w2[i + 1]) by {
            if i < n - 1 {
                assert(w2[i] == w[i]);
                assert(w2[i + 1] == w[i + 1]);
            }
        }
        assert forall|i: int|
            0 <= i <= n implies g.statuses().contains_key(#[trigger] w2[i]) && g.statuses()[w2[i]]
                != StatusKind::Complete by {
            if i < n {
                assert(w2[i] == w[i]);
            }
        }
    }
}

/// The first repetition in `s`, among its first `n` places.
proof fn lemma_first_repeat(s: Seq<u64>, n: int) -> (r: (int, int))
    requires
        0 <= n <= s.len(),
        !s.take(n).no_duplicates(),
    ensures
        0 <= r.0 < r.1 < n,
        s[r.0] == s[r.1],
        s.take(r.1).no_duplicates(),
    decreases n,
{
    if !s.take(n - 1).no_duplicates() {
        let r = lemma_first_repeat(s, n - 1);
        r
    } else {
        let (a, b) = choose|a: int, b: int|
            0 <= a < s.take(n).len() && 0 <= b < s.take(n).len() && a != b && s.take(n)[a] == s.take(n)[b];
        assert(a == n - 1 || b == n - 1) by {
            if a < n - 1 && b < n - 1 {
                assert(s.take(n - 1)[a] == s.take(n - 1)[b]);
            }
        }
        let i = if a == n - 1 { b } else { a };
        (i, n - 1)
    }
}

/// Running a graph without cycles never gets stuck: while some node has not
/// completed, some node may run (its dependencies all being nodes of the graph).
pub proof fn lemma_acyclic_graph_has_leaf(g: ActiveExecutionGraph, u: u64)
    requires
        g.wf(),
        acyclic(g.dependencies()),
        forall|k: u64, d: u64|
            g.dependencies().contains_key(k) && #[trigger] g.dependencies()[k].contains(d)
                ==> g.dependencies().contains_key(d),
        g.statuses().contains_key(u),
        g.statuses()[u] != StatusKind::Complete,
    ensures
        exists|k: u64| #[trigger] g.is_ready(k),
{
    if forall|k: u64| !#[trigger] g.is_ready(k) {
        assert(g.dependencies().dom() =~= g.statuses().dom());
        let dom = g.statuses().dom();
        assert(dom == g.currently_executing@.dom());
        let n = dom.len();
        lemma_blocked_walk(g, u, n);
        let s = blocked_walk(g, u, n);
        assert(s.to_set().subset_of(dom)) by {
            assert forall|x: u64| s.to_set().contains(x) implies dom.contains(x) by {
                let i = choose|i: int| 0 <= i < s.len() && s[i] == x;
            }
        }
        vstd::set_lib::lemma_len_subset(s.to_set(), dom);
        if s.no_duplicates() {
            s.unique_seq_to_set();
        }
        assert(s.take(s.len() as int) == s);
        let (i, j) = lemma_first_repeat(s, s.len() as int);
        let m = j - i;
        let c = Seq::new(m as nat, |k: int| s[j - 1 - k]);
        assert forall|a: int, b: int| 0 <= a < c.len() && 0 <= b < c.len() && a != b implies c[a] != c[b] by {
            assert(s.take(j)[j - 1 - a] == s[j - 1 - a]);
            assert(s.take(j)[j - 1 - b] == s[j - 1 - b]);
        }
        assert forall|k: int| 0 <= k < c.len() - 1 implies has_edge(g.dependencies(), c[k], #[trigger] c[k + 1]) by {
            let p = j - 2 - k;
            assert(c[k] == s[p + 1]);
            assert(c[k + 1] == s[p]);
            assert(g.dependencies()[s[p]].contains(s[p + 1]));
            assert(g.statuses().contains_key(s[p]));
        }
        assert(c.last() == s[i]);
        assert(c[0] == s[j - 1]);
        let q = j - 1;
        assert(g.dependencies()[s[q]].contains(s[q + 1]));
        assert(g.statuses().contains_key(s[j - 1]));
        assert(has_edge(g.dependencies(), c.last(), c[0]));
        assert(is_cycle(g.dependencies(), c));
    }
}

/// A graph built from orderings (see [`ExecutionGraph::new`], whose result has
/// these properties) and then run never gets stuck: whatever stages its nodes have
/// been marked with, while some node has not completed, some node may run.
pub proof fn lemma_built_graph_never_stuck(
    input: Seq<(u64, ProcessorOrdering)>,
    built: Map<u64, Set<u64>>,
    g: ActiveExecutionGraph,
    u: u64,
)
    requires
        edges_within(built, declared_graph(input)),
        acyclic(built),
        g.wf(),
        g.dependencies() == built,
        g.statuses().contains_key(u),
        g.statuses()[u] != StatusKind::Complete,
    ensures
        exists|k: u64| #[trigger] g.is_ready(k),
{
    assert forall|k: u64, d: u64|
        g.dependencies().contains_key(k) && #[trigger] g.dependencies()[k].contains(d)
            implies g.dependencies().contains_key(d) by {
        assert(built[k].subset_of(declared_graph(input)[k]));
    }
    lemma_acyclic_graph_has_leaf(g, u);
}

} // verus!
