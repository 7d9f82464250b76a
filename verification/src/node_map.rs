use vstd::prelude::*;
use std::collections::{HashMap, HashSet};
use vstd::std_specs::iter::IteratorSpec;

use crate::execution_data::ExecutionData;
use crate::status::StatusKind;

verus! {

broadcast use vstd::std_specs::hash::group_hash_axioms;

/// The sets held in a map of hash sets.
pub open spec fn sets_of(m: Map<u64, HashSet<u64>>) -> Map<u64, Set<u64>> {
    Map::new(|k: u64| m.contains_key(k), |k: u64| m[k]@)
}

/// Each node of an execution graph with the nodes it depends on.
pub struct NodeMap {
    nodes: HashMap<u64, HashSet<u64>>,
}

impl View for NodeMap {
    type V = Map<u64, Set<u64>>;

    closed spec fn view(&self) -> Map<u64, Set<u64>> {
        sets_of(self.nodes@)
    }
}

impl NodeMap {
    /// Every set of dependencies is finite.
    #[verifier::type_invariant]
    spec fn finite_dependencies(self) -> bool {
        forall|k: u64| #[trigger] self.nodes@.contains_key(k) ==> self.nodes@[k]@.finite()
    }

    /// A node map holding `nodes` (each set of dependencies being finite, as every
    /// hash set is).
    pub fn new(nodes: HashMap<u64, HashSet<u64>>) -> (m: Self)
        requires
            forall|k: u64| #[trigger] nodes@.contains_key(k) ==> nodes@[k]@.finite(),
        ensures
            m@ == sets_of(nodes@),
    {
        Self { nodes }
    }

    /// For every node, fresh execution data that counts its dependencies.
    pub fn create_execution_flow(&self) -> (flow: Vec<(u64, ExecutionData)>)
        ensures
            forall|k: u64| #[trigger] self@.contains_key(k) ==> self@[k].finite(),
            flow@.map_values(|e: (u64, ExecutionData)| e.0).no_duplicates(),
            forall|k: u64|
                #[trigger] self@.contains_key(k) <==> exists|i: int|
                    0 <= i < flow@.len() && flow@[i].0 == k,
            forall|i: int|
                #![trigger flow@[i]]
                0 <= i < flow@.len() ==> {
                    &&& self@.contains_key(flow@[i].0)
                    &&& flow@[i].1.remaining() == self@[flow@[i].0].len()
                    &&& flow@[i].1.kind() == StatusKind::Incomplete
                },
    {
        proof {
            use_type_invariant(self);
        }
        let mut flow: Vec<(u64, ExecutionData)> = Vec::new();
        for item in it: self.nodes.iter()
            invariant
                it.seq() == vstd::std_specs::hash::spec_hash_map_iter(&self.nodes).remaining(),
                it.seq().no_duplicates(),
                flow@.len() == it.index(),
                forall|i: int|
                    #![trigger flow@[i]]
                    0 <= i < flow@.len() ==> {
                        &&& flow@[i].0 == *it.seq()[i].0
                        &&& self.nodes@.contains_key(flow@[i].0)
                        &&& flow@[i].1.remaining() == self.nodes@[flow@[i].0]@.len()
                        &&& flow@[i].1.kind() == StatusKind::Incomplete
                    },
        {
            let (data, dependencies) = item;
            let ghost idx = it.index();
            proof {
                assert(it.seq()[idx] == item);
                assert(self.nodes@.contains_key(*it.seq()[idx].0));
                assert(self.nodes@[*data] == *dependencies);
            }
            let count = dependencies.len();
            proof {
                assert(count == dependencies@.len());
            }
            let execution_data = ExecutionData::new(count);
            proof {
                assert(execution_data.remaining() == self.nodes@[*data]@.len());
            }
            let ghost before = flow@;
            flow.push((*data, execution_data));
            proof {
                assert forall|i: int|
                    #![trigger flow@[i]]
                    0 <= i < flow@.len() implies {
                        &&& flow@[i].0 == *it.seq()[i].0
                        &&& self.nodes@.contains_key(flow@[i].0)
                        &&& flow@[i].1.remaining() == self.nodes@[flow@[i].0]@.len()
                        &&& flow@[i].1.kind() == StatusKind::Incomplete
                    } by {
                    if i < idx {
                        assert(flow@[i] == before[i]);
                    }
                }
            }
        }
        proof {
            let pairs = vstd::std_specs::hash::spec_hash_map_iter(&self.nodes).remaining();
            assert forall|i: int|
                #![trigger flow@[i]]
                0 <= i < flow@.len() implies {
                    &&& self@.contains_key(flow@[i].0)
                    &&& flow@[i].1.remaining() == self@[flow@[i].0].len()
                    &&& flow@[i].1.kind() == StatusKind::Incomplete
                } by {
                assert(self.nodes@.contains_key(flow@[i].0));
            }
            let ids = flow@.map_values(|e: (u64, ExecutionData)| e.0);
            assert forall|a: int, b: int| 0 <= a < ids.len() && 0 <= b < ids.len() && a != b implies ids[a]
                != ids[b] by {
                assert(pairs[a] != pairs[b]);
                if *pairs[a].0 == *pairs[b].0 {
                    assert(*pairs[a].1 == self.nodes@[*pairs[a].0]);
                    assert(*pairs[b].1 == self.nodes@[*pairs[b].0]);
                }
            }
            assert forall|k: u64|
                #[trigger] self@.contains_key(k) <==> exists|i: int| 0 <= i < flow@.len() && flow@[i].0 == k by {
                if self.nodes@.contains_key(k) {
                    assert(pairs.contains((&k, &self.nodes@[k])));
                    let i = choose|i: int| 0 <= i < pairs.len() && pairs[i] == (&k, &self.nodes@[k]);
                    assert(flow@[i].0 == k);
                }
            }
        }
        flow
    }

    /// The nodes that depend on `target`.
    pub fn find_all_dependent(&self, target: u64) -> (out: Vec<u64>)
        ensures
            out@.no_duplicates(),
            forall|x: u64|
                #![trigger out@.contains(x)]
                out@.contains(x) <==> self@.contains_key(x) && self@[x].contains(target),
    {
        broadcast use vstd::seq_lib::group_seq_properties;

        let mut out: Vec<u64> = Vec::new();
        for k in it: self.nodes.keys()
            invariant
                it.seq() == vstd::std_specs::hash::spec_keys_iter(&self.nodes).remaining(),
                out@.no_duplicates(),
                forall|x: u64|
                    #![trigger out@.contains(x)]
                    out@.contains(x) <==> (exists|i: int| 0 <= i < it.index() && *it.seq()[i] == x)
                        && self.nodes@.contains_key(x) && self.nodes@[x]@.contains(target),
        {
            let ghost idx = it.index();
            let ghost before = out@;
            proof {
                assert(it.seq()[idx] == k);
                assert(it.seq().no_duplicates());
            }
            let keep = self.nodes.get(k).unwrap().contains(&target);
            if keep {
                proof {
                    assert forall|i: int| 0 <= i < idx implies *it.seq()[i] != *k by {
                        assert(it.seq()[i] != it.seq()[idx]);
                    }
                    if before.contains(*k) {
                        let i = choose|i: int| 0 <= i < idx && *it.seq()[i] == *k;
                        assert(false);
                    }
                }
                out.push(*k);
                proof {
                    assert forall|x: u64| out@.contains(x) <==> (before.contains(x) || x == *k) by {
                        if x == *k {
                            assert(out@[before.len() as int] == x);
                        }
                        if out@.contains(x) && x != *k {
                            let i = choose|i: int| 0 <= i < out@.len() && out@[i] == x;
                            assert(before[i] == x);
                        }
                        if before.contains(x) {
                            let i = choose|i: int| 0 <= i < before.len() && before[i] == x;
                            assert(out@[i] == x);
                        }
                    }
                }
            }
            proof {
                assert forall|x: u64|
                    #![trigger out@.contains(x)]
                    out@.contains(x) <==> (exists|i: int| 0 <= i < idx + 1 && *it.seq()[i] == x)
                        && self.nodes@.contains_key(x) && self.nodes@[x]@.contains(target) by {
                    if x == *k {
                        assert(*it.seq()[idx] == x);
                    } else {
                        assert(out@.contains(x) <==> before.contains(x));
                        if (exists|i: int| 0 <= i < idx + 1 && *it.seq()[i] == x) {
                            let i = choose|i: int| 0 <= i < idx + 1 && *it.seq()[i] == x;
                            assert(i < idx);
                        }
                    }
                }
            }
        }
        proof {
            let keys = vstd::std_specs::hash::spec_keys_iter(&self.nodes).remaining();
            assert forall|x: u64|
                #![trigger out@.contains(x)]
                out@.contains(x) <==> self@.contains_key(x) && self@[x].contains(target) by {
                if self.nodes@.contains_key(x) {
                    assert(keys.unref().to_set().contains(x));
                    let i = choose|i: int| 0 <= i < keys.unref().len() && keys.unref()[i] == x;
                    assert(*keys[i] == x);
                }
            }
        }
        out
    }
}

impl Default for NodeMap {
    fn default() -> (m: Self)
        ensures
            m@ == Map::<u64, Set<u64>>::empty(),
    {
        let m = Self { nodes: HashMap::new() };
        proof {
            assert(m@ =~= Map::<u64, Set<u64>>::empty());
        }
        m
    }
}

} // verus!
