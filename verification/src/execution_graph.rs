use vstd::prelude::*;

pub mod active_execution_graph;
use std::collections::{HashMap, HashSet};
use std::rc::Rc;

use crate::node::Node;
use crate::processor_ordering::ProcessorOrdering;
use crate::node_map::{sets_of, NodeMap};
use vstd::std_specs::iter::IteratorSpec;

verus! {

broadcast use vstd::std_specs::hash::group_hash_axioms;

/// The dependency graph of systems to run, without cycles.
pub struct ExecutionGraph {
    nodes: NodeMap,
}

impl View for ExecutionGraph {
    type V = Map<u64, Set<u64>>;

    closed spec fn view(&self) -> Map<u64, Set<u64>> {
        self.nodes@
    }
}

impl Default for ExecutionGraph {
    fn default() -> (g: Self)
        ensures
            g@ == Map::<u64, Set<u64>>::empty(),
    {
        Self { nodes: NodeMap::default() }
    }
}

/// The dependencies of each node, as a graph: `g[b].contains(a)` means that `b`
/// runs after `a`, an edge from `a` to `b`.
pub open spec fn has_edge(g: Map<u64, Set<u64>>, from: u64, to: u64) -> bool {
    g.contains_key(to) && g[to].contains(from)
}

/// `c` lists distinct nodes, each with an edge to the next and the last with an
/// edge back to the first.
pub open spec fn is_cycle(g: Map<u64, Set<u64>>, c: Seq<u64>) -> bool {
    &&& c.len() >= 1
    &&& c.no_duplicates()
    &&& forall|k: int| 0 <= k < c.len() - 1 ==> has_edge(g, c[k], #[trigger] c[k + 1])
    &&& has_edge(g, c.last(), c[0])
}

/// No cycle runs through the graph.
pub open spec fn acyclic(g: Map<u64, Set<u64>>) -> bool {
    forall|c: Seq<u64>| !#[trigger] is_cycle(g, c)
}

/// `small` has the nodes of `big` and a subset of its edges.
pub open spec fn edges_within(small: Map<u64, Set<u64>>, big: Map<u64, Set<u64>>) -> bool {
    &&& small.dom() == big.dom()
    &&& forall|k: u64| #[trigger] small.contains_key(k) ==> small[k].subset_of(big[k])
}

/// The dependency graph held in a map from each node to its dependencies and priority.
pub open spec fn deps_of(nodes: Map<u64, (HashSet<u64>, u64)>) -> Map<u64, Set<u64>> {
    Map::new(|k: u64| nodes.contains_key(k), |k: u64| nodes[k].0@)
}

/// The priority of each node in such a map.
pub open spec fn priorities_of(nodes: Map<u64, (HashSet<u64>, u64)>) -> Map<u64, u64> {
    Map::new(|k: u64| nodes.contains_key(k), |k: u64| nodes[k].1)
}

/// The path held in an optional step (empty when there is none).
pub open spec fn path_of(path: Option<Rc<Node>>) -> Seq<u64> {
    match path {
        Some(n) => n.path(),
        None => Seq::empty(),
    }
}

/// `j` is the last position before the head of `p` at which `x` stands.
pub open spec fn nearest_before_head(p: Seq<u64>, x: u64, j: int) -> bool {
    &&& 0 <= j < p.len() - 1
    &&& p[j] == x
    &&& forall|k: int| j < k < p.len() - 1 ==> p[k] != x
}

/// `m` is the position in `p[j..]` of greatest priority, the one nearest the head
/// among equals.
pub open spec fn heaviest_from(prio: Map<u64, u64>, p: Seq<u64>, j: int, m: int) -> bool {
    &&& j <= m < p.len()
    &&& forall|k: int| j <= k < p.len() ==> prio[#[trigger] p[k]] <= prio[p[m]]
    &&& forall|k: int| m < k < p.len() ==> prio[#[trigger] p[k]] < prio[p[m]]
}

/// What a search for `x` on the path `p` finds: `None` when `x` stands nowhere
/// before the head; otherwise, on the cycle from the nearest such place back to the
/// head, the node of greatest priority and the node after it on the path (`None`
/// when that node is the head itself).
pub open spec fn cycle_max_result(
    prio: Map<u64, u64>,
    p: Seq<u64>,
    x: u64,
    r: Option<(u64, Option<u64>)>,
) -> bool {
    match r {
        None => forall|k: int| 0 <= k < p.len() - 1 ==> p[k] != x,
        Some((mx, child)) => exists|j: int, m: int|
            {
                &&& nearest_before_head(p, x, j)
                &&& heaviest_from(prio, p, j, m)
                &&& mx == p[m]
                &&& child == if m < p.len() - 1 {
                    Some(p[m + 1])
                } else {
                    None
                }
            },
    }
}

/// `x` and then `y` stand next to each other on the path `p`.
pub open spec fn path_step(p: Seq<u64>, x: u64, y: u64) -> bool {
    exists|k: int| #![trigger p[k], p[k + 1]] 0 <= k < p.len() - 1 && p[k] == x && p[k + 1] == y
}

/// `c` leads from `b` back to `a`, each node to the next along an edge of `g` or
/// a step of the path `p`; with an edge from `a` to `b` it closes a walk.
pub open spec fn walk_back(g: Map<u64, Set<u64>>, p: Seq<u64>, c: Seq<u64>, a: u64, b: u64) -> bool {
    &&& c.len() >= 1
    &&& c[0] == b
    &&& c.last() == a
    &&& forall|k: int|
        0 <= k < c.len() - 1 ==> has_edge(g, c[k], #[trigger] c[k + 1]) || path_step(p, c[k], c[k + 1])
}

/// The edge from `a` to `b` lies on a closed walk (along edges of `g` and steps
/// of `p`) on which no node has a greater priority than `a`.
pub open spec fn cut_justified(g: Map<u64, Set<u64>>, p: Seq<u64>, prio: Map<u64, u64>, a: u64, b: u64) -> bool {
    exists|c: Seq<u64>|
        #[trigger] walk_back(g, p, c, a, b) && forall|k: int| 0 <= k < c.len() ==> prio[#[trigger] c[k]] <= prio[a]
}

/// Every edge of `before` that `after` lacks was cut where it was justified.
pub open spec fn cuts_justified(
    after: Map<u64, Set<u64>>,
    before: Map<u64, Set<u64>>,
    p: Seq<u64>,
    prio: Map<u64, u64>,
) -> bool {
    forall|a: u64, b: u64|
        has_edge(before, a, b) && !has_edge(after, a, b) ==> #[trigger] cut_justified(before, p, prio, a, b)
}

/// A justification stays one in a graph with more edges and along a path whose
/// steps are edges of that graph or steps of another path.
proof fn lemma_justified_widen(
    g1: Map<u64, Set<u64>>,
    p1: Seq<u64>,
    g2: Map<u64, Set<u64>>,
    p2: Seq<u64>,
    prio: Map<u64, u64>,
    a: u64,
    b: u64,
)
    requires
        cut_justified(g1, p1, prio, a, b),
        forall|x: u64, y: u64| has_edge(g1, x, y) ==> #[trigger] has_edge(g2, x, y),
        forall|x: u64, y: u64| path_step(p1, x, y) ==> #[trigger] has_edge(g2, x, y) || path_step(p2, x, y),
    ensures
        cut_justified(g2, p2, prio, a, b),
{
    let c = choose|c: Seq<u64>|
        #[trigger] walk_back(g1, p1, c, a, b) && forall|k: int| 0 <= k < c.len() ==> prio[#[trigger] c[k]] <= prio[a];
    assert forall|k: int| 0 <= k < c.len() - 1 implies has_edge(g2, c[k], #[trigger] c[k + 1]) || path_step(
        p2,
        c[k],
        c[k + 1],
    ) by {
        if has_edge(g1, c[k], c[k + 1]) {
            assert(has_edge(g2, c[k], c[k + 1]));
        } else {
            assert(path_step(p1, c[k], c[k + 1]));
            assert(has_edge(g2, c[k], c[k + 1]) || path_step(p2, c[k], c[k + 1]));
        }
    }
    assert(walk_back(g2, p2, c, a, b));
}

/// Where `leaf`, a dependent of the head of `p`, stands earlier on `p` at `j`,
/// cutting the edge out of the heaviest node `p[m]` of that cycle is justified.
proof fn lemma_cycle_cut_justified(
    g: Map<u64, Set<u64>>,
    p: Seq<u64>,
    prio: Map<u64, u64>,
    leaf: u64,
    j: int,
    m: int,
)
    requires
        nearest_before_head(p, leaf, j),
        heaviest_from(prio, p, j, m),
        has_edge(g, p.last(), leaf),
    ensures
        cut_justified(
            g,
            p,
            prio,
            p[m],
            if m < p.len() - 1 {
                p[m + 1]
            } else {
                leaf
            },
        ),
{
    let n = p.len() as int;
    if m < n - 1 {
        let c = p.subrange(m + 1, n) + p.subrange(j, m + 1);
        assert forall|k: int| 0 <= k < c.len() - 1 implies has_edge(g, c[k], #[trigger] c[k + 1]) || path_step(
            p,
            c[k],
            c[k + 1],
        ) by {
            if k < n - m - 2 {
                let i = m + 1 + k;
                assert(c[k] == p[i] && c[k + 1] == p[i + 1]);
                assert(p[i] == p[i] && p[i + 1] == p[i + 1]);
            } else if k == n - m - 2 {
                assert(c[k] == p[n - 1] && c[k + 1] == p[j]);
            } else {
                let i = j + (k - (n - m - 1));
                assert(c[k] == p[i] && c[k + 1] == p[i + 1]);
                assert(p[i] == p[i] && p[i + 1] == p[i + 1]);
            }
        }
        assert forall|k: int| 0 <= k < c.len() implies prio[#[trigger] c[k]] <= prio[p[m]] by {
            if k < n - m - 1 {
                assert(c[k] == p[m + 1 + k]);
            } else {
                assert(c[k] == p[j + (k - (n - m - 1))]);
            }
        }
        assert(walk_back(g, p, c, p[m], p[m + 1]));
    } else {
        let c = p.subrange(j, n);
        assert forall|k: int| 0 <= k < c.len() - 1 implies has_edge(g, c[k], #[trigger] c[k + 1]) || path_step(
            p,
            c[k],
            c[k + 1],
        ) by {
            let i = j + k;
            assert(c[k] == p[i] && c[k + 1] == p[i + 1]);
            assert(p[i] == p[i] && p[i + 1] == p[i + 1]);
        }
        assert forall|k: int| 0 <= k < c.len() implies prio[#[trigger] c[k]] <= prio[p[m]] by {
            assert(c[k] == p[j + k]);
        }
        assert(walk_back(g, p, c, p[m], leaf));
    }
}

/// The steps of `p` extended by `leaf` are steps of `p` and the edge from the
/// head of `p` to `leaf`.
proof fn lemma_push_steps(g: Map<u64, Set<u64>>, p: Seq<u64>, leaf: u64)
    requires
        p.len() >= 1 ==> has_edge(g, p.last(), leaf),
    ensures
        forall|x: u64, y: u64| path_step(p.push(leaf), x, y) ==> #[trigger] has_edge(g, x, y) || path_step(p, x, y),
{
    let q = p.push(leaf);
    assert forall|x: u64, y: u64| path_step(q, x, y) implies #[trigger] has_edge(g, x, y) || path_step(p, x, y) by {
        let k = choose|k: int| #![trigger q[k], q[k + 1]] 0 <= k < q.len() - 1 && q[k] == x && q[k + 1] == y;
        if k < p.len() - 1 {
            assert(p[k] == x && p[k + 1] == y);
        } else {
            assert(x == p.last() && y == leaf);
        }
    }
}

/// The edges of a graph with fewer edges are edges of the bigger one.
proof fn lemma_edges_within_has_edge(small: Map<u64, Set<u64>>, big: Map<u64, Set<u64>>)
    requires
        edges_within(small, big),
    ensures
        forall|x: u64, y: u64| has_edge(small, x, y) ==> #[trigger] has_edge(big, x, y),
{
    assert forall|x: u64, y: u64| has_edge(small, x, y) implies #[trigger] has_edge(big, x, y) by {
        assert(small[y].subset_of(big[y]));
    }
}

/// The search for `x` on `p` looks up the node at `k`: no node between it and the
/// head, the head excluded, is `x`.
pub open spec fn looked_up(p: Seq<u64>, x: u64, k: int) -> bool {
    &&& 0 <= k < p.len()
    &&& forall|i: int| k < i < p.len() - 1 ==> p[i] != x
}

/// The head of `p`, if it has one.
pub open spec fn path_head(p: Seq<u64>) -> Option<u64> {
    if p.len() >= 1 {
        Some(p.last())
    } else {
        None
    }
}

/// `x` stands on `p` before its head.
pub open spec fn before_head(p: Seq<u64>, x: u64) -> bool {
    exists|k: int| 0 <= k < p.len() - 1 && p[k] == x
}

/// Every node of `p` is in `seen`, and a node repeats on `p` only at
/// neighbouring places, as on the paths that a search builds.
pub open spec fn orderly_path(p: Seq<u64>, seen: Set<u64>) -> bool {
    &&& repeats_only_adjacent(p)
    &&& forall|k: int| 0 <= k < p.len() ==> seen.contains(#[trigger] p[k])
}

/// A node that a search along `p`, which turned `s0` into `s1`, went on from: the
/// head of `p`, or a node it added that does not stand on `p` before the head.
pub open spec fn searched(p: Seq<u64>, s0: Set<u64>, s1: Set<u64>, x: u64) -> bool {
    ||| path_head(p) == Some(x)
    ||| s1.contains(x) && !s0.contains(x) && !before_head(p, x)
}

/// What a search without a path from nothing seen has seen (see
/// [`ExecutionGraph::construct_paths`], whose results give both requirements
/// when the path is empty and nothing was seen before) holds every node reached
/// along a walk of the graph from a node it has seen: together with the nodes that
/// depend on nothing, every node reachable from them.
pub proof fn lemma_search_reaches(g: Map<u64, Set<u64>>, seen: Set<u64>, h: u64, w: Seq<u64>)
    requires
        forall|x: u64, y: u64| seen.contains(x) && #[trigger] has_edge(g, x, y) ==> seen.contains(y),
        seen.contains(h),
        walk_from(g, h, w),
    ensures
        forall|k: int| 0 <= k < w.len() ==> seen.contains(#[trigger] w[k]),
    decreases w.len(),
{
    if w.len() > 0 {
        let v = w.drop_last();
        assert forall|k: int| 0 <= k < v.len() - 1 implies has_edge(g, v[k], #[trigger] v[k + 1]) by {
            assert(has_edge(g, w[k], w[k + 1]));
        }
        lemma_search_reaches(g, seen, h, v);
        assert forall|k: int| 0 <= k < w.len() implies seen.contains(#[trigger] w[k]) by {
            if k < v.len() {
                assert(w[k] == v[k]);
            } else if k == 0 {
                assert(has_edge(g, h, w[0]));
            } else {
                let j = k - 1;
                assert(seen.contains(v[j]));
                assert(has_edge(g, w[j], w[j + 1]));
            }
        }
    }
}

impl ExecutionGraph {
    /// Finds, on the path `current_path`, whether `looking_for` closes a cycle, and if
    /// so which node of that cycle has the greatest priority (see [`cycle_max_result`]).
    pub fn find_max_priority_in_cycle(
        priority_mapping: &HashMap<u64, (HashSet<u64>, u64)>,
        current_path: &Option<Rc<Node>>,
        looking_for: &u64,
    ) -> (r: Option<(u64, Option<u64>)>)
        requires
            forall|k: int|
                #[trigger] looked_up(path_of(*current_path), *looking_for, k) ==> priority_mapping@.contains_key(
                    path_of(*current_path)[k],
                ),
        ensures
            cycle_max_result(priorities_of(priority_mapping@), path_of(*current_path), *looking_for, r),
    {
        let ghost prio = priorities_of(priority_mapping@);
        let path: &Rc<Node> = match current_path {
            None => return None,
            Some(p) => p,
        };
        let ghost p = path.path();
        proof {
            (**path).lemma_path_ends_here();
            assert(p == path_of(*current_path));
        }
        let mut child_of_max: Option<u64> = None;
        let mut max: &Node = &**path;
        let mut current: &Node = &**path;
        let ghost mut mi: int = p.len() - 1;
        while current.parent().is_some()
            invariant
                p == path_of(*current_path),
                p.len() >= 1,
                current.path().len() >= 1,
                current.path().len() <= p.len(),
                p.subrange(0, current.path().len() as int) == current.path(),
                current.spec_data() == current.path().last(),
                forall|k: int|
                    #[trigger] looked_up(p, *looking_for, k) ==> priority_mapping@.contains_key(p[k]),
                forall|k: int| current.path().len() - 1 <= k < p.len() - 1 ==> p[k] != *looking_for,
                heaviest_from(prio, p, current.path().len() - 1, mi),
                max.spec_data() == p[mi],
                child_of_max == if mi < p.len() - 1 {
                    Some(p[mi + 1])
                } else {
                    None
                },
                prio == priorities_of(priority_mapping@),
            decreases current.path().len(),
        {
            let ghost ci = current.path().len() - 1;
            let child_of_current: u64 = *current.data();
            let parent: &Rc<Node> = match current.parent() {
                Some(q) => q,
                None => {
                    proof { assert(false); }
                    return None;
                },
            };
            current = &**parent;
            proof {
                current.lemma_path_ends_here();
                assert(p.subrange(0, current.path().len() as int) == current.path());
                assert(current.path().len() == ci);
                assert(p[ci - 1] == current.spec_data());
                assert(p[ci] == child_of_current);
            }
            proof {
                assert(looked_up(p, *looking_for, mi));
                assert(looked_up(p, *looking_for, ci - 1));
            }
            let max_priority = priority_mapping.get(max.data()).unwrap().1;
            let current_priority = priority_mapping.get(current.data()).unwrap().1;
            if current_priority > max_priority {
                child_of_max = Some(child_of_current);
                max = current;
                proof {
                    mi = ci - 1;
                }
            }
            if *current.data() == *looking_for {
                proof {
                    assert(nearest_before_head(p, *looking_for, ci - 1));
                    assert(heaviest_from(prio, p, ci - 1, mi));
                }
                return Some((*max.data(), child_of_max));
            }
        }
        proof {
            assert(current.path().len() == 1);
        }
        None
    }
}

/// Whether a node with dependencies `deps` is found from `head`: it depends on
/// `head`, or, with no head, it depends on nothing.
pub open spec fn found_from(deps: Set<u64>, head: Option<u64>) -> bool {
    match head {
        Some(h) => deps.contains(h),
        None => deps.is_empty(),
    }
}

/// The nodes that a search continues to from `head` (see [`found_from`]).
fn dependents_of(nodes: &HashMap<u64, (HashSet<u64>, u64)>, head: Option<u64>) -> (out: Vec<u64>)
    ensures
        out@.no_duplicates(),
        forall|x: u64|
            #![trigger out@.contains(x)]
            out@.contains(x) <==> nodes@.contains_key(x) && found_from(nodes@[x].0@, head),
{
    broadcast use vstd::seq_lib::group_seq_properties;
    let mut out: Vec<u64> = Vec::new();
    for k in it: nodes.keys()
        invariant
            it.seq() == vstd::std_specs::hash::spec_keys_iter(nodes).remaining(),
            out@.no_duplicates(),
            forall|x: u64|
                #![trigger out@.contains(x)]
                out@.contains(x) <==> (exists|i: int|
                    0 <= i < it.index() && *it.seq()[i] == x) && nodes@.contains_key(x) && found_from(
                    nodes@[x].0@,
                    head,
                ),
    {
        let ghost idx = it.index();
        let ghost before = out@;
        proof {
            assert(it.seq()[idx] == k);
            assert(it.seq().no_duplicates());
        }
        let entry = nodes.get(k).unwrap();
        let keep = match head {
            Some(h) => entry.0.contains(&h),
            None => entry.0.is_empty(),
        };
        if keep {
            proof {
                assert forall|i: int| 0 <= i < idx implies *it.seq()[i] != *k by {
                    assert(it.seq()[i] != it.seq()[idx]);
                }
                if before.contains(*k) {
                    let i = choose|i: int| 0 <= i < idx && *it.seq()[i] == *k;
                    assert(false);
                }
            }
            out.push(*k);
            proof {
                assert forall|x: u64| out@.contains(x) <==> (before.contains(x) || x == *k) by {
                    if x == *k {
                        assert(out@[before.len() as int] == x);
                    }
                    if out@.contains(x) && x != *k {
                        let i = choose|i: int| 0 <= i < out@.len() && out@[i] == x;
                        assert(i < before.len());
                        assert(before[i] == x);
                    }
                    if before.contains(x) {
                        let i = choose|i: int| 0 <= i < before.len() && before[i] == x;
                        assert(out@[i] == x);
                    }
                }
            }
        }
        proof {
            assert(keep <==> (nodes@.contains_key(*k) && found_from(nodes@[*k].0@, head)));
            assert forall|x: u64|
                #![trigger out@.contains(x)]
                out@.contains(x) <==> (exists|i: int|
                    0 <= i < idx + 1 && *it.seq()[i] == x) && nodes@.contains_key(x) && found_from(
                    nodes@[x].0@,
                    head,
                ) by {
                if x == *k {
                    assert(*it.seq()[idx] == x);
                } else {
                    assert(out@.contains(x) <==> before.contains(x));
                    if (exists|i: int| 0 <= i < idx + 1 && *it.seq()[i] == x) {
                        let i = choose|i: int| 0 <= i < idx + 1 && *it.seq()[i] == x;
                        assert(i < idx);
                    }
                }
            }
        }
    }
    out
}

/// The edges from `p[i]` on along the path `p` are all in `g`.
pub open spec fn chain_from(g: Map<u64, Set<u64>>, p: Seq<u64>, i: int) -> bool {
    forall|k: int| i <= k < p.len() - 1 ==> has_edge(g, p[k], #[trigger] p[k + 1])
}

/// From `h`, the nodes of `w` follow one another along edges of `g`.
pub open spec fn walk_from(g: Map<u64, Set<u64>>, h: u64, w: Seq<u64>) -> bool {
    &&& w.len() > 0 ==> has_edge(g, h, w[0])
    &&& forall|k: int| 0 <= k < w.len() - 1 ==> has_edge(g, w[k], #[trigger] w[k + 1])
}

/// A cycle that a search along the path `p` has to meet: from `p[i]` along the
/// path to its head, on through fresh distinct nodes `w`, and back by one more edge
/// to `t`, a node of the path from `p[i]` on or of `w`.
pub open spec fn closes_cycle(g: Map<u64, Set<u64>>, p: Seq<u64>, w: Seq<u64>, t: u64, i: int) -> bool {
    &&& 0 <= i < p.len()
    &&& chain_from(g, p, i)
    &&& walk_from(g, p.last(), w)
    &&& w.no_duplicates()
    &&& forall|k: int| 0 <= k < w.len() ==> !p.contains(#[trigger] w[k])
    &&& has_edge(g, (p + w).last(), t)
    &&& (p.subrange(i, p.len() as int).contains(t) || w.contains(t))
}

/// `g` holds no cycle that a search along `p` has to meet.
pub open spec fn no_cycle_closes(g: Map<u64, Set<u64>>, p: Seq<u64>) -> bool {
    forall|w: Seq<u64>, t: u64, i: int| !#[trigger] closes_cycle(g, p, w, t, i)
}

/// No node of `c` is in `s`.
pub open spec fn avoids(c: Seq<u64>, s: Set<u64>) -> bool {
    forall|k: int| 0 <= k < c.len() ==> !s.contains(#[trigger] c[k])
}

/// Every cycle of `g` that avoids `before` avoids `after` as well.
pub open spec fn fresh_cycles_avoid(g: Map<u64, Set<u64>>, before: Set<u64>, after: Set<u64>) -> bool {
    forall|c: Seq<u64>| #[trigger] is_cycle(g, c) && avoids(c, before) ==> avoids(c, after)
}

/// A node occurs twice in `p` only at neighbouring places.
pub open spec fn repeats_only_adjacent(p: Seq<u64>) -> bool {
    forall|i: int, j: int| 0 <= i < j < p.len() && p[i] == p[j] ==> j == i + 1
}

/// A node found from the head of `p` is not met again earlier on the path, or,
/// when it is, the cycle it closes there is cut.
pub open spec fn leaf_handled(g: Map<u64, Set<u64>>, p: Seq<u64>, x: u64) -> bool {
    if exists|k: int| 0 <= k < p.len() - 1 && p[k] == x {
        forall|j: int|
            0 <= j < p.len() - 1 && p[j] == x ==> !(chain_from(g, p, j) && has_edge(g, p.last(), x))
    } else {
        no_cycle_closes(g, p.push(x))
    }
}

/// Fewer edges close fewer cycles.
proof fn lemma_closes_cycle_mono(small: Map<u64, Set<u64>>, big: Map<u64, Set<u64>>, p: Seq<u64>)
    requires
        edges_within(small, big),
    ensures
        forall|w: Seq<u64>, t: u64, i: int|
            closes_cycle(small, p, w, t, i) ==> #[trigger] closes_cycle(big, p, w, t, i),
        forall|c: Seq<u64>| is_cycle(small, c) ==> #[trigger] is_cycle(big, c),
        no_cycle_closes(big, p) ==> no_cycle_closes(small, p),
{
    assert forall|w: Seq<u64>, t: u64, i: int|
        closes_cycle(small, p, w, t, i) implies #[trigger] closes_cycle(big, p, w, t, i) by {
        assert(small.contains_key((p + w).last()) ==> small[(p + w).last()].subset_of(big[(p + w).last()]));
        assert forall|k: int| i <= k < p.len() - 1 implies has_edge(big, p[k], #[trigger] p[k + 1]) by {
            assert(small.contains_key(p[k + 1]));
        }
        assert forall|k: int| 0 <= k < w.len() - 1 implies has_edge(big, w[k], #[trigger] w[k + 1]) by {
            assert(small.contains_key(w[k + 1]));
        }
        if w.len() > 0 {
            assert(small.contains_key(w[0]));
        }
        assert(has_edge(big, (p + w).last(), t));
    }
    assert forall|c: Seq<u64>| is_cycle(small, c) implies #[trigger] is_cycle(big, c) by {
        assert forall|k: int| 0 <= k < c.len() - 1 implies has_edge(big, c[k], #[trigger] c[k + 1]) by {
            assert(small.contains_key(c[k + 1]));
        }
        assert(small.contains_key(c[0]));
    }
    if no_cycle_closes(big, p) {
        assert forall|w: Seq<u64>, t: u64, i: int| !#[trigger] closes_cycle(small, p, w, t, i) by {
            if closes_cycle(small, p, w, t, i) {
                assert(closes_cycle(big, p, w, t, i));
            }
        }
    }
}

/// Facts about handled leaves stay true when edges go.
proof fn lemma_leaf_handled_mono(small: Map<u64, Set<u64>>, big: Map<u64, Set<u64>>, p: Seq<u64>, x: u64)
    requires
        edges_within(small, big),
        leaf_handled(big, p, x),
    ensures
        leaf_handled(small, p, x),
{
    if exists|k: int| 0 <= k < p.len() - 1 && p[k] == x {
        assert forall|j: int|
            0 <= j < p.len() - 1 && p[j] == x implies !(chain_from(small, p, j) && has_edge(
                small,
                p.last(),
                x,
            )) by {
            if chain_from(small, p, j) && has_edge(small, p.last(), x) {
                assert forall|k: int| j <= k < p.len() - 1 implies has_edge(big, p[k], #[trigger] p[k + 1]) by {
                    assert(small.contains_key(p[k + 1]));
                }
                assert(small.contains_key(x));
                assert(has_edge(big, p.last(), x));
            }
        }
    } else {
        lemma_closes_cycle_mono(small, big, p.push(x));
    }
}

/// Fewer edges, fewer cycles.
proof fn lemma_fresh_mono(small: Map<u64, Set<u64>>, big: Map<u64, Set<u64>>, a: Set<u64>, b: Set<u64>)
    requires
        edges_within(small, big),
        fresh_cycles_avoid(big, a, b),
    ensures
        fresh_cycles_avoid(small, a, b),
{
    lemma_closes_cycle_mono(small, big, Seq::empty());
    assert forall|c: Seq<u64>| #[trigger] is_cycle(small, c) && avoids(c, a) implies avoids(c, b) by {
        assert(is_cycle(big, c));
    }
}

/// A cycle through `c[k]`, entered from a path that it avoids, is one that a search
/// along that path followed by `c[k]` has to meet.
proof fn lemma_cycle_closes(g: Map<u64, Set<u64>>, c: Seq<u64>, k: int, p: Seq<u64>)
    requires
        is_cycle(g, c),
        0 <= k < c.len(),
        forall|j: int| 0 <= j < c.len() ==> !p.contains(#[trigger] c[j]),
    ensures
        !no_cycle_closes(g, p.push(c[k])),
{
    let n = c.len() as int;
    let x = c[k];
    let w = Seq::new((n - 1) as nat, |a: int| if k + 1 + a < n { c[k + 1 + a] } else { c[k + 1 + a - n] });
    let q = p.push(x);
    assert forall|a: int| 0 <= a < w.len() - 1 implies has_edge(g, w[a], #[trigger] w[a + 1]) by {
        let i1 = k + 1 + a;
        if i1 + 1 < n {
            assert(w[a + 1] == c[i1 + 1]);
            assert(has_edge(g, c[i1], c[i1 + 1]));
        } else if i1 < n {
            assert(i1 == n - 1);
            assert(w[a] == c.last());
        } else {
            let i2 = i1 - n;
            assert(w[a] == c[i2]);
            assert(w[a + 1] == c[i2 + 1]);
            assert(has_edge(g, c[i2], c[i2 + 1]));
        }
    }
    if w.len() > 0 {
        if k + 1 < n {
        } else {
            assert(w[0] == c[0]);
        }
    }
    assert(walk_from(g, q.last(), w));
    assert forall|a: int, b: int| 0 <= a < w.len() && 0 <= b < w.len() && a != b implies w[a] != w[b] by {
        let ia = if k + 1 + a < n { k + 1 + a } else { k + 1 + a - n };
        let ib = if k + 1 + b < n { k + 1 + b } else { k + 1 + b - n };
        assert(ia != ib);
    }
    assert forall|a: int| 0 <= a < w.len() implies !q.contains(#[trigger] w[a]) by {
        let ia = if k + 1 + a < n { k + 1 + a } else { k + 1 + a - n };
        assert(w[a] == c[ia]);
        assert(ia != k);
        if q.contains(w[a]) {
            let j = choose|j: int| 0 <= j < q.len() && q[j] == w[a];
            if j < p.len() {
                assert(p[j] == q[j]);
                assert(p.contains(c[ia]));
            }
        }
    }
    if w.len() == 0 {
        assert((q + w).last() == x);
        assert(n == 1);
    } else {
        assert((q + w).last() == w.last());
        if k == 0 {
            assert(w.last() == c.last());
        } else {
            let j = k - 1;
            assert(w.last() == c[j]);
            assert(has_edge(g, c[j], c[j + 1]));
        }
    }
    assert(q.subrange(p.len() as int, q.len() as int)[0] == x);
    assert(closes_cycle(g, q, w, x, p.len() as int));
}

/// Cycles fresh after a leaf is handled: the leaf was seen before, or every cycle
/// through it has been met along the path it was reached by.
proof fn lemma_fresh_step(
    g_before: Map<u64, Set<u64>>,
    g_after: Map<u64, Set<u64>>,
    s0: Set<u64>,
    s: Set<u64>,
    x: u64,
    s2: Set<u64>,
    p: Seq<u64>,
)
    requires
        edges_within(g_after, g_before),
        fresh_cycles_avoid(g_before, s0, s),
        fresh_cycles_avoid(g_after, s.insert(x), s2),
        s.contains(x) || (no_cycle_closes(g_after, p.push(x)) && forall|k: int|
            0 <= k < p.len() ==> s.contains(#[trigger] p[k])),
    ensures
        fresh_cycles_avoid(g_after, s0, s2),
{
    lemma_closes_cycle_mono(g_after, g_before, p);
    assert forall|c: Seq<u64>| #[trigger] is_cycle(g_after, c) && avoids(c, s0) implies avoids(c, s2) by {
        assert(is_cycle(g_before, c));
        assert(avoids(c, s));
        if exists|k: int| 0 <= k < c.len() && c[k] == x {
            let k = choose|k: int| 0 <= k < c.len() && c[k] == x;
            assert(!s.contains(x));
            assert forall|j: int| 0 <= j < c.len() implies !p.contains(#[trigger] c[j]) by {
                if p.contains(c[j]) {
                    let i = choose|i: int| 0 <= i < p.len() && p[i] == c[j];
                    assert(s.contains(p[i]));
                }
            }
            lemma_cycle_closes(g_after, c, k, p);
        }
        assert(avoids(c, s.insert(x)));
    }
}

/// When every node found from the head of `p` has been handled, no cycle that a
/// search along `p` has to meet is left.
proof fn lemma_all_leaves_handled(g: Map<u64, Set<u64>>, g0: Map<u64, Set<u64>>, p: Seq<u64>, leaves: Seq<u64>)
    requires
        p.len() >= 1,
        edges_within(g, g0),
        repeats_only_adjacent(p),
        forall|x: u64| has_edge(g0, p.last(), x) ==> leaves.contains(x),
        forall|j: int| 0 <= j < leaves.len() ==> leaf_handled(g, p, #[trigger] leaves[j]),
    ensures
        no_cycle_closes(g, p),
{
    let n = p.len() as int;
    let h = p.last();
    assert forall|w: Seq<u64>, t: u64, i: int| !#[trigger] closes_cycle(g, p, w, t, i) by {
        if closes_cycle(g, p, w, t, i) {
            let x = if w.len() == 0 { t } else { w[0] };
            if w.len() == 0 {
                assert(p + w =~= p);
                assert((p + w).last() == h);
            } else {
                assert(p + w =~= p.push(x) + w.drop_first());
            }
            assert(has_edge(g, h, x));
            assert(g.contains_key(x));
            assert(has_edge(g0, h, x));
            assert(leaves.contains(x));
            let jl = choose|jl: int| 0 <= jl < leaves.len() && leaves[jl] == x;
            assert(leaf_handled(g, p, leaves[jl]));
            if w.len() == 0 {
                let m = choose|m: int| 0 <= m < n - i && p.subrange(i, n)[m] == t;
                let m = m + i;
                assert(p[m] == t);
                if exists|k: int| 0 <= k < n - 1 && p[k] == x {
                    if m < n - 1 {
                        assert(chain_from(g, p, m));
                    } else {
                        let k = choose|k: int| 0 <= k < n - 1 && p[k] == x;
                        assert(k == n - 2);
                        assert(chain_from(g, p, n - 2));
                    }
                } else {
                    assert(m == n - 1);
                    let q = p.push(x);
                    assert(q.subrange(n, n + 1)[0] == t);
                    assert((q + Seq::<u64>::empty()).last() == h);
                    assert(closes_cycle(g, q, Seq::<u64>::empty(), t, n));
                }
            } else {
                assert(!p.contains(w[0]));
                assert(!(exists|k: int| 0 <= k < n - 1 && p[k] == x));
                let q = p.push(x);
                let w2 = w.drop_first();
                assert forall|k: int| i <= k < q.len() - 1 implies has_edge(g, q[k], #[trigger] q[k + 1]) by {
                    if k < n - 1 {
                        assert(has_edge(g, p[k], p[k + 1]));
                    }
                }
                assert forall|k: int| 0 <= k < w2.len() - 1 implies has_edge(g, w2[k], #[trigger] w2[k + 1]) by {
                    let kk = k + 1;
                    assert(has_edge(g, w[kk], w[kk + 1]));
                }
                if w2.len() > 0 {
                    let z: int = 0;
                    assert(has_edge(g, w[z], w[z + 1]));
                }
                assert forall|k: int| 0 <= k < w2.len() implies !q.contains(#[trigger] w2[k]) by {
                    assert(w2[k] == w[k + 1]);
                    assert(!p.contains(w[k + 1]));
                    assert(w[k + 1] != w[0]);
                    if q.contains(w2[k]) {
                        let j = choose|j: int| 0 <= j < q.len() && q[j] == w2[k];
                        if j < n {
                            assert(p[j] == q[j]);
                        }
                    }
                }
                if p.subrange(i, n).contains(t) {
                    let m = choose|m: int| 0 <= m < n - i && p.subrange(i, n)[m] == t;
                    assert(q.subrange(i, n + 1)[m] == t);
                } else {
                    let m = choose|m: int| 0 <= m < w.len() && w[m] == t;
                    if m == 0 {
                        assert(q.subrange(i, n + 1)[n - i] == t);
                    } else {
                        assert(w2[m - 1] == t);
                    }
                }
                assert(closes_cycle(g, q, w2, t, i));
            }
        }
    }
}

/// A node met again on a path that runs along edges of `g` closes a cycle of `g`.
proof fn lemma_detected_cycle(g: Map<u64, Set<u64>>, p: Seq<u64>, x: u64, j: int)
    requires
        chain_from(g, p, 0),
        repeats_only_adjacent(p),
        nearest_before_head(p, x, j),
        has_edge(g, p.last(), x),
    ensures
        !acyclic(g),
{
    let n = p.len() as int;
    if !acyclic(g) {
        return;
    }
    assert forall|a: int, b: int| 0 <= a < n && 0 <= b < n && a != b implies p[a] != p[b] by {
        if p[a] == p[b] {
            let lo = if a < b { a } else { b };
            assert(p[lo + 1] == p[lo]);
            assert(has_edge(g, p[lo], p[lo + 1]));
            let c = seq![p[lo]];
            assert(is_cycle(g, c));
        }
    }
    let c = p.subrange(j, n);
    assert forall|k: int| 0 <= k < c.len() - 1 implies has_edge(g, c[k], #[trigger] c[k + 1]) by {
        let i = j + k;
        assert(c[k] == p[i]);
        assert(c[k + 1] == p[i + 1]);
        assert(has_edge(g, p[i], p[i + 1]));
    }
    assert(c.last() == p.last());
    assert(is_cycle(g, c));
}

/// Once an edge of the cycle that `x` closes on the path is gone, `x` is handled.
proof fn lemma_cut_after_removal(g: Map<u64, Set<u64>>, p: Seq<u64>, x: u64, j: int, m: int)
    requires
        nearest_before_head(p, x, j),
        j <= m < p.len(),
        !has_edge(g, p[m], if m < p.len() - 1 { p[m + 1] } else { x }),
    ensures
        leaf_handled(g, p, x),
{
    assert(exists|k: int| 0 <= k < p.len() - 1 && p[k] == x);
    assert forall|jj: int|
        0 <= jj < p.len() - 1 && p[jj] == x implies !(chain_from(g, p, jj) && has_edge(g, p.last(), x)) by {
        assert(jj <= j);
        if chain_from(g, p, jj) && has_edge(g, p.last(), x) {
            if m < p.len() - 1 {
                assert(has_edge(g, p[m], p[m + 1]));
            }
        }
    }
}

/// 0 when the path ends with the same node twice, 1 otherwise.
pub open spec fn ends_doubled(p: Seq<u64>) -> int {
    if p.len() >= 2 && p[p.len() - 1] == p[p.len() - 2] {
        0
    } else {
        1
    }
}

/// The nodes of a path within the nodes of the graph are no more than those.
proof fn lemma_path_set_bounded(p: Seq<u64>, dom: Set<u64>)
    requires
        dom.finite(),
        forall|k: int| 0 <= k < p.len() ==> dom.contains(#[trigger] p[k]),
    ensures
        p.to_set().finite(),
        p.to_set().len() <= dom.len(),
{
    assert(p.to_set().subset_of(dom));
    vstd::set_lib::lemma_len_subset(p.to_set(), dom);
}

impl ExecutionGraph {
    /// Searches the graph from the end of `current_path`, or, with no path, from every
    /// node that depends on nothing, along the nodes that depend on the one reached.
    /// Each node met is added to `seen_list`. When a node met already stands on the path
    /// before its head, the path from there back to the head closes a cycle, and the
    /// edge out of the node of greatest priority on that cycle is removed; otherwise
    /// the search goes on from that node. Every edge removed lies on a closed walk,
    /// along edges of the graph and steps of the path, on which no node has a
    /// greater priority than the node the edge leaves, and ends at a node that has
    /// been seen or stands on the path. Every node that depends on the head (with no
    /// path, every node that depends on nothing) is seen, and so is every node that
    /// depends on a node the search went on from, unless it stands on the path.
    /// When the path is one that a search builds (see [`orderly_path`]), no cycle
    /// that runs through a node first seen here is left, and a graph without cycles
    /// along which the path runs is left as it is.
    pub fn construct_paths(
        nodes: &mut HashMap<u64, (HashSet<u64>, u64)>,
        current_path: Option<Rc<Node>>,
        seen_list: &mut HashSet<u64>,
    )
        requires
            forall|k: int|
                0 <= k < path_of(current_path).len() ==> old(nodes)@.contains_key(
                    #[trigger] path_of(current_path)[k],
                ),
        ensures
            final(nodes)@.dom() == old(nodes)@.dom(),
            priorities_of(final(nodes)@) == priorities_of(old(nodes)@),
            edges_within(deps_of(final(nodes)@), deps_of(old(nodes)@)),
            old(seen_list)@.subset_of(final(seen_list)@),
            final(seen_list)@.subset_of(old(seen_list)@.union(old(nodes)@.dom())),
            forall|y: u64|
                #![trigger old(nodes)@.contains_key(y)]
                old(nodes)@.contains_key(y) && found_from(old(nodes)@[y].0@, path_head(path_of(current_path)))
                    ==> final(seen_list)@.contains(y),
            forall|x: u64, y: u64|
                searched(path_of(current_path), old(seen_list)@, final(seen_list)@, x) && #[trigger] has_edge(
                    deps_of(old(nodes)@),
                    x,
                    y,
                ) ==> final(seen_list)@.contains(y) || path_of(current_path).contains(y),
            forall|a: u64, b: u64|
                #[trigger] has_edge(deps_of(old(nodes)@), a, b) && !has_edge(deps_of(final(nodes)@), a, b)
                    ==> final(seen_list)@.contains(b) || path_of(current_path).contains(b),
            orderly_path(path_of(current_path), old(seen_list)@) && path_of(current_path).len() >= 1
                ==> no_cycle_closes(deps_of(final(nodes)@), path_of(current_path)),
            orderly_path(path_of(current_path), old(seen_list)@) ==> fresh_cycles_avoid(
                deps_of(final(nodes)@),
                old(seen_list)@,
                final(seen_list)@,
            ),
            orderly_path(path_of(current_path), old(seen_list)@) && acyclic(deps_of(old(nodes)@))
                && chain_from(deps_of(old(nodes)@), path_of(current_path), 0) ==> deps_of(final(nodes)@)
                == deps_of(old(nodes)@),
            cuts_justified(
                deps_of(final(nodes)@),
                deps_of(old(nodes)@),
                path_of(current_path),
                priorities_of(old(nodes)@),
            ),
        decreases old(nodes)@.dom().len() - path_of(current_path).to_set().len(),
            ends_doubled(path_of(current_path)),
    {
        let ghost p = path_of(current_path);
        let ghost g0 = deps_of(nodes@);
        let ghost s0 = seen_list@;
        let ghost nodes0 = nodes@;
        let ghost good = orderly_path(p, s0);
        let head: Option<u64> = match &current_path {
            Some(step) => Some(*step.data()),
            None => None,
        };
        proof {
            if let Some(step) = &current_path {
                step.lemma_path_ends_here();
            }
        }
        let leaves = dependents_of(nodes, head);
        proof {
            if p.len() >= 1 {
                assert forall|x: u64| has_edge(g0, p.last(), x) implies leaves@.contains(x) by {
                    assert(nodes@.contains_key(x));
                }
            }
        }
        let mut idx: usize = 0;
        while idx < leaves.len()
            invariant
                p == path_of(current_path),
                nodes0 == old(nodes)@,
                s0 == old(seen_list)@,
                g0 == deps_of(nodes0),
                head == (if p.len() >= 1 { Some(p.last()) } else { None::<u64> }),
                leaves@.no_duplicates(),
                forall|x: u64|
                    #![trigger leaves@.contains(x)]
                    leaves@.contains(x) <==> nodes0.contains_key(x) && found_from(nodes0[x].0@, head),
                forall|k: int| 0 <= k < p.len() ==> nodes0.contains_key(#[trigger] p[k]),
                good == orderly_path(p, s0),
                idx <= leaves.len(),
                nodes@.dom() == nodes0.dom(),
                priorities_of(nodes@) == priorities_of(nodes0),
                edges_within(deps_of(nodes@), g0),
                s0.subset_of(seen_list@),
                seen_list@.subset_of(s0.union(nodes0.dom())),
                good && p.len() >= 1 ==> forall|j: int|
                    0 <= j < idx ==> leaf_handled(deps_of(nodes@), p, #[trigger] leaves@[j]),
                good ==> fresh_cycles_avoid(deps_of(nodes@), s0, seen_list@),
                good && acyclic(g0) && chain_from(g0, p, 0) ==> deps_of(nodes@) == g0,
                forall|j: int| 0 <= j < idx ==> seen_list@.contains(#[trigger] leaves@[j]),
                forall|x: u64, y: u64|
                    seen_list@.contains(x) && !s0.contains(x) && !p.contains(x) && #[trigger] has_edge(g0, x, y)
                        ==> seen_list@.contains(y) || p.contains(y),
                forall|a: u64, b: u64|
                    #[trigger] has_edge(g0, a, b) && !has_edge(deps_of(nodes@), a, b) ==> seen_list@.contains(b)
                        || p.contains(b),
                cuts_justified(deps_of(nodes@), g0, p, priorities_of(nodes0)),
            decreases leaves.len() - idx,
        {
            let leaf = leaves[idx];
            let ghost g_before = deps_of(nodes@);
            let ghost s_before = seen_list@;
            proof {
                assert(leaves@.contains(leaf));
            }
            seen_list.insert(leaf);
            let found = Self::find_max_priority_in_cycle(nodes, &current_path, &leaf);
            match found {
                Some((max, child_of_max)) => {
                    let target = match child_of_max {
                        Some(child) => child,
                        None => leaf,
                    };
                    let ghost (j, m) = choose|j: int, m: int|
                        {
                            &&& nearest_before_head(p, leaf, j)
                            &&& heaviest_from(priorities_of(nodes@), p, j, m)
                            &&& max == p[m]
                            &&& child_of_max == if m < p.len() - 1 {
                                Some(p[m + 1])
                            } else {
                                None
                            }
                        };
                    proof {
                        assert(nodes@.contains_key(target));
                        if good && acyclic(g0) && chain_from(g0, p, 0) {
                            lemma_detected_cycle(g0, p, leaf, j);
                        }
                    }
                    let mut entry = nodes.remove(&target).unwrap();
                    entry.0.remove(&max);
                    nodes.insert(target, entry);
                    proof {
                        let g_after = deps_of(nodes@);
                        assert(g_after.dom() =~= g_before.dom());
                        assert forall|k: u64| #[trigger] g_after.contains_key(k) implies g_after[k].subset_of(
                            g0[k],
                        ) by {
                            assert(g_before[k].subset_of(g0[k]));
                        }
                        assert(priorities_of(nodes@) =~= priorities_of(nodes0));
                        assert(!has_edge(g_after, max, target));
                        assert(!has_edge(g_after, p[m], if m < p.len() - 1 { p[m + 1] } else { leaf }));
                        lemma_cut_after_removal(g_after, p, leaf, j, m);
                        if good {
                            assert forall|jj: int| 0 <= jj < idx + 1 implies leaf_handled(
                                g_after,
                                p,
                                #[trigger] leaves@[jj],
                            ) by {
                                if jj < idx {
                                    lemma_leaf_handled_mono(g_after, g_before, p, leaves@[jj]);
                                }
                            }
                            lemma_fresh_mono(g_after, g_before, s0, s_before);
                            assert(s_before.contains(leaf));
                            assert(seen_list@ =~= s_before);
                        }
                        assert(before_head(p, leaf));
                        assert(p.contains(leaf));
                        assert forall|x: u64, y: u64|
                            seen_list@.contains(x) && !s0.contains(x) && !p.contains(x) && #[trigger] has_edge(
                                g0,
                                x,
                                y,
                            ) implies seen_list@.contains(y) || p.contains(y) by {
                            assert(s_before.contains(x));
                        }
                        assert forall|a: u64, b: u64|
                            #[trigger] has_edge(g0, a, b) && !has_edge(g_after, a, b) implies seen_list@.contains(b)
                                || p.contains(b) by {
                            if a == max && b == target {
                                if m < p.len() - 1 {
                                    assert(p[m + 1] == b);
                                }
                            } else {
                                assert(!has_edge(g_before, a, b));
                            }
                        }
                        assert(found_from(nodes0[leaf].0@, head));
                        assert(has_edge(g0, p.last(), leaf));
                        assert forall|a: u64, b: u64|
                            has_edge(g0, a, b) && !has_edge(g_after, a, b) implies #[trigger] cut_justified(
                            g0,
                            p,
                            priorities_of(nodes0),
                            a,
                            b,
                        ) by {
                            if a == max && b == target {
                                lemma_cycle_cut_justified(g0, p, priorities_of(nodes0), leaf, j, m);
                            } else {
                                assert(!has_edge(g_before, a, b));
                            }
                        }
                    }
                },
                None => {
                    let new_current_path = match &current_path {
                        Some(step) => Node::new(Some(Rc::clone(step)), leaf),
                        None => Node::new(None, leaf),
                    };
                    let ghost q = p.push(leaf);
                    proof {
                        assert(new_current_path.path() == q);
                        assert forall|k: int| 0 <= k < q.len() implies nodes@.contains_key(#[trigger] q[k]) by {
                            if k < p.len() {
                                assert(q[k] == p[k]);
                            }
                        }
                        if good {
                            assert forall|k: int| 0 <= k < q.len() implies seen_list@.contains(#[trigger] q[k]) by {
                                if k < p.len() {
                                    assert(q[k] == p[k]);
                                }
                            }
                            assert(repeats_only_adjacent(q));
                            assert(orderly_path(q, seen_list@));
                        }
                        lemma_path_set_bounded(p, nodes@.dom());
                        lemma_path_set_bounded(q, nodes@.dom());
                        p.lemma_push_to_set_commute(leaf);
                        assert(q.to_set() =~= p.to_set().insert(leaf));
                        if p.contains(leaf) {
                            let k = choose|k: int| 0 <= k < p.len() && p[k] == leaf;
                            assert(k == p.len() - 1);
                            assert(ends_doubled(p) == 1);
                            assert(p.to_set().insert(leaf) =~= p.to_set());
                        }
                    }
                    let next_step = Some(Rc::new(new_current_path));
                    proof {
                        assert(path_of(next_step) == q);
                        if !p.contains(leaf) {
                            assert(!p.to_set().contains(leaf));
                            assert(q.to_set().len() == p.to_set().len() + 1);
                        } else {
                            assert(q.to_set() == p.to_set());
                            assert(q[q.len() - 1] == q[q.len() - 2]);
                            assert(ends_doubled(q) == 0);
                        }
                        assert(nodes@.dom().len() - q.to_set().len() >= 0);
                        assert(nodes@.dom().len() == nodes0.dom().len());
                    }
                    Self::construct_paths(nodes, next_step, seen_list);
                    proof {
                        let g_after = deps_of(nodes@);
                        let prio0 = priorities_of(nodes0);
                        if p.len() >= 1 {
                            assert(found_from(nodes0[leaf].0@, head));
                            assert(has_edge(g0, p.last(), leaf));
                        }
                        lemma_push_steps(g0, p, leaf);
                        lemma_edges_within_has_edge(g_before, g0);
                        assert forall|a: u64, b: u64|
                            has_edge(g0, a, b) && !has_edge(g_after, a, b) implies #[trigger] cut_justified(
                            g0,
                            p,
                            prio0,
                            a,
                            b,
                        ) by {
                            if has_edge(g_before, a, b) {
                                assert(cut_justified(g_before, q, prio0, a, b));
                                lemma_justified_widen(g_before, q, g0, p, prio0, a, b);
                            }
                        }
                        if good {
                            lemma_fresh_step(g_before, g_after, s0, s_before, leaf, seen_list@, p);
                        }
                        if good && p.len() >= 1 {
                            assert forall|jj: int| 0 <= jj < idx + 1 implies leaf_handled(
                                g_after,
                                p,
                                #[trigger] leaves@[jj],
                            ) by {
                                if jj < idx {
                                    lemma_leaf_handled_mono(g_after, g_before, p, leaves@[jj]);
                                }
                            }
                        }
                        if good && acyclic(g0) && chain_from(g0, p, 0) {
                            assert forall|k: int| 0 <= k < q.len() - 1 implies has_edge(
                                g_before,
                                q[k],
                                #[trigger] q[k + 1],
                            ) by {
                                if k < p.len() - 1 {
                                    assert(has_edge(g0, p[k], p[k + 1]));
                                } else {
                                    assert(found_from(nodes0[leaf].0@, head));
                                }
                            }
                        }
                    }
                },
            }
            idx = idx + 1;
        }
        proof {
            if good && p.len() >= 1 {
                lemma_all_leaves_handled(deps_of(nodes@), g0, p, leaves@);
            }
            assert forall|y: u64|
                #![trigger nodes0.contains_key(y)]
                nodes0.contains_key(y) && found_from(nodes0[y].0@, path_head(p)) implies seen_list@.contains(y) by {
                assert(leaves@.contains(y));
                let j = choose|j: int| 0 <= j < leaves@.len() && leaves@[j] == y;
            }
            assert forall|x: u64, y: u64|
                searched(p, s0, seen_list@, x) && #[trigger] has_edge(g0, x, y) implies seen_list@.contains(y)
                    || p.contains(y) by {
                if path_head(p) == Some(x) {
                    assert(nodes0.contains_key(y));
                    assert(seen_list@.contains(y));
                } else {
                    if p.contains(x) {
                        let k = choose|k: int| 0 <= k < p.len() && p[k] == x;
                        if k < p.len() - 1 {
                            assert(before_head(p, x));
                        }
                    }
                }
            }
        }
    }
}

/// The node of greatest priority among those not in `seen`, the last one met
/// among equals; `None` when every node is in `seen`.
fn heaviest_unseen(nodes: &HashMap<u64, (HashSet<u64>, u64)>, seen: &HashSet<u64>) -> (r: Option<u64>)
    ensures
        match r {
            None => nodes@.dom().subset_of(seen@),
            Some(d) => {
                &&& nodes@.contains_key(d)
                &&& !seen@.contains(d)
                &&& forall|k: u64|
                    #![trigger nodes@[k]]
                    nodes@.contains_key(k) && !seen@.contains(k) ==> nodes@[k].1 <= nodes@[d].1
            },
        },
{
    let mut best: Option<(u64, u64)> = None;
    for k in it: nodes.keys()
        invariant
            it.seq() == vstd::std_specs::hash::spec_keys_iter(nodes).remaining(),
            match best {
                Some((d, pd)) => {
                    &&& nodes@.contains_key(d)
                    &&& !seen@.contains(d)
                    &&& pd == nodes@[d].1
                    &&& forall|i: int|
                        0 <= i < it.index() && !seen@.contains(*it.seq()[i]) ==> nodes@[*it.seq()[i]].1
                            <= pd
                },
                None => forall|i: int| 0 <= i < it.index() ==> seen@.contains(*it.seq()[i]),
            },
    {
        let ghost idx = it.index();
        proof {
            assert(it.seq()[idx] == k);
        }
        if !seen.contains(k) {
            let priority = nodes.get(k).unwrap().1;
            best = match best {
                None => Some((*k, priority)),
                Some((d, best_priority)) => if priority >= best_priority {
                    Some((*k, priority))
                } else {
                    Some((d, best_priority))
                },
            };
        }
    }
    match best {
        Some((d, _)) => {
            proof {
                assert forall|k: u64|
                    #![trigger nodes@[k]]
                    nodes@.contains_key(k) && !seen@.contains(k) implies nodes@[k].1 <= nodes@[d].1 by {
                    let keys = vstd::std_specs::hash::spec_keys_iter(nodes).remaining();
                    assert(keys.unref().to_set().contains(k));
                    let i = choose|i: int| 0 <= i < keys.unref().len() && keys.unref()[i] == k;
                    assert(*keys[i] == k);
                }
            }
            Some(d)
        },
        None => {
            proof {
                assert forall|k: u64| nodes@.contains_key(k) implies seen@.contains(k) by {
                    let keys = vstd::std_specs::hash::spec_keys_iter(nodes).remaining();
                    assert(keys.unref().to_set().contains(k));
                    let i = choose|i: int| 0 <= i < keys.unref().len() && keys.unref()[i] == k;
                    assert(*keys[i] == k);
                }
            }
            None
        },
    }
}

impl ExecutionGraph {
    /// Removes edges until no cycle is left: a search first from every node that
    /// depends on nothing, then, while some node has not been met, from the one of
    /// greatest priority among those not met yet (see [`construct_paths`]).
    /// `data_world` must hold exactly the nodes of `nodes`. Every edge removed lies
    /// on a closed walk of the graph on which no node has a greater priority than
    /// the node the edge leaves: a cycle loses the edge out of its heaviest node.
    pub fn break_cycles(nodes: &mut HashMap<u64, (HashSet<u64>, u64)>, data_world: &HashSet<u64>)
        requires
            data_world@ == old(nodes)@.dom(),
        ensures
            final(nodes)@.dom() == old(nodes)@.dom(),
            priorities_of(final(nodes)@) == priorities_of(old(nodes)@),
            edges_within(deps_of(final(nodes)@), deps_of(old(nodes)@)),
            acyclic(deps_of(final(nodes)@)),
            acyclic(deps_of(old(nodes)@)) ==> deps_of(final(nodes)@) == deps_of(old(nodes)@),
            cuts_justified(
                deps_of(final(nodes)@),
                deps_of(old(nodes)@),
                Seq::empty(),
                priorities_of(old(nodes)@),
            ),
    {
        let ghost nodes0 = nodes@;
        let mut seen: HashSet<u64> = HashSet::new();
        proof {
            assert(path_of(None) == Seq::<u64>::empty());
        }
        Self::construct_paths(nodes, None, &mut seen);
        while seen.len() != data_world.len()
            invariant
                nodes0 == old(nodes)@,
                data_world@ == nodes0.dom(),
                nodes@.dom() == nodes0.dom(),
                priorities_of(nodes@) == priorities_of(nodes0),
                edges_within(deps_of(nodes@), deps_of(nodes0)),
                seen@.subset_of(nodes0.dom()),
                fresh_cycles_avoid(deps_of(nodes@), Set::empty(), seen@),
                acyclic(deps_of(nodes0)) ==> deps_of(nodes@) == deps_of(nodes0),
                cuts_justified(deps_of(nodes@), deps_of(nodes0), Seq::empty(), priorities_of(nodes0)),
            decreases nodes0.dom().len() - seen@.len(),
        {
            proof {
                vstd::set_lib::lemma_len_subset(seen@, nodes0.dom());
            }
            let best = heaviest_unseen(nodes, &seen);
            match best {
                Some(data) => {
                    let ghost g_before = deps_of(nodes@);
                    let ghost s_before = seen@;
                    seen.insert(data);
                    let start = Some(Rc::new(Node::new(None, data)));
                    proof {
                        assert(path_of(start) =~= Seq::<u64>::empty().push(data));
                        assert(repeats_only_adjacent(path_of(start)));
                    }
                    Self::construct_paths(nodes, start, &mut seen);
                    proof {
                        lemma_fresh_step(
                            g_before,
                            deps_of(nodes@),
                            Set::empty(),
                            s_before,
                            data,
                            seen@,
                            Seq::empty(),
                        );
                        assert(seen@.subset_of(nodes0.dom()));
                        let g0 = deps_of(nodes0);
                        let prio0 = priorities_of(nodes0);
                        let g_after = deps_of(nodes@);
                        lemma_push_steps(g0, Seq::empty(), data);
                        assert(Seq::<u64>::empty().push(data) == path_of(start));
                        lemma_edges_within_has_edge(g_before, g0);
                        assert forall|a: u64, b: u64|
                            has_edge(g0, a, b) && !has_edge(g_after, a, b) implies #[trigger] cut_justified(
                            g0,
                            Seq::empty(),
                            prio0,
                            a,
                            b,
                        ) by {
                            if has_edge(g_before, a, b) {
                                assert(cut_justified(g_before, path_of(start), prio0, a, b));
                                lemma_justified_widen(g_before, path_of(start), g0, Seq::empty(), prio0, a, b);
                            }
                        }
                        vstd::set_lib::lemma_len_subset(s_before.insert(data), seen@);
                        vstd::set_lib::lemma_len_subset(seen@, nodes0.dom());
                    }
                },
                None => {
                    proof {
                        assert(seen@ =~= nodes0.dom());
                    }
                },
            }
        }
        proof {
            vstd::set_lib::lemma_len_subset(seen@, nodes0.dom());
            vstd::set_lib::lemma_subset_equality(seen@, nodes0.dom());
            let g = deps_of(nodes@);
            assert forall|c: Seq<u64>| !#[trigger] is_cycle(g, c) by {
                if is_cycle(g, c) {
                    assert(g.contains_key(c[0]));
                    assert(avoids(c, Set::empty()));
                    assert(seen@.contains(c[0]));
                }
            }
        }
    }
}

/// `entry` declares that `x` runs after `d`: it is the entry of `x` and asks to
/// run after `d`, or it is the entry of `d` and asks to run before `x`.
pub open spec fn declares(entry: (u64, ProcessorOrdering), x: u64, d: u64) -> bool {
    ||| entry.0 == x && entry.1.after().contains(d)
    ||| entry.0 == d && entry.1.before().contains(x)
}

/// The dependencies that the entries of `input` declare for `x`.
pub open spec fn declared_deps(input: Seq<(u64, ProcessorOrdering)>, x: u64) -> Set<u64> {
    Set::new(|d: u64| exists|i: int| 0 <= i < input.len() && #[trigger] declares(input[i], x, d))
}

/// The nodes that have an entry in `input`.
pub open spec fn declared_ids(input: Seq<(u64, ProcessorOrdering)>) -> Set<u64> {
    Set::new(|x: u64| exists|i: int| 0 <= i < input.len() && #[trigger] input[i].0 == x)
}

/// The priority key of the last entry of `x` in `input`.
pub open spec fn declared_priority(input: Seq<(u64, ProcessorOrdering)>, x: u64) -> u64
    decreases input.len(),
{
    if input.len() == 0 {
        0
    } else if input.last().0 == x {
        input.last().1.priority()
    } else {
        declared_priority(input.drop_last(), x)
    }
}

/// `entry` is the entry of `x` or asks to run before `x`.
pub open spec fn names(entry: (u64, ProcessorOrdering), x: u64) -> bool {
    entry.0 == x || entry.1.before().contains(x)
}

/// The nodes named by `input`, with an entry or as a node some entry runs before.
pub open spec fn named_ids(input: Seq<(u64, ProcessorOrdering)>) -> Set<u64> {
    Set::new(|x: u64| exists|i: int| 0 <= i < input.len() && #[trigger] names(input[i], x))
}

pub(crate) proof fn lemma_declared_step(input: Seq<(u64, ProcessorOrdering)>, e: (u64, ProcessorOrdering))
    ensures
        forall|x: u64|
            #[trigger] declared_deps(input.push(e), x) == declared_deps(input, x).union(
                Set::new(|d: u64| declares(e, x, d)),
            ),
        declared_ids(input.push(e)) == declared_ids(input).insert(e.0),
        named_ids(input.push(e)) == named_ids(input).insert(e.0).union(e.1.before()),
        forall|x: u64|
            #[trigger] declared_priority(input.push(e), x) == if e.0 == x {
                e.1.priority()
            } else {
                declared_priority(input, x)
            },
{
    let q = input.push(e);
    assert(q.drop_last() == input);
    assert forall|x: u64|
        #[trigger] declared_deps(q, x) == declared_deps(input, x).union(
            Set::new(|d: u64| declares(e, x, d)),
        ) by {
        assert forall|d: u64|
            declared_deps(q, x).contains(d) <==> declared_deps(input, x).union(
                Set::new(|d: u64| declares(e, x, d)),
            ).contains(d) by {
            if declared_deps(q, x).contains(d) {
                let i = choose|i: int| 0 <= i < q.len() && #[trigger] declares(q[i], x, d);
                if i < input.len() {
                    assert(q[i] == input[i]);
                }
            }
            if declared_deps(input, x).contains(d) {
                let i = choose|i: int| 0 <= i < input.len() && #[trigger] declares(input[i], x, d);
                assert(q[i] == input[i]);
            }
            if declares(e, x, d) {
                assert(q[input.len() as int] == e);
            }
        }
        assert(declared_deps(q, x) =~= declared_deps(input, x).union(
            Set::new(|d: u64| declares(e, x, d)),
        ));
    }
    assert forall|x: u64| declared_ids(q).contains(x) <==> declared_ids(input).insert(e.0).contains(x) by {
        if declared_ids(q).contains(x) {
            let i = choose|i: int| 0 <= i < q.len() && #[trigger] q[i].0 == x;
            if i < input.len() {
                assert(q[i] == input[i]);
            }
        }
        if declared_ids(input).contains(x) {
            let i = choose|i: int| 0 <= i < input.len() && #[trigger] input[i].0 == x;
            assert(q[i] == input[i]);
        }
        if x == e.0 {
            assert(q[input.len() as int].0 == x);
        }
    }
    assert(declared_ids(q) =~= declared_ids(input).insert(e.0));
    assert forall|x: u64|
        named_ids(q).contains(x) <==> named_ids(input).insert(e.0).union(e.1.before()).contains(x) by {
        if named_ids(q).contains(x) {
            let i = choose|i: int| 0 <= i < q.len() && #[trigger] names(q[i], x);
            if i < input.len() {
                assert(q[i] == input[i]);
            }
        }
        if named_ids(input).contains(x) {
            let i = choose|i: int| 0 <= i < input.len() && #[trigger] names(input[i], x);
            assert(q[i] == input[i]);
            assert(names(q[i], x));
        }
        if x == e.0 || e.1.before().contains(x) {
            assert(q[input.len() as int] == e);
            assert(names(q[input.len() as int], x));
        }
    }
    assert(named_ids(q) =~= named_ids(input).insert(e.0).union(e.1.before()));
}

/// Adds `value` to the set under `key`, starting from an empty set when there is none.
fn add_to_entry(map: &mut HashMap<u64, HashSet<u64>>, key: u64, value: u64)
    requires
        forall|k: u64| #[trigger] old(map)@.contains_key(k) ==> old(map)@[k]@.finite(),
    ensures
        sets_of(final(map)@) == sets_of(old(map)@).insert(
            key,
            if old(map)@.contains_key(key) {
                old(map)@[key]@
            } else {
                Set::empty()
            }.insert(value),
        ),
        forall|k: u64| #[trigger] final(map)@.contains_key(k) ==> final(map)@[k]@.finite(),
{
    let mut set = match map.remove(&key) {
        Some(set) => set,
        None => HashSet::new(),
    };
    set.insert(value);
    map.insert(key, set);
    proof {
        assert(sets_of(map@) =~= sets_of(old(map)@).insert(
            key,
            if old(map)@.contains_key(key) {
                old(map)@[key]@
            } else {
                Set::empty()
            }.insert(value),
        ));
    }
}

/// Adds every element of `values` to the set under `key`, starting from an empty
/// set when there is none.
fn extend_entry(map: &mut HashMap<u64, HashSet<u64>>, key: u64, values: &HashSet<u64>)
    requires
        forall|k: u64| #[trigger] old(map)@.contains_key(k) ==> old(map)@[k]@.finite(),
    ensures
        sets_of(final(map)@) == sets_of(old(map)@).insert(
            key,
            if old(map)@.contains_key(key) {
                old(map)@[key]@
            } else {
                Set::empty()
            }.union(values@),
        ),
        forall|k: u64| #[trigger] final(map)@.contains_key(k) ==> final(map)@[k]@.finite(),
{
    let ghost base: Set<u64> = if map@.contains_key(key) {
        map@[key]@
    } else {
        Set::empty()
    };
    let mut set = match map.remove(&key) {
        Some(set) => set,
        None => HashSet::new(),
    };
    for v in it: values.iter()
        invariant
            it.seq() == vstd::std_specs::hash::spec_hash_keys_iter(values).remaining(),
            set@.finite(),
            forall|y: u64|
                #![trigger set@.contains(y)]
                set@.contains(y) <==> base.contains(y) || (exists|i: int|
                    0 <= i < it.index() && *it.seq()[i] == y),
    {
        let ghost idx = it.index();
        proof {
            assert(it.seq()[idx] == v);
        }
        set.insert(*v);
        proof {
            assert forall|y: u64|
                #![trigger set@.contains(y)]
                set@.contains(y) <==> base.contains(y) || (exists|i: int|
                    0 <= i < idx + 1 && *it.seq()[i] == y) by {
                if y != *v && (exists|i: int| 0 <= i < idx + 1 && *it.seq()[i] == y) {
                    let i = choose|i: int| 0 <= i < idx + 1 && *it.seq()[i] == y;
                    assert(i < idx);
                }
            }
        }
    }
    proof {
        let keys = vstd::std_specs::hash::spec_hash_keys_iter(values).remaining();
        assert forall|y: u64| set@.contains(y) <==> base.union(values@).contains(y) by {
            if values@.contains(y) {
                assert(keys.unref().to_set().contains(y));
                let i = choose|i: int| 0 <= i < keys.unref().len() && keys.unref()[i] == y;
                assert(*keys[i] == y);
            }
            if set@.contains(y) && !base.contains(y) {
                let i = choose|i: int| 0 <= i < keys.len() && *keys[i] == y;
                assert(keys.unref()[i] == y);
                assert(keys.unref().to_set().contains(y));
            }
        }
        assert(set@ =~= base.union(values@));
    }
    map.insert(key, set);
    proof {
        assert(sets_of(map@) =~= sets_of(old(map)@).insert(key, base.union(values@)));
    }
}

impl ExecutionGraph {
    /// Turns each entry's requests into dependencies: a node depends on every node it
    /// asks to run after and on every node whose entry asks to run before it. The
    /// priority kept for a node is that of its last entry.
    pub fn flatten_befores_into_afters(nodes: Vec<(u64, ProcessorOrdering)>) -> (r: HashMap<
        u64,
        (HashSet<u64>, u64),
    >)
        ensures
            r@.dom() == declared_ids(nodes@),
            forall|x: u64|
                #[trigger] r@.contains_key(x) ==> {
                    &&& r@[x].0@ == declared_deps(nodes@, x)
                    &&& r@[x].0@.finite()
                    &&& r@[x].1 == declared_priority(nodes@, x)
                },
    {
        let ghost input = nodes@;
        let mut node_assert_afters_map: HashMap<u64, HashSet<u64>> = HashMap::new();
        let mut node_priority_map: HashMap<u64, u64> = HashMap::new();
        proof {
            assert(sets_of(node_assert_afters_map@) =~= Map::empty());
            assert(named_ids(input.take(0)) =~= Set::empty());
            assert(declared_ids(input.take(0)) =~= Set::empty());
        }
        for entry in it: nodes.into_iter()
            invariant
                it.seq() == input,
                sets_of(node_assert_afters_map@).dom() == named_ids(input.take(it.index())),
                forall|x: u64|
                    #[trigger] node_assert_afters_map@.contains_key(x) ==> {
                        &&& node_assert_afters_map@[x]@ == declared_deps(input.take(it.index()), x)
                        &&& node_assert_afters_map@[x]@.finite()
                    },
                node_priority_map@.dom() == declared_ids(input.take(it.index())),
                forall|x: u64|
                    #[trigger] node_priority_map@.contains_key(x) ==> node_priority_map@[x]
                        == declared_priority(input.take(it.index()), x),
        {
            let ghost idx = it.index();
            let ghost prefix = input.take(idx);
            let ghost e = entry;
            proof {
                assert(it.seq()[idx] == entry);
                assert(input.take(idx + 1) == prefix.push(e));
                lemma_declared_step(prefix, e);
            }
            let (data, order) = entry;
            let (assert_befores, assert_afters, priority) = order.into_assert_before_assert_after_priority();
            for before in it2: assert_befores.iter()
                invariant
                    it2.seq() == vstd::std_specs::hash::spec_hash_keys_iter(&assert_befores).remaining(),
                    forall|x: u64|
                        #[trigger] node_assert_afters_map@.contains_key(x) ==> node_assert_afters_map@[x]@.finite(),
                    forall|x: u64|
                        #[trigger] node_assert_afters_map@.contains_key(x) <==> named_ids(prefix).contains(x)
                            || (exists|i: int| 0 <= i < it2.index() && *it2.seq()[i] == x),
                    forall|x: u64|
                        #[trigger] node_assert_afters_map@.contains_key(x) ==> node_assert_afters_map@[x]@
                            == declared_deps(prefix, x).union(
                            if (exists|i: int| 0 <= i < it2.index() && *it2.seq()[i] == x) {
                                Set::empty().insert(data)
                            } else {
                                Set::empty()
                            },
                        ),
            {
                let ghost idx2 = it2.index();
                let ghost before_map = node_assert_afters_map@;
                proof {
                    assert(it2.seq()[idx2] == before);
                }
                add_to_entry(&mut node_assert_afters_map, *before, data);
                proof {
                    assert(sets_of(node_assert_afters_map@).contains_key(*before));
                    assert forall|x: u64|
                        #[trigger] node_assert_afters_map@.contains_key(x) <==> named_ids(prefix).contains(x)
                            || (exists|i: int| 0 <= i < idx2 + 1 && *it2.seq()[i] == x) by {
                        assert(sets_of(node_assert_afters_map@).contains_key(x) <==> node_assert_afters_map@.contains_key(x));
                        assert(sets_of(before_map).contains_key(x) <==> before_map.contains_key(x));
                        if x != *before && (exists|i: int| 0 <= i < idx2 + 1 && *it2.seq()[i] == x) {
                            let i = choose|i: int| 0 <= i < idx2 + 1 && *it2.seq()[i] == x;
                            assert(i < idx2);
                        }
                    }
                    assert forall|x: u64|
                        #[trigger] node_assert_afters_map@.contains_key(x) implies node_assert_afters_map@[x]@
                            == declared_deps(prefix, x).union(
                            if (exists|i: int| 0 <= i < idx2 + 1 && *it2.seq()[i] == x) {
                                Set::empty().insert(data)
                            } else {
                                Set::empty()
                            },
                        ) by {
                        assert(sets_of(node_assert_afters_map@).contains_key(x));
                        assert(node_assert_afters_map@[x]@ == sets_of(node_assert_afters_map@)[x]);
                        if x == *before {
                            assert(*it2.seq()[idx2] == x);
                            if before_map.contains_key(x) {
                                assert(sets_of(before_map)[x] == before_map[x]@);
                            } else {
                                assert(!named_ids(prefix).contains(x));
                                assert(declared_deps(prefix, x) =~= Set::empty()) by {
                                    assert forall|d: u64| !declared_deps(prefix, x).contains(d) by {
                                        if declared_deps(prefix, x).contains(d) {
                                            let i = choose|i: int|
                                                0 <= i < prefix.len() && #[trigger] declares(prefix[i], x, d);
                                            assert(names(prefix[i], x));
                                        }
                                    }
                                }
                            }
                            assert(node_assert_afters_map@[x]@ =~= declared_deps(prefix, x).union(
                                Set::empty().insert(data),
                            ));
                        } else {
                            assert(before_map.contains_key(x));
                            assert(sets_of(before_map)[x] == before_map[x]@);
                            if (exists|i: int| 0 <= i < idx2 + 1 && *it2.seq()[i] == x) {
                                let i = choose|i: int| 0 <= i < idx2 + 1 && *it2.seq()[i] == x;
                                assert(i < idx2);
                            }
                        }
                    }
                }
            }
            let ghost mid_map = node_assert_afters_map@;
            proof {
                let keys = vstd::std_specs::hash::spec_hash_keys_iter(&assert_befores).remaining();
                assert forall|x: u64|
                    (exists|i: int| 0 <= i < keys.len() && *keys[i] == x) <==> assert_befores@.contains(x) by {
                    if assert_befores@.contains(x) {
                        assert(keys.unref().to_set().contains(x));
                        let i = choose|i: int| 0 <= i < keys.unref().len() && keys.unref()[i] == x;
                        assert(*keys[i] == x);
                    }
                    if exists|i: int| 0 <= i < keys.len() && *keys[i] == x {
                        let i = choose|i: int| 0 <= i < keys.len() && *keys[i] == x;
                        assert(keys.unref()[i] == x);
                        assert(keys.unref().to_set().contains(x));
                    }
                }
            }
            extend_entry(&mut node_assert_afters_map, data, &assert_afters);
            node_priority_map.insert(data, priority);
            proof {
                let q = prefix.push(e);
                assert(e.0 == data);
                assert(e.1.before() == assert_befores@);
                assert(e.1.after() == assert_afters@);
                assert(e.1.priority() == priority);
                assert forall|x: u64|
                    #[trigger] node_assert_afters_map@.contains_key(x) <==> named_ids(q).contains(x) by {
                    assert(sets_of(node_assert_afters_map@).contains_key(x) <==> node_assert_afters_map@.contains_key(x));
                    assert(sets_of(mid_map).contains_key(x) <==> mid_map.contains_key(x));
                }
                assert(sets_of(node_assert_afters_map@).dom() =~= named_ids(q));
                assert forall|x: u64|
                    #[trigger] node_assert_afters_map@.contains_key(x) implies {
                        &&& node_assert_afters_map@[x]@ == declared_deps(q, x)
                        &&& node_assert_afters_map@[x]@.finite()
                    } by {
                    assert(sets_of(node_assert_afters_map@).contains_key(x));
                    assert(node_assert_afters_map@[x]@ == sets_of(node_assert_afters_map@)[x]);
                    let extra = Set::new(|d: u64| declares(e, x, d));
                    let from_before: Set<u64> = if assert_befores@.contains(x) {
                        Set::empty().insert(data)
                    } else {
                        Set::empty()
                    };
                    let base: Set<u64> = if mid_map.contains_key(x) {
                        mid_map[x]@
                    } else {
                        Set::empty()
                    };
                    if mid_map.contains_key(x) {
                        assert(sets_of(mid_map)[x] == mid_map[x]@);
                        assert(base == declared_deps(prefix, x).union(from_before));
                    } else {
                        assert(!named_ids(prefix).contains(x));
                        assert(!assert_befores@.contains(x));
                        assert(declared_deps(prefix, x) =~= Set::empty()) by {
                            assert forall|d: u64| !declared_deps(prefix, x).contains(d) by {
                                if declared_deps(prefix, x).contains(d) {
                                    let i = choose|i: int|
                                        0 <= i < prefix.len() && #[trigger] declares(prefix[i], x, d);
                                    assert(names(prefix[i], x));
                                }
                            }
                        }
                        assert(base =~= declared_deps(prefix, x).union(from_before));
                    }
                    if x == data {
                        assert(extra =~= from_before.union(assert_afters@));
                        assert(node_assert_afters_map@[x]@ =~= declared_deps(q, x));
                    } else {
                        assert(extra =~= from_before);
                        assert(mid_map.contains_key(x));
                        assert(node_assert_afters_map@[x]@ =~= declared_deps(q, x));
                    }
                }
                assert(node_priority_map@.dom() =~= declared_ids(q));
            }
        }
        proof {
            assert(input.take(input.len() as int) == input);
        }
        let mut new_nodes: HashMap<u64, (HashSet<u64>, u64)> = HashMap::new();
        for item in it: node_priority_map.iter()
            invariant
                forall|x: u64|
                    #[trigger] new_nodes@.contains_key(x) <==> (exists|i: int|
                        0 <= i < it.index() && *it.seq()[i].0 == x),
                forall|x: u64|
                    #[trigger] new_nodes@.contains_key(x) ==> {
                        &&& new_nodes@[x].0@ == declared_deps(input, x)
                        &&& new_nodes@[x].0@.finite()
                        &&& new_nodes@[x].1 == declared_priority(input, x)
                    },
                forall|x: u64|
                    #[trigger] node_assert_afters_map@.contains_key(x) <==> named_ids(input).contains(x)
                        && !new_nodes@.contains_key(x),
                forall|x: u64|
                    #[trigger] node_assert_afters_map@.contains_key(x) ==> {
                        &&& node_assert_afters_map@[x]@ == declared_deps(input, x)
                        &&& node_assert_afters_map@[x]@.finite()
                    },
                node_priority_map@.dom() == declared_ids(input),
                forall|x: u64|
                    #[trigger] node_priority_map@.contains_key(x) ==> node_priority_map@[x]
                        == declared_priority(input, x),
                it.seq().no_duplicates(),
                forall|i: int|
                    0 <= i < it.seq().len() ==> node_priority_map@.contains_key(*(#[trigger] it.seq()[i]).0)
                        && node_priority_map@[*it.seq()[i].0] == *it.seq()[i].1,
        {
            let (data, priority) = item;
            let ghost idx = it.index();
            proof {
                assert(it.seq()[idx] == item);
                assert(declared_ids(input).contains(*data));
                let i = choose|i: int| 0 <= i < input.len() && #[trigger] input[i].0 == *data;
                assert(names(input[i], *data));
                assert(named_ids(input).contains(*data));
                if new_nodes@.contains_key(*data) {
                    let j = choose|j: int| 0 <= j < idx && *it.seq()[j].0 == *data;
                    assert(it.seq()[j] != it.seq()[idx]);
                    assert(*it.seq()[j].1 == *it.seq()[idx].1);
                }
            }
            let assert_afters = node_assert_afters_map.remove(data).unwrap();
            new_nodes.insert(*data, (assert_afters, *priority));
            proof {
                assert forall|x: u64|
                    #[trigger] new_nodes@.contains_key(x) <==> (exists|i: int|
                        0 <= i < idx + 1 && *it.seq()[i].0 == x) by {
                    if x != *data && (exists|i: int| 0 <= i < idx + 1 && *it.seq()[i].0 == x) {
                        let i = choose|i: int| 0 <= i < idx + 1 && *it.seq()[i].0 == x;
                        assert(i < idx);
                    }
                }
            }
        }
        proof {
            let pairs = vstd::std_specs::hash::spec_hash_map_iter(&node_priority_map).remaining();
            assert forall|x: u64| new_nodes@.contains_key(x) <==> declared_ids(input).contains(x) by {
                if declared_ids(input).contains(x) {
                    assert(node_priority_map@.contains_key(x));
                    assert(pairs.contains((&x, &node_priority_map@[x])));
                    let i = choose|i: int| 0 <= i < pairs.len() && pairs[i] == (&x, &node_priority_map@[x]);
                    assert(*pairs[i].0 == x);
                }
            }
            assert(new_nodes@.dom() =~= declared_ids(input));
        }
        new_nodes
    }
}

/// The priority key of each node that has an entry in `input`, from its last
/// entry.
pub open spec fn declared_priorities(input: Seq<(u64, ProcessorOrdering)>) -> Map<u64, u64> {
    Map::new(|x: u64| declared_ids(input).contains(x), |x: u64| declared_priority(input, x))
}

/// Entries with the same nodes and priority keys, one for one, declare the same
/// priorities.
proof fn lemma_same_priorities(a: Seq<(u64, ProcessorOrdering)>, b: Seq<(u64, ProcessorOrdering)>, x: u64)
    requires
        a.len() == b.len(),
        forall|i: int| 0 <= i < a.len() ==> (#[trigger] a[i]).0 == b[i].0 && a[i].1.priority() == b[i].1.priority(),
    ensures
        declared_priority(a, x) == declared_priority(b, x),
    decreases a.len(),
{
    if a.len() > 0 {
        assert(a.last() == a[a.len() - 1]);
        lemma_same_priorities(a.drop_last(), b.drop_last(), x);
    }
}

/// The graph that the entries of `input` declare, among the nodes that have an
/// entry.
pub open spec fn declared_graph(input: Seq<(u64, ProcessorOrdering)>) -> Map<u64, Set<u64>> {
    Map::new(
        |x: u64| declared_ids(input).contains(x),
        |x: u64| declared_deps(input, x).intersect(declared_ids(input)),
    )
}

/// Two systems that each ask to run after the other: in the graph that
/// [`ExecutionGraph::new`] builds (whose results are the requirements here), the
/// edge out of the system of greater priority is cut and the edge out of the
/// other is kept, so the lighter system runs first and the heavier one after it.
/// With equal priorities at least one of the two edges is cut.
pub proof fn lemma_mutual_requests_cut_by_priority(
    g: Map<u64, Set<u64>>,
    input: Seq<(u64, ProcessorOrdering)>,
    a: u64,
    b: u64,
)
    requires
        edges_within(g, declared_graph(input)),
        acyclic(g),
        cuts_justified(g, declared_graph(input), Seq::empty(), declared_priorities(input)),
        a != b,
        has_edge(declared_graph(input), a, b),
        has_edge(declared_graph(input), b, a),
    ensures
        !(has_edge(g, a, b) && has_edge(g, b, a)),
        declared_priority(input, a) > declared_priority(input, b) ==> has_edge(g, b, a) && !has_edge(g, a, b),
{
    let prio = declared_priorities(input);
    let c = seq![a, b];
    if has_edge(g, a, b) && has_edge(g, b, a) {
        assert(is_cycle(g, c));
    }
    if declared_priority(input, a) > declared_priority(input, b) {
        if !has_edge(g, b, a) {
            assert(cut_justified(declared_graph(input), Seq::empty(), prio, b, a));
            let w = choose|w: Seq<u64>|
                #[trigger] walk_back(declared_graph(input), Seq::empty(), w, b, a) && forall|k: int|
                    0 <= k < w.len() ==> prio[#[trigger] w[k]] <= prio[b];
            assert(w[0] == a);
            assert(prio[w[0]] <= prio[b]);
            assert(declared_graph(input).contains_key(a));
            assert(declared_graph(input).contains_key(b));
            assert(false);
        }
        if has_edge(g, a, b) {
            assert(is_cycle(g, c));
        }
    }
}

/// "`x` runs before `y`", asked in an entry of `x`, and "`y` runs after `x`",
/// asked in an entry of `y`, are the same request: moving it from the one entry
/// to the other leaves the nodes, the dependencies of every node, the declared
/// graph and the priorities as they are, and with them everything that the
/// flattening of the entries, and so [`ExecutionGraph::new`], is stated to give.
pub proof fn lemma_before_is_after(
    input: Seq<(u64, ProcessorOrdering)>,
    moved: Seq<(u64, ProcessorOrdering)>,
    i: int,
    j: int,
)
    requires
        0 <= i < input.len(),
        0 <= j < input.len(),
        i != j,
        input[i].1.before().contains(input[j].0),
        moved.len() == input.len(),
        moved[i].0 == input[i].0,
        moved[i].1.before() == input[i].1.before().remove(input[j].0),
        moved[i].1.after() == input[i].1.after(),
        moved[i].1.priority() == input[i].1.priority(),
        moved[j].0 == input[j].0,
        moved[j].1.before() == input[j].1.before(),
        moved[j].1.after() == input[j].1.after().insert(input[i].0),
        moved[j].1.priority() == input[j].1.priority(),
        forall|k: int| 0 <= k < input.len() && k != i && k != j ==> moved[k] == input[k],
    ensures
        declared_ids(moved) == declared_ids(input),
        forall|x: u64| #[trigger] declared_deps(moved, x) == declared_deps(input, x),
        declared_graph(moved) == declared_graph(input),
        declared_priorities(moved) == declared_priorities(input),
{
    let xi = input[i].0;
    let yj = input[j].0;
    assert forall|k: int| 0 <= k < input.len() implies (#[trigger] moved[k]).0 == input[k].0
        && moved[k].1.priority() == input[k].1.priority() by {
        if k != i && k != j {
            assert(moved[k] == input[k]);
        }
    }
    assert forall|x: u64| declared_ids(moved).contains(x) <==> declared_ids(input).contains(x) by {
        if declared_ids(moved).contains(x) {
            let k = choose|k: int| 0 <= k < moved.len() && #[trigger] moved[k].0 == x;
            assert(input[k].0 == x);
        }
        if declared_ids(input).contains(x) {
            let k = choose|k: int| 0 <= k < input.len() && #[trigger] input[k].0 == x;
            assert(moved[k].0 == x);
        }
    }
    assert(declared_ids(moved) =~= declared_ids(input));
    assert forall|x: u64| #[trigger] declared_deps(moved, x) == declared_deps(input, x) by {
        assert forall|d: u64| declared_deps(moved, x).contains(d) <==> declared_deps(input, x).contains(d) by {
            if declared_deps(moved, x).contains(d) {
                let k = choose|k: int| 0 <= k < moved.len() && #[trigger] declares(moved[k], x, d);
                if k == j && !declares(input[j], x, d) {
                    assert(x == yj && d == xi);
                    assert(declares(input[i], x, d));
                } else if k == i {
                    assert(declares(input[i], x, d));
                } else if k != j {
                    assert(moved[k] == input[k]);
                    assert(declares(input[k], x, d));
                }
            }
            if declared_deps(input, x).contains(d) {
                let k = choose|k: int| 0 <= k < input.len() && #[trigger] declares(input[k], x, d);
                if k == i && !declares(moved[i], x, d) {
                    assert(x == yj && d == xi);
                    assert(declares(moved[j], x, d));
                } else if k == j {
                    assert(declares(moved[j], x, d));
                } else if k != i {
                    assert(moved[k] == input[k]);
                    assert(declares(moved[k], x, d));
                }
            }
        }
        assert(declared_deps(moved, x) =~= declared_deps(input, x));
    }
    assert(declared_graph(moved) =~= declared_graph(input));
    assert forall|x: u64| #[trigger] declared_priorities(moved).contains_key(x) implies declared_priorities(
        moved,
    )[x] == declared_priorities(input)[x] by {
        lemma_same_priorities(moved, input, x);
    }
    assert(declared_priorities(moved) =~= declared_priorities(input));
}

/// Cutting every entry's requests down to the nodes with an entry leaves the
/// declared graph as it is.
proof fn lemma_constrained_graph(
    input: Seq<(u64, ProcessorOrdering)>,
    c: Seq<(u64, ProcessorOrdering)>,
    w: Set<u64>,
)
    requires
        w == declared_ids(input),
        c.len() == input.len(),
        forall|i: int|
            0 <= i < c.len() ==> {
                &&& (#[trigger] c[i]).0 == input[i].0
                &&& c[i].1.before() == input[i].1.before().intersect(w)
                &&& c[i].1.after() == input[i].1.after().intersect(w)
            },
    ensures
        declared_ids(c) == w,
        forall|x: u64| w.contains(x) ==> #[trigger] declared_deps(c, x) == declared_deps(input, x).intersect(w),
{
    assert forall|x: u64| declared_ids(c).contains(x) <==> w.contains(x) by {
        if declared_ids(c).contains(x) {
            let i = choose|i: int| 0 <= i < c.len() && #[trigger] c[i].0 == x;
            assert(input[i].0 == x);
        }
        if w.contains(x) {
            let i = choose|i: int| 0 <= i < input.len() && #[trigger] input[i].0 == x;
            assert(c[i].0 == x);
        }
    }
    assert(declared_ids(c) =~= w);
    assert forall|x: u64| w.contains(x) implies #[trigger] declared_deps(c, x) == declared_deps(input, x).intersect(w) by {
        assert forall|d: u64| declared_deps(c, x).contains(d) <==> declared_deps(input, x).intersect(w).contains(d) by {
            if declared_deps(c, x).contains(d) {
                let i = choose|i: int| 0 <= i < c.len() && #[trigger] declares(c[i], x, d);
                assert(declares(input[i], x, d));
                if c[i].0 == d {
                    assert(input[i].0 == d);
                    assert(w.contains(d));
                }
            }
            if declared_deps(input, x).intersect(w).contains(d) {
                let i = choose|i: int| 0 <= i < input.len() && #[trigger] declares(input[i], x, d);
                assert(declares(c[i], x, d));
            }
        }
        assert(declared_deps(c, x) =~= declared_deps(input, x).intersect(w));
    }
}

/// The dependencies held in `m`, without the priorities.
fn into_dependency_map(m: HashMap<u64, (HashSet<u64>, u64)>) -> (out: HashMap<u64, HashSet<u64>>)
    ensures
        sets_of(out@) == deps_of(m@),
{
    let ghost m0 = m@;
    let mut m = m;
    let mut keys: Vec<u64> = Vec::new();
    for k in it: m.keys()
        invariant
            it.seq() == vstd::std_specs::hash::spec_keys_iter(&m).remaining(),
            keys@ == it.seq().take(it.index()).map_values(|r: &u64| *r),
    {
        let ghost idx = it.index();
        proof {
            assert(it.seq()[idx] == k);
        }
        keys.push(*k);
        proof {
            assert(keys@ =~= it.seq().take(idx + 1).map_values(|r: &u64| *r));
        }
    }
    let ghost all = vstd::std_specs::hash::spec_keys_iter(&m).remaining();
    proof {
        assert(all.take(all.len() as int) == all);
        assert forall|a: int, b: int| 0 <= a < keys@.len() && 0 <= b < keys@.len() && a != b implies keys@[a]
            != keys@[b] by {
            assert(all[a] != all[b]);
        }
        assert forall|k: u64| m0.contains_key(k) <==> keys@.contains(k) by {
            if m0.contains_key(k) {
                assert(all.unref().to_set().contains(k));
                let i = choose|i: int| 0 <= i < all.unref().len() && all.unref()[i] == k;
                assert(keys@[i] == k);
            }
            if keys@.contains(k) {
                let i = choose|i: int| 0 <= i < keys@.len() && keys@[i] == k;
                assert(all.unref()[i] == k);
                assert(all.unref().to_set().contains(k));
            }
        }
    }
    let mut out: HashMap<u64, HashSet<u64>> = HashMap::new();
    let mut i: usize = 0;
    while i < keys.len()
        invariant
            i <= keys@.len(),
            keys@.no_duplicates(),
            forall|k: u64| m0.contains_key(k) <==> keys@.contains(k),
            forall|k: u64|
                #[trigger] m@.contains_key(k) <==> m0.contains_key(k) && !keys@.take(i as int).contains(k),
            forall|k: u64| #[trigger] m@.contains_key(k) ==> m@[k] == m0[k],
            forall|k: u64|
                #[trigger] out@.contains_key(k) <==> keys@.take(i as int).contains(k),
            forall|k: u64| #[trigger] out@.contains_key(k) ==> out@[k]@ == m0[k].0@,
        decreases keys@.len() - i,
    {
        let k = keys[i];
        proof {
            assert(keys@.contains(k));
            if keys@.take(i as int).contains(k) {
                let j = choose|j: int| 0 <= j < i && keys@.take(i as int)[j] == k;
                assert(keys@[j] == keys@[i as int]);
            }
        }
        let (set, _) = m.remove(&k).unwrap();
        out.insert(k, set);
        proof {
            let t0 = keys@.take(i as int);
            let t1 = keys@.take(i + 1);
            assert(t1 =~= t0.push(k));
            assert forall|x: u64| t1.contains(x) <==> t0.contains(x) || x == k by {
                if t1.contains(x) {
                    let j = choose|j: int| 0 <= j < t1.len() && t1[j] == x;
                    if j < i {
                        assert(t0[j] == x);
                    }
                }
                if t0.contains(x) {
                    let j = choose|j: int| 0 <= j < t0.len() && t0[j] == x;
                    assert(t1[j] == x);
                }
                if x == k {
                    assert(t1[i as int] == x);
                }
            }
        }
        i = i + 1;
    }
    proof {
        assert(keys@.take(keys@.len() as int) == keys@);
        assert(sets_of(out@) =~= deps_of(m0));
    }
    out
}

impl ExecutionGraph {
    /// The graph that the entries of `nodes` declare among the nodes that have an
    /// entry, with edges removed where they form cycles (see
    /// [`ExecutionGraph::break_cycles`]): the result has no cycle, keeps only
    /// declared edges, is the declared graph itself when that has no cycle, and
    /// lacks only edges out of a node of greatest priority on some closed walk of
    /// the declared graph.
    pub fn new(nodes: &[(u64, ProcessorOrdering)]) -> (g: Self)
        ensures
            g@.dom() == declared_ids(nodes@),
            edges_within(g@, declared_graph(nodes@)),
            acyclic(g@),
            acyclic(declared_graph(nodes@)) ==> g@ == declared_graph(nodes@),
            cuts_justified(g@, declared_graph(nodes@), Seq::empty(), declared_priorities(nodes@)),
    {
        if nodes.len() == 0 {
            let g = Self::default();
            proof {
                assert(declared_ids(nodes@) =~= Set::empty());
                assert(declared_graph(nodes@) =~= Map::empty());
                assert(edges_within(g@, declared_graph(nodes@)));
            }
            return g;
        }
        let ghost input = nodes@;
        let mut data_world: HashSet<u64> = HashSet::new();
        let mut i: usize = 0;
        while i < nodes.len()
            invariant
                input == nodes@,
                i <= nodes@.len(),
                data_world@ == declared_ids(input.take(i as int)),
            decreases nodes@.len() - i,
        {
            proof {
                lemma_declared_step(input.take(i as int), input[i as int]);
                assert(input.take(i + 1) == input.take(i as int).push(input[i as int]));
            }
            data_world.insert(nodes[i].0);
            i = i + 1;
        }
        proof {
            assert(input.take(input.len() as int) == input);
        }
        let mut constrained: Vec<(u64, ProcessorOrdering)> = Vec::new();
        let mut i: usize = 0;
        while i < nodes.len()
            invariant
                input == nodes@,
                i <= nodes@.len(),
                data_world@ == declared_ids(input),
                constrained@.len() == i,
                forall|j: int|
                    0 <= j < i ==> {
                        &&& (#[trigger] constrained@[j]).0 == input[j].0
                        &&& constrained@[j].1.before() == input[j].1.before().intersect(data_world@)
                        &&& constrained@[j].1.after() == input[j].1.after().intersect(data_world@)
                        &&& constrained@[j].1.priority() == input[j].1.priority()
                    },
            decreases nodes@.len() - i,
        {
            constrained.push((nodes[i].0, nodes[i].1.constrained_by(&data_world)));
            i = i + 1;
        }
        let ghost c = constrained@;
        proof {
            lemma_constrained_graph(input, c, data_world@);
        }
        let mut flat = Self::flatten_befores_into_afters(constrained);
        let ghost flat0 = flat@;
        proof {
            assert(deps_of(flat0) =~= declared_graph(input));
            assert forall|x: u64| #[trigger] priorities_of(flat0).contains_key(x) implies priorities_of(flat0)[x]
                == declared_priorities(input)[x] by {
                lemma_same_priorities(c, input, x);
                assert(declared_graph(input).contains_key(x));
            }
            assert(priorities_of(flat0) =~= declared_priorities(input));
        }
        Self::break_cycles(&mut flat, &data_world);
        let deps = into_dependency_map(flat);
        proof {
            assert forall|k: u64| #[trigger] deps@.contains_key(k) implies deps@[k]@.finite() by {
                assert(sets_of(deps@).contains_key(k));
                assert(flat0.contains_key(k));
                assert(flat0[k].0@.finite());
                assert(deps_of(flat0).contains_key(k));
                vstd::set_lib::lemma_len_subset(deps@[k]@, flat0[k].0@);
            }
        }
        let g = Self { nodes: NodeMap::new(deps) };
        g
    }
}

} // verus!
