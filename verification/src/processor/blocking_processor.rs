use vstd::prelude::*;
use vstd::std_specs::iter::IteratorSpec;

use crate::execution_graph::active_execution_graph::ActiveExecutionGraph;
use crate::execution_graph::{
    acyclic, cuts_justified, declared_graph, declared_ids, declared_priorities, edges_within, ExecutionGraph,
};
use crate::processor_ordering::ProcessorOrdering;
use crate::status::StatusKind;

verus! {

/// The entries of each group.
pub open spec fn entries_of(groups: Seq<Vec<(u64, ProcessorOrdering)>>) -> Seq<
    Seq<(u64, ProcessorOrdering)>,
> {
    groups.map_values(|g: Vec<(u64, ProcessorOrdering)>| g@)
}

/// The entries of the `i`-th chunk of `size` consecutive groups, one group after
/// the other; the last chunk may hold fewer groups.
pub open spec fn chunk(groups: Seq<Seq<(u64, ProcessorOrdering)>>, size: nat, i: int) -> Seq<
    (u64, ProcessorOrdering),
> {
    let start = i * size;
    let end = if start + size <= groups.len() {
        start + size
    } else {
        groups.len() as int
    };
    groups.subrange(start, end).flatten()
}

/// How many chunks of `size` groups `n` groups make.
pub open spec fn chunk_count(n: nat, size: nat) -> nat {
    if n % size == 0 {
        n / size
    } else {
        n / size + 1
    }
}

/// `g` is ready to run the graph that `entries` declare: it is built as
/// [`ExecutionGraph::new`] builds it (every edge cut leaves a node of greatest
/// declared priority on some closed walk of the declared graph), and no node has
/// started.
pub open spec fn activated_from(g: ActiveExecutionGraph, entries: Seq<(u64, ProcessorOrdering)>) -> bool {
    &&& g.wf()
    &&& g.dependencies().dom() == declared_ids(entries)
    &&& edges_within(g.dependencies(), declared_graph(entries))
    &&& acyclic(g.dependencies())
    &&& (acyclic(declared_graph(entries)) ==> g.dependencies() == declared_graph(entries))
    &&& cuts_justified(g.dependencies(), declared_graph(entries), Seq::empty(), declared_priorities(entries))
    &&& g.statuses() == Map::new(
        |k: u64| g.dependencies().contains_key(k),
        |k: u64| StatusKind::Incomplete,
    )
}

/// Runs groups of dependent systems, a chunk of groups per execution graph.
pub struct BlockingProcessor {}

impl BlockingProcessor {
    fn activate(entries: Vec<(u64, ProcessorOrdering)>) -> (g: ActiveExecutionGraph)
        ensures
            activated_from(g, entries@),
    {
        let graph = ExecutionGraph::new(entries.as_slice());
        ActiveExecutionGraph::from(graph)
    }

    /// Builds an execution graph from each chunk of `chunk_size` consecutive groups
    /// (the last chunk may hold fewer), from the entries of its groups one after
    /// the other, and makes it ready to run.
    pub fn run(groups: Vec<Vec<(u64, ProcessorOrdering)>>, chunk_size: usize) -> (graphs: Vec<
        ActiveExecutionGraph,
    >)
        requires
            chunk_size > 0,
        ensures
            graphs.len() == chunk_count(groups@.len(), chunk_size as nat),
            forall|i: int|
                0 <= i < graphs.len() ==> activated_from(
                    #[trigger] graphs[i],
                    chunk(entries_of(groups@), chunk_size as nat, i),
                ),
    {
        let ghost gs = entries_of(groups@);
        let ghost n = groups@.len() as int;
        let ghost c = chunk_size as int;
        let mut graphs: Vec<ActiveExecutionGraph> = Vec::new();
        let mut flat: Vec<(u64, ProcessorOrdering)> = Vec::new();
        let mut in_chunk: usize = 0;
        proof {
            assert(graphs.len() * c == 0) by (nonlinear_arith)
                requires
                    graphs.len() == 0,
            ;
        }
        for group in it: groups.into_iter()
            invariant
                it.seq() == groups@,
                gs == entries_of(groups@),
                n == groups@.len(),
                c == chunk_size,
                c > 0,
                graphs.len() * c + in_chunk == it.index(),
                in_chunk < c,
                flat@ == gs.subrange(it.index() - in_chunk, it.index() as int).flatten(),
                forall|i: int|
                    0 <= i < graphs.len() ==> activated_from(
                        #[trigger] graphs@[i],
                        chunk(gs, c as nat, i),
                    ),
        {
            let ghost k = it.index() as int;
            let ghost start = k - in_chunk;
            proof {
                assert(gs[k] == group@);
                assert(gs.subrange(start, k + 1) == gs.subrange(start, k).push(gs[k]));
                gs.subrange(start, k).lemma_flatten_push(gs[k]);
            }
            let mut group = group;
            flat.append(&mut group);
            in_chunk = in_chunk + 1;
            if in_chunk == chunk_size {
                let ghost len = graphs.len() as int;
                proof {
                    assert((len + 1) * c == len * c + c) by (nonlinear_arith);
                    assert(start == len * c);
                    assert(start + c <= n);
                    assert(chunk(gs, c as nat, len) == gs.subrange(start, k + 1).flatten());
                }
                let mut done: Vec<(u64, ProcessorOrdering)> = Vec::new();
                std::mem::swap(&mut done, &mut flat);
                let ghost before = graphs@;
                let g = Self::activate(done);
                graphs.push(g);
                in_chunk = 0;
                proof {
                    assert(gs.subrange(k + 1, k + 1).flatten() =~= Seq::empty());
                    assert forall|i: int|
                        0 <= i < graphs.len() implies activated_from(
                        #[trigger] graphs@[i],
                        chunk(gs, c as nat, i),
                    ) by {
                        if i < len {
                            assert(graphs@[i] == before[i]);
                        }
                    }
                }
            }
        }
        let ghost len = graphs.len() as int;
        proof {
            assert(n == len * c + in_chunk);
            vstd::arithmetic::div_mod::lemma_fundamental_div_mod_converse(n, c, len, in_chunk as int);
        }
        if in_chunk > 0 {
            proof {
                assert(chunk(gs, c as nat, len) == gs.subrange(len * c, n).flatten());
            }
            let ghost before = graphs@;
            let g = Self::activate(flat);
            graphs.push(g);
            proof {
                assert forall|i: int|
                    0 <= i < graphs.len() implies activated_from(
                    #[trigger] graphs@[i],
                    chunk(gs, c as nat, i),
                ) by {
                    if i < len {
                        assert(graphs@[i] == before[i]);
                    }
                }
            }
        }
        graphs
    }

    /// The step that runs the graphs [`BlockingProcessor::run`] builds; it does
    /// nothing by itself.
    pub fn execute() {
    }
}

} // verus!
