use vstd::prelude::*;
use std::collections::HashMap;
use std::marker::PhantomData;
use vstd::std_specs::iter::IteratorSpec;

verus! {

broadcast use vstd::std_specs::hash::group_hash_axioms;

/// How the test results `passes` (one per item, in order) cut `items` into
/// batches: each item that passed closes a batch of the items since the previous
/// one that passed, itself included. Gives the closed batches, each with the
/// index of the item that closed it, and where the batch still open starts.
pub open spec fn cut<A>(items: Seq<A>, passes: Seq<bool>) -> (Seq<(int, Seq<A>)>, int)
    decreases passes.len(),
{
    if passes.len() == 0 {
        (Seq::empty(), 0)
    } else {
        let prev = cut(items, passes.drop_last());
        let n = passes.len() as int;
        if passes.last() {
            (prev.0.push((n - 1, items.subrange(prev.1, n))), n)
        } else {
            prev
        }
    }
}

/// Nothing is lost or repeated by cutting: the batches, one after the other, are
/// the items up to where the open batch starts; and each batch ends with the item
/// that closed it, an item that passed.
pub proof fn lemma_batches_cover_prefix<A>(items: Seq<A>, passes: Seq<bool>)
    requires
        passes.len() <= items.len(),
    ensures
        0 <= cut(items, passes).1 <= passes.len(),
        cut(items, passes).0.map_values(|b: (int, Seq<A>)| b.1).flatten() == items.subrange(
            0,
            cut(items, passes).1,
        ),
        forall|j: int|
            0 <= j < cut(items, passes).0.len() ==> {
                let (end, batch) = #[trigger] cut(items, passes).0[j];
                &&& 0 <= end < passes.len()
                &&& passes[end]
                &&& batch.len() > 0
                &&& batch.last() == items[end]
            },
    decreases passes.len(),
{
    if passes.len() > 0 {
        let p0 = passes.drop_last();
        lemma_batches_cover_prefix(items, p0);
        let prev = cut(items, p0);
        let n = passes.len() as int;
        let f = |b: (int, Seq<A>)| b.1;
        if passes.last() {
            let batch = items.subrange(prev.1, n);
            assert(cut(items, passes).0 == prev.0.push((n - 1, batch)));
            assert(prev.0.push((n - 1, batch)).map_values(f) =~= prev.0.map_values(f).push(batch));
            prev.0.map_values(f).lemma_flatten_push(batch);
            assert(items.subrange(0, prev.1) + batch =~= items.subrange(0, n));
        }
        assert forall|j: int| 0 <= j < cut(items, passes).0.len() implies {
            let (end, batch) = #[trigger] cut(items, passes).0[j];
            &&& 0 <= end < passes.len()
            &&& passes[end]
            &&& batch.len() > 0
            &&& batch.last() == items[end]
        } by {
            if j < prev.0.len() {
                assert(cut(items, passes).0[j] == prev.0[j]);
                assert(passes[prev.0[j].0] == p0[prev.0[j].0]);
            }
        }
    }
}

/// The items of every batch that was submitted successfully, batch after batch.
pub open spec fn gathered<R>(outs: Seq<Option<Vec<R>>>) -> Seq<R>
    decreases outs.len(),
{
    if outs.len() == 0 {
        Seq::empty()
    } else {
        gathered(outs.drop_last()) + match outs.last() {
            Some(v) => v@,
            None => Seq::empty(),
        }
    }
}

/// Each batch that was resolved, under the index of the item that closed it.
pub open spec fn resolved<A, I>(closed: Seq<(int, Seq<A>)>, outs: Seq<Option<I>>) -> Map<usize, I>
    decreases outs.len(),
{
    if outs.len() == 0 || closed.len() != outs.len() {
        Map::empty()
    } else {
        let prev = resolved(closed.drop_last(), outs.drop_last());
        match outs.last() {
            Some(r) => prev.insert(closed.last().0 as usize, r),
            None => prev,
        }
    }
}

/// `passes` are results that `test` gave on `items`, and for each batch they cut,
/// `sent` holds the batch that was handed on and `outs` what came back for it.
pub open spec fn handed_on<A, O, T: Fn(&A) -> bool, S: Fn(Vec<A>) -> O>(
    items: Seq<A>,
    passes: Seq<bool>,
    sent: Seq<Vec<A>>,
    outs: Seq<O>,
    test: T,
    submit: S,
) -> bool {
    &&& passes.len() == items.len()
    &&& forall|i: int| 0 <= i < items.len() ==> #[trigger] test.ensures((&items[i],), passes[i])
    &&& sent.len() == cut(items, passes).0.len()
    &&& outs.len() == sent.len()
    &&& forall|j: int|
        0 <= j < sent.len() ==> (#[trigger] sent[j])@ == cut(items, passes).0[j].1 && submit.ensures(
            (sent[j],),
            outs[j],
        )
}

/// Takes, of the resources that a parameter asks for, those that pass the filter
/// `F`: each resource that passes closes a batch of the requests since the
/// previous one that passed, and the batch is handed on to the parameter filtered.
pub struct Filter<F, I> {
    _f: PhantomData<F>,
    pub resources: HashMap<usize, I>,
}

impl<F, I> Filter<F, I> {
    /// The resources kept, by the index of the result that closed their batch.
    pub closed spec fn kept(&self) -> Map<usize, I> {
        self.resources@
    }

    /// Cuts `prompted_accesses` into batches by `test`, submits each batch with
    /// `submit`, and gathers what the successful submissions finalised; requests
    /// after the last one that passed are not submitted.
    pub fn submit_access<A, R, T: Fn(&A) -> bool, S: Fn(Vec<A>) -> Option<Vec<R>>>(
        prompted_accesses: Vec<A>,
        test: T,
        submit: S,
    ) -> (finalised: Vec<R>)
        requires
            forall|a: A| #[trigger] test.requires((&a,)),
            forall|v: Vec<A>| #[trigger] submit.requires((v,)),
        ensures
            exists|passes: Seq<bool>, sent: Seq<Vec<A>>, outs: Seq<Option<Vec<R>>>|
                #[trigger] handed_on(prompted_accesses@, passes, sent, outs, test, submit)
                    && finalised@ == gathered(outs),
    {
        let ghost items = prompted_accesses@;
        let ghost mut passes: Seq<bool> = Seq::empty();
        let ghost mut sent: Seq<Vec<A>> = Seq::empty();
        let ghost mut outs: Seq<Option<Vec<R>>> = Seq::empty();
        let mut finalised: Vec<R> = Vec::new();
        let mut buffer: Vec<A> = Vec::new();
        for item in it: prompted_accesses.into_iter()
            invariant
                it.seq() == items,
                forall|a: A| #[trigger] test.requires((&a,)),
                forall|v: Vec<A>| #[trigger] submit.requires((v,)),
                passes.len() == it.index(),
                forall|i: int| 0 <= i < passes.len() ==> #[trigger] test.ensures((&items[i],), passes[i]),
                buffer@ == items.subrange(cut(items, passes).1, it.index() as int),
                0 <= cut(items, passes).1 <= it.index(),
                sent.len() == cut(items, passes).0.len(),
                outs.len() == sent.len(),
                forall|j: int|
                    0 <= j < sent.len() ==> (#[trigger] sent[j])@ == cut(items, passes).0[j].1
                        && submit.ensures((sent[j],), outs[j]),
                finalised@ == gathered(outs),
        {
            let ghost k = it.index() as int;
            let ghost p0 = passes;
            let ghost start = cut(items, passes).1;
            proof {
                assert(items[k] == item);
            }
            let pass = test(&item);
            buffer.push(item);
            proof {
                passes = passes.push(pass);
                assert(passes.drop_last() =~= p0);
                assert(items.subrange(start, k + 1) =~= items.subrange(start, k).push(items[k]));
            }
            if pass {
                let mut batch: Vec<A> = Vec::new();
                std::mem::swap(&mut batch, &mut buffer);
                let ghost b = batch;
                let out = submit(batch);
                proof {
                    let o0 = outs;
                    sent = sent.push(b);
                    outs = outs.push(out);
                    assert(outs.drop_last() =~= o0);
                    assert(buffer@ =~= items.subrange(k + 1, k + 1));
                }
                match out {
                    Some(v) => {
                        let mut v = v;
                        finalised.append(&mut v);
                    },
                    None => {},
                }
            }
            proof {
                assert forall|i: int| 0 <= i < passes.len() implies #[trigger] test.ensures(
                    (&items[i],),
                    passes[i],
                ) by {
                    if i < k {
                        assert(passes[i] == p0[i]);
                    }
                }
            }
        }
        proof {
            assert(handed_on(items, passes, sent, outs, test, submit));
        }
        finalised
    }

    /// Cuts `derived_results` into batches by `test`, resolves each batch with
    /// `resolve`, and keeps each resource resolved under the index of the result
    /// that closed its batch; results after the last one that passed are not
    /// resolved.
    pub fn resolve_access<A, T: Fn(&A) -> bool, S: Fn(Vec<A>) -> Option<I>>(
        derived_results: Vec<A>,
        test: T,
        resolve: S,
    ) -> (filter: Self)
        requires
            forall|a: A| #[trigger] test.requires((&a,)),
            forall|v: Vec<A>| #[trigger] resolve.requires((v,)),
        ensures
            exists|passes: Seq<bool>, sent: Seq<Vec<A>>, outs: Seq<Option<I>>|
                #[trigger] handed_on(derived_results@, passes, sent, outs, test, resolve)
                    && filter.kept() == resolved(cut(derived_results@, passes).0, outs),
    {
        let ghost items = derived_results@;
        let ghost mut passes: Seq<bool> = Seq::empty();
        let ghost mut sent: Seq<Vec<A>> = Seq::empty();
        let ghost mut outs: Seq<Option<I>> = Seq::empty();
        let mut resources: HashMap<usize, I> = HashMap::new();
        let mut buffer: Vec<A> = Vec::new();
        let mut i: usize = 0;
        let total = derived_results.len();
        proof {
            assert(items.len() == total);
        }
        for item in it: derived_results.into_iter()
            invariant
                it.seq() == items,
                items.len() <= usize::MAX,
                i == it.index(),
                forall|a: A| #[trigger] test.requires((&a,)),
                forall|v: Vec<A>| #[trigger] resolve.requires((v,)),
                passes.len() == it.index(),
                forall|j: int| 0 <= j < passes.len() ==> #[trigger] test.ensures((&items[j],), passes[j]),
                buffer@ == items.subrange(cut(items, passes).1, it.index() as int),
                0 <= cut(items, passes).1 <= it.index(),
                sent.len() == cut(items, passes).0.len(),
                outs.len() == sent.len(),
                forall|j: int|
                    0 <= j < sent.len() ==> (#[trigger] sent[j])@ == cut(items, passes).0[j].1
                        && resolve.ensures((sent[j],), outs[j]),
                resources@ == resolved(cut(items, passes).0, outs),
        {
            let ghost k = it.index() as int;
            let ghost p0 = passes;
            let ghost start = cut(items, passes).1;
            let ghost closed0 = cut(items, passes).0;
            proof {
                assert(items[k] == item);
            }
            let pass = test(&item);
            buffer.push(item);
            proof {
                passes = passes.push(pass);
                assert(passes.drop_last() =~= p0);
                assert(items.subrange(start, k + 1) =~= items.subrange(start, k).push(items[k]));
            }
            if pass {
                let mut batch: Vec<A> = Vec::new();
                std::mem::swap(&mut batch, &mut buffer);
                let ghost b = batch;
                let out = resolve(batch);
                proof {
                    let o0 = outs;
                    sent = sent.push(b);
                    outs = outs.push(out);
                    assert(outs.drop_last() =~= o0);
                    assert(cut(items, passes).0.drop_last() =~= closed0);
                    assert(cut(items, passes).0.last().0 == k);
                    assert(buffer@ =~= items.subrange(k + 1, k + 1));
                }
                match out {
                    Some(r) => {
                        resources.insert(i, r);
                    },
                    None => {},
                }
            }
            proof {
                assert forall|j: int| 0 <= j < passes.len() implies #[trigger] test.ensures(
                    (&items[j],),
                    passes[j],
                ) by {
                    if j < k {
                        assert(passes[j] == p0[j]);
                    }
                }
            }
            i = i + 1;
        }
        proof {
            assert(handed_on(items, passes, sent, outs, test, resolve));
        }
        Filter { _f: PhantomData, resources }
    }
}

} // verus!
