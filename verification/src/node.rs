use vstd::prelude::*;
use std::collections::HashSet;
use std::rc::Rc;

verus! {

/// One step of a path through an execution graph: a node and the path that led to it.
pub struct Node {
    parent: Option<Rc<Node>>,
    data: u64,
}

impl Node {
    /// The path that ends at this node, from its first node to this one.
    pub closed spec fn path(&self) -> Seq<u64>
        decreases self,
    {
        match self.parent {
            Some(p) => p.path().push(self.data),
            None => seq![self.data],
        }
    }

    /// A path is never empty, and it ends at the node's own data.
    pub proof fn lemma_path_ends_here(&self)
        ensures
            self.path().len() >= 1,
            self.path().last() == self.spec_data(),
        decreases self,
    {
        if let Some(p) = &self.parent {
            p.lemma_path_ends_here();
        }
    }

    /// The data of the node.
    pub closed spec fn spec_data(&self) -> u64 {
        self.data
    }

    /// A step to `data`, after `parent` when there is one.
    pub fn new(parent: Option<Rc<Self>>, data: u64) -> (n: Self)
        ensures
            n.spec_data() == data,
            n.path() == match parent {
                Some(p) => p.path().push(data),
                None => seq![data],
            },
    {
        Self { parent, data }
    }

    /// The path before this node, if there is one.
    pub fn parent(&self) -> (p: &Option<Rc<Self>>)
        ensures
            match *p {
                Some(q) => self.path() == q.path().push(self.spec_data()),
                None => self.path() == seq![self.spec_data()],
            },
            p.is_some() <==> self.path().len() > 1,
    {
        proof {
            if let Some(q) = &self.parent {
                q.lemma_path_ends_here();
            }
        }
        &self.parent
    }

    /// The data of the node.
    pub fn data(&self) -> (d: &u64)
        ensures
            *d == self.spec_data(),
    {
        &self.data
    }

    /// Every data on the path that ends at this node.
    pub fn get_data_up(&self) -> (s: HashSet<u64>)
        ensures
            s@ == self.path().to_set(),
    {
        broadcast use vstd::std_specs::hash::group_hash_axioms;
        broadcast use vstd::seq_lib::group_seq_properties;
        let mut data: HashSet<u64> = HashSet::new();
        let mut current: &Node = self;
        let ghost full = self.path();
        while current.parent.is_some()
            invariant
                current.path().len() <= full.len(),
                full == self.path(),
                full.subrange(0, current.path().len() as int) == current.path(),
                data@ == full.subrange(current.path().len() as int, full.len() as int).to_set(),
            decreases current.path().len(),
        {
            let ghost before = current.path();
            data.insert(current.data);
            match &current.parent {
                Some(p) => {
                    current = &**p;
                },
                None => {},
            }
            proof {
                let k = current.path().len() as int;
                assert(before == current.path().push(before.last()));
                assert(full.subrange(0, k) == before.subrange(0, k));
                assert(full.subrange(k, full.len() as int) == seq![before.last()] + full.subrange(
                    k + 1,
                    full.len() as int,
                ));
                vstd::seq_lib::seq_to_set_distributes_over_add(
                    seq![before.last()],
                    full.subrange(k + 1, full.len() as int),
                );
                let a = before.last();
                assert(seq![a].to_set() =~= Set::empty().insert(a)) by {
                    assert(seq![a][0] == a);
                    assert forall|x: u64| seq![a].to_set().contains(x) implies x == a by {
                        let i = choose|i: int| 0 <= i < seq![a].len() && seq![a][i] == x;
                        assert(i == 0);
                    }
                }
                assert(full.subrange(k, full.len() as int).to_set() =~= full.subrange(
                    k + 1,
                    full.len() as int,
                ).to_set().insert(before.last()));
            }
        }
        proof {
            let k = current.path().len() as int;
            assert(k == 1);
            assert(full.subrange(0, full.len() as int) == full);
        }
        data.insert(current.data);
        proof {
            assert(full == seq![full[0]] + full.subrange(1, full.len() as int));
            vstd::seq_lib::seq_to_set_distributes_over_add(
                seq![full[0]],
                full.subrange(1, full.len() as int),
            );
            assert(seq![full[0]].to_set() =~= Set::empty().insert(full[0]));
            assert(full.to_set() =~= full.subrange(1, full.len() as int).to_set().insert(full[0]));
        }
        data
    }
}

} // verus!
