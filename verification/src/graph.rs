//! The union-find structure itself.

use vstd::prelude::*;
use crate::forest::Forest;
use crate::partition::Partition;

verus! {

/// A fixed set of nodes, numbered from zero, split into disjoint sets.
///
/// The nodes are kept as a forest: `nodes[i]` is the parent of node `i`, and
/// a node that is its own parent is the root of its tree and represents its
/// set. `sizes[r]` is the weight of the root `r`.
pub struct Graph {
    nodes: Vec<usize>,
    sizes: Vec<usize>,
}

impl View for Graph {
    type V = Forest;

    /// The forest that the two vectors hold.
    closed spec fn view(&self) -> Forest {
        Forest {
            parents: Seq::new(self.nodes@.len(), |i: int| self.nodes@[i] as int),
            weights: Seq::new(self.sizes@.len(), |i: int| self.sizes@[i] as nat),
        }
    }
}

impl Graph {
    /// The graph holds a well-formed forest.
    pub open spec fn wf(&self) -> bool {
        self@.wf()
    }

    /// Returns a new graph of `n` nodes, none of them connected to another.
    pub fn new(n: usize) -> (g: Graph)
        ensures
            g.wf(),
            g@ == Forest::singletons(n as nat),
            g@.partition() == Partition::singletons(n as nat),
    {
        let mut nodes: Vec<usize> = Vec::new();
        let mut sizes: Vec<usize> = Vec::new();
        let mut i: usize = 0;
        while i < n
            invariant
                i <= n,
                nodes@.len() == i,
                sizes@.len() == i,
                forall|j: int| 0 <= j < i ==> nodes@[j] == j,
                forall|j: int| 0 <= j < i ==> sizes@[j] == 0,
            decreases n - i,
        {
            nodes.push(i);
            sizes.push(0);
            i += 1;
        }
        let g = Graph { nodes, sizes };
        proof {
            assert(g@.parents =~= Forest::singletons(n as nat).parents);
            assert(g@.weights =~= Forest::singletons(n as nat).weights);
            Forest::lemma_singletons(n as nat);
        }
        g
    }

    /// Returns the number of nodes.
    pub fn count(&self) -> (n: usize)
        ensures
            n == self@.len(),
    {
        self.nodes.len()
    }

    /// Returns true only if the nodes `a` and `b` are connected, that is, in
    /// the same set.
    ///
    /// Looking up the two roots halves the path from `a` and then the path
    /// from `b`. That flattens the forest and leaves its partition as it
    /// was, so asking again gives the same answer.
    pub fn connected(&mut self, a: usize, b: usize) -> (r: bool)
        requires
            old(self).wf(),
            old(self)@.has(a as int),
            old(self)@.has(b as int),
        ensures
            final(self).wf(),
            final(self)@ == old(self)@.compressed(a as int).compressed(b as int),
            final(self)@.partition() == old(self)@.partition(),
            final(self)@.roots() == old(self)@.roots(),
            r == old(self)@.partition().same_set(a as int, b as int),
    {
        proof {
            old(self)@.lemma_compressed(a as int);
            old(self)@.compressed(a as int).lemma_compressed(b as int);
        }
        self.root(a) == self.root(b)
    }

    /// Connects the nodes `a` and `b`: merges the sets that hold them.
    ///
    /// The paths from `a` and from `b` are halved, then the two trees are
    /// linked. Where the two nodes are connected already the partition stays
    /// as it was. Otherwise the root that weighs less is hung under the
    /// other, the root of `b` under that of `a` where they weigh the same,
    /// and the root that stays takes on the weight of the other.
    pub fn connect(&mut self, a: usize, b: usize)
        requires
            old(self).wf(),
            old(self)@.has(a as int),
            old(self)@.has(b as int),
        ensures
            final(self).wf(),
            final(self)@
                == old(self)@.compressed(a as int).compressed(b as int).linked(a as int, b as int),
            final(self)@.partition() == old(self)@.partition().merged(a as int, b as int),
            final(self)@.partition().same_set(a as int, b as int),
            old(self)@.partition().same_set(a as int, b as int)
                ==> final(self)@.roots().len() == old(self)@.roots().len(),
            !old(self)@.partition().same_set(a as int, b as int)
                ==> final(self)@.roots().len() == old(self)@.roots().len() - 1,
    {
        proof {
            old(self)@.lemma_compressed(a as int);
            old(self)@.compressed(a as int).lemma_compressed(b as int);
        }
        let a_root = self.root(a);
        let b_root = self.root(b);
        proof {
            self@.lemma_linked(a as int, b as int);
            self@.lemma_linked_root_count(a as int, b as int);
        }
        if a_root == b_root {
            // already connected
            return;
        }
        proof {
            self@.lemma_root_of_parent(a as int);
            self@.lemma_root_of_parent(b as int);
        }
        // balance by linking the root of the lighter tree to that of the heavier
        if self.sizes[a_root] < self.sizes[b_root] {
            self.graft(a_root, b_root);
        } else {
            self.graft(b_root, a_root);
        }
    }

    /// Hangs the root `child` under the root `parent`, which takes on the
    /// weight of `child`.
    fn graft(&mut self, child: usize, parent: usize)
        requires
            old(self).wf(),
            old(self)@.is_root(child as int),
            old(self)@.is_root(parent as int),
            child != parent,
        ensures
            final(self).wf(),
            final(self)@ == old(self)@.grafted(child as int, parent as int),
    {
        proof {
            self@.lemma_two_trees_bounded(child as int, parent as int);
            self@.lemma_grafted(child as int, parent as int);
            assert(self.nodes.len() == self@.len());
        }
        self.nodes[child] = parent;
        self.sizes[parent] += self.sizes[child];
        proof {
            let after = old(self)@.grafted(child as int, parent as int);
            assert(self@.parents =~= after.parents);
            assert(self@.weights =~= after.weights);
        }
    }

    /// Returns the root of the tree that holds the node `id`.
    ///
    /// On the way up, `id` and every second node after it are repointed to
    /// their grandparent, which halves the path.
    fn root(&mut self, id: usize) -> (r: usize)
        requires
            old(self).wf(),
            old(self)@.has(id as int),
        ensures
            final(self).wf(),
            final(self)@ == old(self)@.compressed(id as int),
            final(self)@.partition() == old(self)@.partition(),
            r == old(self)@.root_of(id as int),
    {
        let mut cur = id;
        let ghost mut left: nat = self@.climb(id as int);
        proof {
            assert(self@.grounded(id as int));
        }
        while self.nodes[cur] != cur
            invariant
                self.wf(),
                self@.has(cur as int),
                self@.compressed(cur as int) == old(self)@.compressed(id as int),
                self@.partition() == old(self)@.partition(),
                self@.root_of(cur as int) == old(self)@.root_of(id as int),
                self@.is_root(self@.ancestor(cur as int, left)),
            decreases left,
        {
            let ghost before = self@;
            let ghost here = cur as int;
            // make every other node in the path point to its grandparent
            let grandparent = self.nodes[self.nodes[cur]];
            self.nodes[cur] = grandparent;
            cur = grandparent;
            proof {
                let up = before.parents[here];
                assert(self@.parents =~= before.halved(here).parents);
                before.lemma_halved(here);
                before.lemma_compressed_step(here);
                before.lemma_root_of_parent(here);
                before.lemma_root_of_parent(up);
                if left == 1 {
                    left = before.lemma_halved_walk(here, up, 0);
                } else {
                    assert(before.ancestor(up, (left - 1) as nat)
                        == before.ancestor(cur as int, (left - 2) as nat));
                    left = before.lemma_halved_walk(here, cur as int, (left - 2) as nat);
                }
            }
        }
        proof {
            self@.lemma_compressed_root(cur as int);
            self@.lemma_root_of(cur as int, 0);
        }
        cur
    }
}

} // verus!
