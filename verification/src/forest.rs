//! Parent-link forests: the model of what a `Graph` holds.
//!
//! A forest over `n` nodes gives every node a parent. A node that is its own
//! parent is a root, and every node reaches a root by following parent
//! links. The trees of the forest are the sets of a [`Partition`], each
//! represented by its root.

use vstd::prelude::*;
use vstd::set_lib::{lemma_int_range, lemma_len_subset, lemma_set_disjoint_lens, set_int_range};
use crate::partition::Partition;

verus! {

/// A forest over the nodes `0..len()`, with a weight for every node.
///
/// `parents[i]` is the parent of node `i`. `weights[r]` matters where `r` is
/// a root: it decides which of two roots stays a root when their trees are
/// linked.
pub ghost struct Forest {
    pub parents: Seq<int>,
    pub weights: Seq<nat>,
}

impl Forest {
    /// The forest of `n` roots, each of weight zero.
    pub open spec fn singletons(n: nat) -> Forest {
        Forest { parents: Seq::new(n, |i: int| i), weights: Seq::new(n, |i: int| 0nat) }
    }

    /// The number of nodes.
    pub open spec fn len(self) -> nat {
        self.parents.len()
    }

    /// `i` is one of the nodes.
    pub open spec fn has(self, i: int) -> bool {
        0 <= i < self.len()
    }

    /// `r` is a node that is its own parent.
    pub open spec fn is_root(self, r: int) -> bool {
        self.has(r) && self.parents[r] == r
    }

    /// The node reached from `i` by following `k` parent links.
    pub open spec fn ancestor(self, i: int, k: nat) -> int
        decreases k,
    {
        if k == 0 {
            i
        } else {
            self.ancestor(self.parents[i], (k - 1) as nat)
        }
    }

    /// Some number of parent links leads from `i` to a root.
    pub open spec fn grounded(self, i: int) -> bool {
        exists|k: nat| self.is_root(#[trigger] self.ancestor(i, k))
    }

    /// A number of parent links after which the walk from `i` stands on a
    /// root.
    pub open spec fn climb(self, i: int) -> nat {
        choose|k: nat| self.is_root(#[trigger] self.ancestor(i, k))
    }

    /// The root of the tree that holds `i`.
    pub open spec fn root_of(self, i: int) -> int {
        self.ancestor(i, self.climb(i))
    }

    /// The nodes of the tree whose root is `r`.
    pub open spec fn members(self, r: int) -> Set<int> {
        Set::new(|i: int| self.has(i) && self.root_of(i) == r)
    }

    /// The roots of the forest.
    pub open spec fn roots(self) -> Set<int> {
        Set::new(|r: int| self.is_root(r))
    }

    /// Every parent link points at a node of the forest.
    pub open spec fn links_in_range(self) -> bool {
        forall|i: int| self.has(i) ==> self.has(#[trigger] self.parents[i])
    }

    /// The links are in range, every node reaches a root, every node has a
    /// weight, and no root weighs more than its tree has nodes.
    pub open spec fn wf(self) -> bool {
        &&& self.weights.len() == self.parents.len()
        &&& self.links_in_range()
        &&& forall|i: int| self.has(i) ==> #[trigger] self.grounded(i)
        &&& forall|r: int| self.is_root(r) ==> self.weights[r] <= (#[trigger] self.members(r)).len()
    }

    /// The partition that the forest stands for: every node with the root of
    /// its tree.
    pub open spec fn partition(self) -> Partition {
        Partition { reps: Seq::new(self.len(), |i: int| self.root_of(i)), weights: self.weights }
    }

    /// The forest in which node `x` has been repointed to its grandparent.
    pub open spec fn halved(self, x: int) -> Forest {
        Forest { parents: self.parents.update(x, self.parents[self.parents[x]]), ..self }
    }

    /// `j` is reached from `id` by an even number of parent links.
    pub open spec fn on_halving_path(self, id: int, j: int) -> bool {
        exists|k: nat| k % 2 == 0 && #[trigger] self.ancestor(id, k) == j
    }

    /// The forest after the path from `id` to its root has been halved:
    /// `id`, its grandparent, the grandparent of that, and so on up to the
    /// root have each been repointed to their grandparent, and every other
    /// node has kept its parent.
    pub open spec fn compressed(self, id: int) -> Forest {
        Forest {
            parents: Seq::new(
                self.len(),
                |j: int|
                    if self.on_halving_path(id, j) {
                        self.parents[self.parents[j]]
                    } else {
                        self.parents[j]
                    },
            ),
            ..self
        }
    }

    /// The forest in which the root `child` has been hung under the root
    /// `parent`, which has taken on the weight of `child`.
    pub open spec fn grafted(self, child: int, parent: int) -> Forest {
        Forest {
            parents: self.parents.update(child, parent),
            weights: self.weights.update(parent, self.weights[parent] + self.weights[child]),
        }
    }

    /// The forest after the trees of `a` and `b` have been linked.
    ///
    /// The root that weighs less is hung under the other; where the two
    /// weigh the same, the root of `b` is hung under that of `a`. Where `a`
    /// and `b` are in one tree already, nothing changes.
    pub open spec fn linked(self, a: int, b: int) -> Forest {
        let a_root = self.root_of(a);
        let b_root = self.root_of(b);
        if a_root == b_root {
            self
        } else if self.weights[a_root] < self.weights[b_root] {
            self.grafted(a_root, b_root)
        } else {
            self.grafted(b_root, a_root)
        }
    }

    /// A walk that starts in the forest stays in it.
    pub proof fn lemma_ancestor_in_range(self, i: int, k: nat)
        requires
            self.links_in_range(),
            self.has(i),
        ensures
            self.has(self.ancestor(i, k)),
        decreases k,
    {
        if k > 0 {
            self.lemma_ancestor_in_range(self.parents[i], (k - 1) as nat);
        }
    }

    /// Walking `j` links and then `k` more is walking `j + k` links.
    pub proof fn lemma_ancestor_split(self, i: int, j: nat, k: nat)
        ensures
            self.ancestor(i, j + k) == self.ancestor(self.ancestor(i, j), k),
        decreases j,
    {
        if j > 0 {
            self.lemma_ancestor_split(self.parents[i], (j - 1) as nat, k);
        }
    }

    /// A walk that starts on a root never leaves it.
    pub proof fn lemma_root_stays(self, r: int, k: nat)
        requires
            self.is_root(r),
        ensures
            self.ancestor(r, k) == r,
        decreases k,
    {
        if k > 0 {
            self.lemma_root_stays(r, (k - 1) as nat);
        }
    }

    /// Whatever number of links leads from `i` to a root, it is the same
    /// root: the one that `root_of` names.
    pub proof fn lemma_root_of(self, i: int, k: nat)
        requires
            self.is_root(self.ancestor(i, k)),
        ensures
            self.root_of(i) == self.ancestor(i, k),
            self.is_root(self.root_of(i)),
    {
        let c = self.climb(i);
        if c <= k {
            self.lemma_ancestor_split(i, c, (k - c) as nat);
            self.lemma_root_stays(self.ancestor(i, c), (k - c) as nat);
        } else {
            self.lemma_ancestor_split(i, k, (c - k) as nat);
            self.lemma_root_stays(self.ancestor(i, k), (c - k) as nat);
        }
    }

    /// The root of a node is a root, it is also the root of the node's
    /// parent, and a node is a root exactly if it is its own root.
    pub proof fn lemma_root_of_parent(self, i: int)
        requires
            self.wf(),
            self.has(i),
        ensures
            self.is_root(self.root_of(i)),
            self.root_of(self.parents[i]) == self.root_of(i),
            self.is_root(i) <==> self.root_of(i) == i,
    {
        assert(self.grounded(i));
        let c = self.climb(i);
        if self.is_root(i) {
            self.lemma_root_of(i, 0);
        } else {
            self.lemma_root_of(self.parents[i], (c - 1) as nat);
        }
    }

    /// A node that a walk of one link or more leads back to is a root: there
    /// is no other cycle in a forest.
    pub proof fn lemma_cycle_is_root(self, x: int, d: nat, k: nat)
        requires
            d > 0,
            self.ancestor(x, d) == x,
            self.is_root(self.ancestor(x, k)),
        ensures
            self.is_root(x),
        decreases k,
    {
        if k >= d {
            self.lemma_ancestor_split(x, d, (k - d) as nat);
            self.lemma_cycle_is_root(x, d, (k - d) as nat);
        } else {
            self.lemma_ancestor_split(x, k, (d - k) as nat);
            self.lemma_root_stays(self.ancestor(x, k), (d - k) as nat);
        }
    }

    /// A tree has at most as many nodes as the forest.
    pub proof fn lemma_members_bounded(self, r: int)
        ensures
            self.members(r).finite(),
            self.members(r).len() <= self.len(),
    {
        lemma_int_range(0, self.len() as int);
        lemma_len_subset(self.members(r), set_int_range(0, self.len() as int));
    }

    /// Two trees with different roots have together at most as many nodes
    /// as the forest.
    pub proof fn lemma_two_trees_bounded(self, r: int, s: int)
        requires
            r != s,
        ensures
            (self.members(r) + self.members(s)).len()
                == self.members(r).len() + self.members(s).len(),
            self.members(r).len() + self.members(s).len() <= self.len(),
    {
        lemma_int_range(0, self.len() as int);
        self.lemma_members_bounded(r);
        self.lemma_members_bounded(s);
        lemma_set_disjoint_lens(self.members(r), self.members(s));
        lemma_len_subset(self.members(r) + self.members(s), set_int_range(0, self.len() as int));
    }

    /// Repointing `x` to its grandparent keeps every walk's root and makes
    /// no walk longer: the result is a number of links that leads from `i`
    /// to the same root in the new forest.
    pub proof fn lemma_halved_walk(self, x: int, i: int, k: nat) -> (k2: nat)
        requires
            self.links_in_range(),
            self.has(x),
            self.has(i),
            self.is_root(self.ancestor(i, k)),
        ensures
            k2 <= k,
            self.halved(x).ancestor(i, k2) == self.ancestor(i, k),
            self.halved(x).is_root(self.ancestor(i, k)),
        decreases k,
    {
        let after = self.halved(x);
        if k == 0 {
            0
        } else if i != x {
            let rest = self.lemma_halved_walk(x, self.parents[i], (k - 1) as nat);
            rest + 1
        } else if k == 1 {
            assert(after.ancestor(x, 1) == after.ancestor(after.parents[x], 0));
            1
        } else {
            let up = self.parents[x];
            let top = self.parents[up];
            assert(self.ancestor(up, (k - 1) as nat) == self.ancestor(top, (k - 2) as nat));
            let rest = self.lemma_halved_walk(x, top, (k - 2) as nat);
            rest + 1
        }
    }

    /// Repointing a node to its grandparent leaves a forest with the same
    /// roots and the same trees.
    pub proof fn lemma_halved(self, x: int)
        requires
            self.wf(),
            self.has(x),
        ensures
            self.halved(x).wf(),
            self.halved(x).partition() == self.partition(),
            forall|i: int| self.has(i) ==> #[trigger] self.halved(x).root_of(i) == self.root_of(i),
            forall|r: int| #[trigger] self.halved(x).is_root(r) <==> self.is_root(r),
    {
        let after = self.halved(x);
        assert forall|i: int| self.has(i) implies #[trigger] after.root_of(i) == self.root_of(i)
            && after.is_root(after.root_of(i)) by {
            assert(self.grounded(i));
            let k2 = self.lemma_halved_walk(x, i, self.climb(i));
            after.lemma_root_of(i, k2);
        }
        assert forall|i: int| after.has(i) implies #[trigger] after.grounded(i) by {
            assert(after.is_root(after.root_of(i)));
        }
        assert forall|r: int| #[trigger] after.is_root(r) <==> self.is_root(r) by {
            if self.has(r) {
                self.lemma_root_of_parent(r);
                if after.is_root(r) {
                    after.lemma_root_of(r, 0);
                }
                if self.is_root(r) {
                    let k2 = self.lemma_halved_walk(x, r, 0);
                }
            }
        }
        assert forall|r: int| after.is_root(r) implies after.weights[r]
            <= (#[trigger] after.members(r)).len() by {
            assert(after.members(r) =~= self.members(r));
        }
        assert(after.partition().reps =~= self.partition().reps);
    }

    /// Above a node `x` that is no root, repointing `x` to its grandparent
    /// changes no walk: `m` links up from the grandparent lead where `m + 2`
    /// links up from `x` led.
    pub proof fn lemma_halved_above(self, x: int, m: nat)
        requires
            self.wf(),
            self.has(x),
            !self.is_root(x),
        ensures
            self.halved(x).ancestor(self.parents[self.parents[x]], m) == self.ancestor(x, m + 2),
        decreases m,
    {
        let after = self.halved(x);
        let up = self.parents[x];
        let top = self.parents[up];
        if m == 0 {
            assert(self.ancestor(up, 1) == self.ancestor(top, 0));
        } else {
            self.lemma_halved_above(x, (m - 1) as nat);
            let y = self.ancestor(x, (m + 1) as nat);
            self.lemma_ancestor_in_range(x, (m + 1) as nat);
            after.lemma_ancestor_split(top, (m - 1) as nat, 1);
            self.lemma_ancestor_split(x, (m + 1) as nat, 1);
            assert(after.ancestor(y, 1) == after.ancestor(after.parents[y], 0));
            assert(self.ancestor(y, 1) == self.ancestor(self.parents[y], 0));
            if y == x {
                assert(self.grounded(x));
                self.lemma_cycle_is_root(x, (m + 1) as nat, self.climb(x));
            }
        }
    }

    /// Halving the path from a node `x` that is no root is repointing `x` to
    /// its grandparent and then halving the path from the grandparent.
    pub proof fn lemma_compressed_step(self, x: int)
        requires
            self.wf(),
            self.has(x),
            !self.is_root(x),
        ensures
            self.halved(x).compressed(self.parents[self.parents[x]]) == self.compressed(x),
    {
        let after = self.halved(x);
        let top = self.parents[self.parents[x]];
        assert(self.grounded(x));
        assert forall|j: int| self.has(j) implies #[trigger] after.compressed(top).parents[j]
            == self.compressed(x).parents[j] by {
            if after.on_halving_path(top, j) {
                let m = choose|m: nat| m % 2 == 0 && #[trigger] after.ancestor(top, m) == j;
                self.lemma_halved_above(x, m);
                assert((m + 2) % 2 == 0 && self.ancestor(x, m + 2) == j);
                if j == x {
                    self.lemma_cycle_is_root(x, m + 2, self.climb(x));
                }
                self.lemma_ancestor_split(x, m + 2, 1);
                assert(self.ancestor(j, 1) == self.ancestor(self.parents[j], 0));
                if self.parents[j] == x {
                    self.lemma_cycle_is_root(x, m + 3, self.climb(x));
                }
            } else if j == x {
                assert(self.ancestor(x, 0) == x);
            } else if self.on_halving_path(x, j) {
                let m = choose|m: nat| m % 2 == 0 && #[trigger] self.ancestor(x, m) == j;
                self.lemma_halved_above(x, (m - 2) as nat);
                assert((m - 2) % 2 == 0 && after.ancestor(top, (m - 2) as nat) == j);
            }
        }
        assert(after.compressed(top).parents =~= self.compressed(x).parents);
    }

    /// Halving the path from a root changes nothing.
    pub proof fn lemma_compressed_root(self, r: int)
        requires
            self.is_root(r),
        ensures
            self.compressed(r) == self,
    {
        assert forall|j: int| self.has(j) implies #[trigger] self.compressed(r).parents[j]
            == self.parents[j] by {
            if self.on_halving_path(r, j) {
                let m = choose|m: nat| m % 2 == 0 && #[trigger] self.ancestor(r, m) == j;
                self.lemma_root_stays(r, m);
            }
        }
        assert(self.compressed(r).parents =~= self.parents);
    }

    /// Halving the path from `id`, where `k` links lead from `id` to its
    /// root, leaves a forest with the same roots and the same trees.
    proof fn lemma_compressed_within(self, id: int, k: nat)
        requires
            self.wf(),
            self.has(id),
            self.is_root(self.ancestor(id, k)),
        ensures
            self.compressed(id).wf(),
            self.compressed(id).partition() == self.partition(),
            self.compressed(id).roots() == self.roots(),
        decreases k,
    {
        if self.is_root(id) {
            self.lemma_compressed_root(id);
        } else {
            let after = self.halved(id);
            let up = self.parents[id];
            let top = self.parents[up];
            self.lemma_halved(id);
            self.lemma_compressed_step(id);
            assert(self.ancestor(id, k) == self.ancestor(up, (k - 1) as nat));
            if k == 1 {
                let k2 = self.lemma_halved_walk(id, top, 0);
                after.lemma_compressed_within(top, k2);
            } else {
                let k2 = self.lemma_halved_walk(id, top, (k - 2) as nat);
                after.lemma_compressed_within(top, k2);
            }
        }
    }

    /// Halving a path changes neither the roots nor the trees: the forest
    /// stands for the same partition as before.
    pub proof fn lemma_compressed(self, id: int)
        requires
            self.wf(),
            self.has(id),
        ensures
            self.compressed(id).wf(),
            self.compressed(id).partition() == self.partition(),
            self.compressed(id).roots() == self.roots(),
    {
        assert(self.grounded(id));
        self.lemma_compressed_within(id, self.climb(id));
    }

    /// Hanging the root `child` under the root `parent` sends every walk
    /// that ended on `child` one link further, to `parent`, and leaves the
    /// others as they were.
    pub proof fn lemma_grafted_walk(self, child: int, parent: int, i: int, k: nat)
        requires
            self.links_in_range(),
            self.is_root(child),
            self.is_root(parent),
            child != parent,
            self.has(i),
            self.is_root(self.ancestor(i, k)),
        ensures
            self.ancestor(i, k) == child ==> self.grafted(child, parent).ancestor(i, k + 1)
                == parent,
            self.ancestor(i, k) != child ==> self.grafted(child, parent).ancestor(i, k)
                == self.ancestor(i, k),
        decreases k,
    {
        let after = self.grafted(child, parent);
        if self.is_root(i) {
            self.lemma_root_stays(i, k);
            if i == child {
                after.lemma_root_stays(parent, k);
            } else {
                after.lemma_root_stays(i, k);
            }
        } else {
            self.lemma_grafted_walk(child, parent, self.parents[i], (k - 1) as nat);
        }
    }

    /// Hanging one root under another leaves a forest in which the two trees
    /// are one, under the root `parent`, and every other tree is as it was.
    pub proof fn lemma_grafted(self, child: int, parent: int)
        requires
            self.wf(),
            self.is_root(child),
            self.is_root(parent),
            child != parent,
        ensures
            self.grafted(child, parent).wf(),
            forall|i: int|
                self.has(i) ==> #[trigger] self.grafted(child, parent).root_of(i)
                    == (if self.root_of(i) == child { parent } else { self.root_of(i) }),
            forall|r: int| #[trigger]
                self.grafted(child, parent).is_root(r) <==> self.is_root(r) && r != child,
    {
        let after = self.grafted(child, parent);
        assert forall|i: int| self.has(i) implies #[trigger] after.root_of(i)
            == (if self.root_of(i) == child { parent } else { self.root_of(i) })
            && after.is_root(after.root_of(i)) by {
            assert(self.grounded(i));
            let k = self.climb(i);
            self.lemma_grafted_walk(child, parent, i, k);
            if self.root_of(i) == child {
                after.lemma_root_of(i, k + 1);
            } else {
                after.lemma_root_of(i, k);
            }
        }
        assert forall|i: int| after.has(i) implies #[trigger] after.grounded(i) by {
            assert(after.is_root(after.root_of(i)));
        }
        assert forall|r: int| after.is_root(r) implies after.weights[r]
            <= (#[trigger] after.members(r)).len() by {
            if r == parent {
                self.lemma_two_trees_bounded(parent, child);
                assert(after.members(parent) =~= self.members(parent) + self.members(child));
            } else {
                assert(after.members(r) =~= self.members(r));
            }
        }
    }

    /// The partition of a well-formed forest is well formed.
    pub proof fn lemma_partition_wf(self)
        requires
            self.wf(),
        ensures
            self.partition().wf(),
            self.partition().len() == self.len(),
    {
        let part = self.partition();
        assert forall|i: int| 0 <= i < part.reps.len() implies 0 <= #[trigger] part.reps[i]
            < part.reps.len() && part.reps[part.reps[i]] == part.reps[i] by {
            self.lemma_root_of_parent(i);
            self.lemma_root_of_parent(self.root_of(i));
        }
    }

    /// The roots of a forest are the representatives of its partition.
    pub proof fn lemma_roots_represent(self)
        requires
            self.wf(),
        ensures
            self.partition().representatives() == self.roots(),
    {
        assert forall|r: int| self.partition().representatives().contains(r)
            <==> self.roots().contains(r) by {
            if self.has(r) {
                self.lemma_root_of_parent(r);
            }
        }
    }

    /// The forest of `n` roots is well formed and stands for the partition
    /// into `n` singletons.
    pub proof fn lemma_singletons(n: nat)
        ensures
            Self::singletons(n).wf(),
            Self::singletons(n).partition() == Partition::singletons(n),
    {
        let forest = Self::singletons(n);
        assert forall|i: int| forest.has(i) implies #[trigger] forest.grounded(i) by {
            assert(forest.is_root(forest.ancestor(i, 0)));
        }
        assert forall|i: int| forest.has(i) implies #[trigger] forest.root_of(i) == i by {
            forest.lemma_root_of(i, 0);
        }
        assert(forest.partition().reps =~= Partition::singletons(n).reps);
    }

    /// Linking the trees of `a` and `b` leaves a well-formed forest, and its
    /// partition is the old one with the sets of `a` and `b` merged.
    pub proof fn lemma_linked(self, a: int, b: int)
        requires
            self.wf(),
            self.has(a),
            self.has(b),
        ensures
            self.linked(a, b).wf(),
            self.linked(a, b).partition() == self.partition().merged(a, b),
    {
        let a_root = self.root_of(a);
        let b_root = self.root_of(b);
        self.lemma_root_of_parent(a);
        self.lemma_root_of_parent(b);
        if a_root != b_root {
            if self.weights[a_root] < self.weights[b_root] {
                self.lemma_grafted(a_root, b_root);
            } else {
                self.lemma_grafted(b_root, a_root);
            }
            assert(self.linked(a, b).partition().reps =~= self.partition().merged(a, b).reps);
            assert(self.linked(a, b).partition().weights
                =~= self.partition().merged(a, b).weights);
        }
    }

    /// Linking two nodes of one tree leaves the number of roots as it was;
    /// linking two nodes of different trees makes it one less.
    pub proof fn lemma_linked_root_count(self, a: int, b: int)
        requires
            self.wf(),
            self.has(a),
            self.has(b),
        ensures
            self.roots().finite(),
            self.root_of(a) == self.root_of(b) ==> self.linked(a, b).roots().len()
                == self.roots().len(),
            self.root_of(a) != self.root_of(b) ==> self.linked(a, b).roots().len()
                == self.roots().len() - 1,
    {
        self.lemma_linked(a, b);
        self.lemma_roots_represent();
        self.linked(a, b).lemma_roots_represent();
        self.lemma_partition_wf();
        self.partition().lemma_set_count_bounded();
        self.partition().lemma_merged_set_count(a, b);
    }
}

} // verus!
