//! Partitions of the nodes `0..n` into disjoint sets, each named by one of
//! its members: what the forest of a `Graph` stands for.

use vstd::prelude::*;
use vstd::set_lib::{lemma_int_range, lemma_len_subset, set_int_range};

verus! {

/// A partition of the nodes `0..len()`.
///
/// `reps[i]` is the representative of the set that holds node `i`, and
/// `weights[r]` is the weight that the representative `r` carries. Weights
/// decide which of two representatives survives a merge; they are no count
/// of the members of a set.
pub ghost struct Partition {
    pub reps: Seq<int>,
    pub weights: Seq<nat>,
}

impl Partition {
    /// The partition of `n` nodes in which every node is alone in its set,
    /// with weight zero.
    pub open spec fn singletons(n: nat) -> Partition {
        Partition { reps: Seq::new(n, |i: int| i), weights: Seq::new(n, |i: int| 0nat) }
    }

    /// The number of nodes.
    pub open spec fn len(self) -> nat {
        self.reps.len()
    }

    /// `i` is one of the nodes.
    pub open spec fn has(self, i: int) -> bool {
        0 <= i < self.len()
    }

    /// Every node has a weight, and its representative is a node that
    /// represents itself.
    pub open spec fn wf(self) -> bool {
        &&& self.weights.len() == self.reps.len()
        &&& forall|i: int|
            0 <= i < self.reps.len() ==> 0 <= #[trigger] self.reps[i] < self.reps.len()
                && self.reps[self.reps[i]] == self.reps[i]
    }

    /// Nodes `a` and `b` are in the same set.
    pub open spec fn same_set(self, a: int, b: int) -> bool {
        self.reps[a] == self.reps[b]
    }

    /// Of the representatives of `a` and `b`, the one that a merge keeps: the
    /// heavier of the two, and that of `a` where they weigh the same.
    pub open spec fn survivor(self, a: int, b: int) -> int {
        if self.weights[self.reps[a]] < self.weights[self.reps[b]] {
            self.reps[b]
        } else {
            self.reps[a]
        }
    }

    /// Of the representatives of `a` and `b`, the one that a merge gives up.
    pub open spec fn absorbed(self, a: int, b: int) -> int {
        if self.weights[self.reps[a]] < self.weights[self.reps[b]] {
            self.reps[a]
        } else {
            self.reps[b]
        }
    }

    /// The partition after the sets of `a` and `b` have been merged.
    ///
    /// Every node of the absorbed set moves to the survivor, whose weight
    /// grows by the weight of the absorbed representative. Where `a` and `b`
    /// are in the same set already, nothing changes.
    pub open spec fn merged(self, a: int, b: int) -> Partition {
        if self.same_set(a, b) {
            self
        } else {
            Partition {
                reps: Seq::new(
                    self.reps.len(),
                    |i: int|
                        if self.reps[i] == self.absorbed(a, b) {
                            self.survivor(a, b)
                        } else {
                            self.reps[i]
                        },
                ),
                weights: self.weights.update(
                    self.survivor(a, b),
                    self.weights[self.survivor(a, b)] + self.weights[self.absorbed(a, b)],
                ),
            }
        }
    }

    /// The nodes that represent a set.
    pub open spec fn representatives(self) -> Set<int> {
        Set::new(|r: int| 0 <= r < self.reps.len() && self.reps[r] == r)
    }

    /// The number of sets.
    pub open spec fn set_count(self) -> nat {
        self.representatives().len()
    }

    /// The partition into singletons is well formed.
    pub proof fn lemma_singletons_wf(n: nat)
        ensures
            Self::singletons(n).wf(),
            Self::singletons(n).len() == n,
    {
    }

    /// In the partition into singletons every node is in the same set as
    /// itself.
    pub proof fn lemma_singletons_reflexive(n: nat, x: int)
        requires
            0 <= x < n,
        ensures
            Self::singletons(n).same_set(x, x),
    {
    }

    /// In the partition into singletons no two different nodes are in the
    /// same set.
    pub proof fn lemma_singletons_isolated(n: nat, x: int, y: int)
        requires
            0 <= x < n,
            0 <= y < n,
            x != y,
        ensures
            !Self::singletons(n).same_set(x, y),
    {
    }

    /// Among `n` singletons there are `n` sets.
    pub proof fn lemma_singletons_set_count(n: nat)
        ensures
            Self::singletons(n).representatives().finite(),
            Self::singletons(n).set_count() == n,
    {
        lemma_int_range(0, n as int);
        assert(Self::singletons(n).representatives() =~= set_int_range(0, n as int));
    }

    /// Being in the same set does not depend on the order of the two nodes.
    pub proof fn lemma_same_set_symmetric(self, a: int, b: int)
        ensures
            self.same_set(a, b) == self.same_set(b, a),
    {
    }

    /// A merge leaves a well-formed partition of the same nodes.
    pub proof fn lemma_merged_wf(self, a: int, b: int)
        requires
            self.wf(),
            self.has(a),
            self.has(b),
        ensures
            self.merged(a, b).wf(),
            self.merged(a, b).len() == self.len(),
    {
    }

    /// After a merge of the sets of `a` and `b`, the two are in the same set.
    pub proof fn lemma_merged_connects(self, a: int, b: int)
        requires
            self.has(a),
            self.has(b),
        ensures
            self.merged(a, b).same_set(a, b),
    {
    }

    /// A merge joins the sets of `a` and `b` and nothing else: two nodes are
    /// in the same set afterwards exactly if they were before, or one was
    /// with `a` and the other with `b`.
    pub proof fn lemma_merged_joins(self, a: int, b: int, x: int, y: int)
        requires
            self.has(a),
            self.has(b),
            self.has(x),
            self.has(y),
        ensures
            self.merged(a, b).same_set(x, y) <==> {
                ||| self.same_set(x, y)
                ||| self.same_set(x, a) && self.same_set(y, b)
                ||| self.same_set(x, b) && self.same_set(y, a)
            },
    {
    }

    /// Merging the sets of `a` and `b` a second time changes nothing.
    pub proof fn lemma_merged_again(self, a: int, b: int)
        requires
            self.has(a),
            self.has(b),
        ensures
            self.merged(a, b).merged(a, b) == self.merged(a, b),
    {
    }

    /// After a merge of the sets of `a` and `b` and one of the sets of `b`
    /// and `c`, the nodes `a` and `c` are in the same set.
    pub proof fn lemma_merged_chain(self, a: int, b: int, c: int)
        requires
            self.has(a),
            self.has(b),
            self.has(c),
        ensures
            self.merged(a, b).merged(b, c).same_set(a, c),
    {
    }

    /// There are at most as many sets as nodes.
    pub proof fn lemma_set_count_bounded(self)
        ensures
            self.representatives().finite(),
            self.set_count() <= self.len(),
    {
        lemma_int_range(0, self.len() as int);
        lemma_len_subset(self.representatives(), set_int_range(0, self.len() as int));
    }

    /// A merge of two nodes of the same set leaves the number of sets as it
    /// was; a merge of two nodes of different sets makes it one less.
    pub proof fn lemma_merged_set_count(self, a: int, b: int)
        requires
            self.wf(),
            self.has(a),
            self.has(b),
        ensures
            self.same_set(a, b) ==> self.merged(a, b).set_count() == self.set_count(),
            !self.same_set(a, b) ==> self.merged(a, b).set_count() == self.set_count() - 1,
    {
        if !self.same_set(a, b) {
            self.lemma_set_count_bounded();
            assert(self.merged(a, b).representatives()
                =~= self.representatives().remove(self.absorbed(a, b)));
        }
    }
}

} // verus!
