use crate::btree::{Btree, BtreeNode};
use crate::sorted::sorted;
use std::fmt::Debug;
use vstd::prelude::*;

verus! {

broadcast use vstd::std_specs::vec::group_vec_axioms;

impl<T: Ord + Clone + Debug> BtreeNode<T> {
    /// Every leaf of this subtree lies `depth` levels below its root.
    pub closed spec fn leaves_at(self, depth: nat) -> bool
        decreases self,
    {
        if self.children.len() == 0 {
            depth == 0
        } else {
            &&& depth > 0
            &&& forall|i: int|
                0 <= i < self.children.len() ==> (#[trigger] self.children[i]).leaves_at(
                    (depth - 1) as nat,
                )
        }
    }

    /// The root of this subtree holds at least `least` keys, every node
    /// below it at least `degree - 1`, and none more than `2 * degree - 1`.
    pub closed spec fn key_counts_within(self, degree: nat, least: nat) -> bool
        decreases self,
    {
        &&& least <= self.keys.len() <= 2 * degree - 1
        &&& forall|i: int|
            0 <= i < self.children.len() ==> (#[trigger] self.children[i]).key_counts_within(
                degree,
                (degree - 1) as nat,
            )
    }

    /// A well-shaped subtree has all its leaves equally deep, and the key
    /// counts of its nodes within the bounds of its degree.
    pub(super) proof fn lemma_shape(self)
        requires
            self.shaped(),
        ensures
            self.leaves_at(self.height()),
            self.key_counts_within(self.degree as nat, self.keys.len() as nat),
        decreases self,
    {
        assert forall|i: int| 0 <= i < self.children.len() implies {
            &&& (#[trigger] self.children[i]).leaves_at((self.height() - 1) as nat)
            &&& self.children[i].key_counts_within(
                self.degree as nat,
                (self.degree - 1) as nat,
            )
        } by {
            let child = *self.children[i];
            assert(child.shaped());
            child.lemma_shape();
            child.lemma_least((self.degree - 1) as nat);
        }
    }

    /// The layout of a well-shaped subtree is well shaped.
    pub(super) proof fn lemma_layout_shaped(self, least: int)
        requires
            self.shaped(),
            least <= self.keys.len(),
        ensures
            self.layout().shaped(self.degree as int, least),
        decreases self,
    {
        self.lemma_layout();
        let l = self.layout();
        assert forall|i: int| 0 <= i < l.children.len() implies {
            &&& (#[trigger] l.children[i]).shaped(self.degree as int, self.degree - 1)
            &&& l.children[i].depth() + 1 == l.depth()
        } by {
            let child = *self.children[i];
            assert(child.shaped());
            child.lemma_layout();
            child.lemma_layout_shaped(self.degree - 1);
        }
    }

    /// A bound on the root's key count may be lowered.
    proof fn lemma_least(self, least: nat)
        requires
            self.key_counts_within(self.degree as nat, self.keys.len() as nat),
            least <= self.keys.len(),
        ensures
            self.key_counts_within(self.degree as nat, least),
    {
    }
}

impl<T: Ord + Debug + Clone> Btree<T> {
    /// Every leaf of the tree is equally deep.
    pub closed spec fn balanced(self) -> bool {
        match self.root {
            None => true,
            Some(root) => exists|depth: nat| root.leaves_at(depth),
        }
    }

    /// The root holds between 1 and `2 * degree - 1` keys, every other node
    /// between `degree - 1` and `2 * degree - 1`.
    pub closed spec fn within_degree(self) -> bool {
        match self.root {
            None => true,
            Some(root) => root.key_counts_within(self.min_degree(), 1),
        }
    }

    /// The keys of a valid tree stand in sorted order: an in-order walk
    /// never meets a key behind a greater one.
    pub proof fn lemma_keys_sorted(self)
        requires
            self.wf(),
        ensures
            sorted(self@),
    {
    }

    /// Every leaf of a valid tree is equally deep.
    pub proof fn lemma_balanced(self)
        requires
            self.wf(),
        ensures
            self.balanced(),
    {
        if self.root is Some {
            let root = *self.root->0;
            root.lemma_shape();
            assert(root.leaves_at(root.height()));
        }
    }

    /// In a valid tree the root holds between 1 and `2 * degree - 1` keys
    /// and every other node between `degree - 1` and `2 * degree - 1`.
    pub proof fn lemma_within_degree(self)
        requires
            self.wf(),
        ensures
            self.within_degree(),
    {
        if self.root is Some {
            let root = *self.root->0;
            root.lemma_shape();
            root.lemma_least(1);
        }
    }

    /// What the layout of a valid tree is to the tree: an empty tree has
    /// none; else its in-order walk gives the tree's keys, which are sorted,
    /// it is one less deep than the tree is high, it has the shape of a
    /// B-tree of the tree's degree, and its root holds a key.
    pub proof fn lemma_layout(self)
        requires
            self.wf(),
        ensures
            self.min_degree() >= 2,
            match self.layout() {
                None => self@ == Seq::<T>::empty() && self.height() == 0,
                Some(top) => {
                    &&& self@ == top.walk()
                    &&& self@.len() > 0
                    &&& sorted(top.walk())
                    &&& self.height() == top.depth() + 1
                    &&& top.shaped(self.min_degree() as int, 1)
                },
            },
            self.root_is_full() <==> self.layout() is Some && self.layout()->0.keys.len() == 2
                * self.min_degree() - 1,
    {
        if self.root is Some {
            let root = *self.root->0;
            root.lemma_layout();
            root.lemma_layout_walk();
            root.lemma_layout_shaped(1);
            root.lemma_holds_keys();
        }
    }

    /// A valid tree has a root, and so a height of at least 1, exactly when
    /// it holds a key.
    pub proof fn lemma_height_of_empty(self)
        requires
            self.wf(),
        ensures
            self.height() == 0 <==> self@.len() == 0,
    {
        if self.root is Some {
            self.root->0.lemma_holds_keys();
        }
    }
}

} // verus!
