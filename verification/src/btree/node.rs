use crate::btree::BtreeNode;
use crate::order::{compare, lawful, le, lemma_transitive, lt, Side};
use crate::sorted::{lemma_rank_finds, lemma_rank_unique, rank, sorted};
use crate::sorted_weave::{
    lemma_before_grows, lemma_remove_below, lemma_weave_keys_sorted, lemma_weave_part_sorted,
};
use crate::weave::{after, before, key_position, lemma_key_position, lemma_weave_concat, weave};
use std::fmt::Debug;
use vstd::prelude::*;

verus! {

broadcast use vstd::std_specs::vec::group_vec_axioms;

impl<T: Ord + Clone + Debug> BtreeNode<T> {
    /// A node without keys or children.
    pub(super) fn new(degree: usize, is_leaf: bool) -> (node: Self)
        requires
            degree >= 2,
        ensures
            node.keys@ == Seq::<T>::empty(),
            node.children@ == Seq::<Box<BtreeNode<T>>>::empty(),
            node.is_leaf == is_leaf,
            node.degree == degree,
    {
        BtreeNode { keys: Vec::new(), children: Vec::new(), is_leaf, degree }
    }

    /// Whether the node holds as many keys as a node may hold.
    pub(super) fn is_full(&self) -> (full: bool)
        requires
            self.degree >= 2,
        ensures
            full == (self.keys.len() == 2 * self.degree - 1),
    {
        let n = self.keys.len();
        n >= self.degree && n - self.degree == self.degree - 1
    }

    /// The first position among the node's keys whose key is not smaller
    /// than `key`, found by halving.
    pub(super) fn lower_bound(&self, key: &T) -> (i: usize)
        requires
            lawful::<T>(),
            sorted(self.keys@),
        ensures
            i == rank(self.keys@, *key),
            i <= self.keys.len(),
    {
        let mut lo: usize = 0;
        let mut hi: usize = self.keys.len();
        while lo < hi
            invariant
                lawful::<T>(),
                sorted(self.keys@),
                lo <= hi <= self.keys.len(),
                forall|j: int| 0 <= j < lo ==> lt(#[trigger] self.keys@[j], *key),
                forall|j: int| hi <= j < self.keys.len() ==> !lt(#[trigger] self.keys@[j], *key),
            decreases hi - lo,
        {
            let mid = lo + (hi - lo) / 2;
            match compare(&self.keys[mid], key) {
                Side::Before => {
                    proof {
                        assert forall|j: int| 0 <= j < mid + 1 implies lt(
                            #[trigger] self.keys@[j],
                            *key,
                        ) by {
                            if j < mid {
                                assert(le(self.keys@[j], self.keys@[mid as int]));
                                lemma_transitive(self.keys@[j], self.keys@[mid as int], *key);
                            }
                        }
                    }
                    lo = mid + 1;
                },
                _ => {
                    proof {
                        assert forall|j: int| mid <= j < self.keys.len() implies !lt(
                            #[trigger] self.keys@[j],
                            *key,
                        ) by {
                            if mid < j {
                                assert(le(self.keys@[mid as int], self.keys@[j]));
                                lemma_transitive(self.keys@[mid as int], self.keys@[j], *key);
                            }
                        }
                    }
                    hi = mid;
                },
            }
        }
        proof {
            lemma_rank_unique(self.keys@, *key, lo as int);
        }
        lo
    }

    /// Whether `key` is one of the keys of this subtree.
    pub(super) fn search(&self, key: &T) -> (found: bool)
        requires
            lawful::<T>(),
            self.wf(),
        ensures
            found == self.inorder().contains(*key),
        decreases self,
    {
        proof {
            self.lemma_wf();
        }
        let i = self.lower_bound(key);
        if i < self.keys.len() {
            if let Side::Same = compare(&self.keys[i], key) {
                proof {
                    if self.is_leaf {
                        assert(self.inorder()[i as int] == *key);
                    } else {
                        lemma_key_position(self.parts(), self.keys@, i as int);
                        assert(self.inorder()[key_position(self.parts(), self.keys@, i as int)]
                            == *key);
                    }
                }
                return true;
            }
        }
        if self.is_leaf {
            proof {
                lemma_rank_finds(self.keys@, *key);
            }
            false
        } else {
            proof {
                lemma_remove_below(self.parts(), self.keys@, *key);
            }
            self.children[i].search(key)
        }
    }

    /// The keys of a well-formed node are sorted; so is what lies below each
    /// of its children, and each child is well formed.
    pub(super) proof fn lemma_wf(self)
        requires
            self.wf(),
        ensures
            sorted(self.keys@),
            self.is_leaf ==> self.inorder() == self.keys@,
            !self.is_leaf ==> self.inorder() == weave(self.parts(), self.keys@),
            self.parts().len() == self.children.len(),
            forall|i: int|
                0 <= i < self.children.len() ==> {
                    &&& (#[trigger] self.children[i]).wf()
                    &&& self.parts()[i] == self.children[i].inorder()
                },
    {
        if !self.is_leaf {
            lemma_weave_keys_sorted(self.parts(), self.keys@);
            assert forall|i: int| 0 <= i < self.children.len() implies {
                &&& (#[trigger] self.children[i]).wf()
                &&& self.parts()[i] == self.children[i].inorder()
            } by {
                lemma_weave_part_sorted(self.parts(), self.keys@, i);
            }
        }
    }

    /// A subtree holds at least the keys of its root.
    pub(super) proof fn lemma_holds_keys(self)
        requires
            self.shaped(),
        ensures
            self.inorder().len() >= self.keys.len(),
    {
        if !self.is_leaf && self.keys.len() > 0 {
            let last = self.keys.len() - 1;
            lemma_key_position(self.parts(), self.keys@, last);
            lemma_before_grows(self.parts(), self.keys@, 0, last);
            self.lemma_count_before(last);
        }
    }

    /// In front of child `n` stand at least `n` keys.
    proof fn lemma_count_before(self, n: int)
        requires
            0 <= n,
        ensures
            before(self.parts(), self.keys@, n).len() >= n,
        decreases n,
    {
        if n > 0 {
            self.lemma_count_before(n - 1);
        }
    }

    /// A well-formed inner node without a key has one child, which is well
    /// formed, holds a key, and holds all that the node holds.
    pub(super) proof fn lemma_sole_child(self)
        requires
            self.wf(),
            !self.is_leaf,
            self.keys.len() == 0,
        ensures
            self.children.len() == 1,
            self.children[0].wf(),
            self.children[0].degree == self.degree,
            self.children[0].keys.len() >= 1,
            self.children[0].inorder() == self.inorder(),
    {
        self.lemma_wf();
        assert(self.children[0].shaped());
        assert(self.inorder() =~= self.children[0].inorder()) by {
            assert(before(self.parts(), self.keys@, 0) =~= Seq::<T>::empty());
        }
    }

    /// A node whose one child is well formed and holds enough keys, and
    /// which has no key of its own, is well formed and holds what the child
    /// holds.
    pub(super) proof fn lemma_only_child(node: Self)
        requires
            !node.is_leaf,
            node.degree >= 2,
            node.keys.len() == 0,
            node.children.len() == 1,
            node.children[0].wf(),
            node.children[0].degree == node.degree,
            node.children[0].keys.len() >= node.degree - 1,
        ensures
            node.wf(),
            node.inorder() == node.children[0].inorder(),
            node.height() == node.children[0].height() + 1,
    {
        assert(node.inorder() =~= node.children[0].inorder()) by {
            assert(before(node.parts(), node.keys@, 0) =~= Seq::<T>::empty());
        }
    }

    /// The in-order walk of a node made of these keys and children.
    pub(super) open spec fn walk(keys: Seq<T>, children: Seq<Box<Self>>) -> Seq<T> {
        if children.len() == 0 {
            keys
        } else {
            weave(Seq::new(children.len(), |i: int| children[i].inorder()), keys)
        }
    }

    /// The in-order walk of a node is the walk of its keys and children.
    pub(super) proof fn lemma_walk(self)
        requires
            self.is_leaf <==> self.children.len() == 0,
        ensures
            self.inorder() == Self::walk(self.keys@, self.children@),
    {
        if !self.is_leaf {
            assert(self.parts() =~= Seq::new(
                self.children@.len(),
                |i: int| self.children@[i].inorder(),
            ));
        }
    }

    /// The walk of two rows of keys and children joined by a key is the
    /// first row's walk, the key, and the second row's walk.
    pub(super) proof fn lemma_walk_join(
        keys: Seq<T>,
        children: Seq<Box<Self>>,
        mid: T,
        keys2: Seq<T>,
        children2: Seq<Box<Self>>,
    )
        requires
            children.len() == 0 && children2.len() == 0 || children.len() == keys.len() + 1
                && children2.len() == keys2.len() + 1,
        ensures
            Self::walk(keys + seq![mid] + keys2, children + children2) == Self::walk(
                keys,
                children,
            ) + seq![mid] + Self::walk(keys2, children2),
    {
        if children.len() > 0 {
            let all = children + children2;
            let parts = Seq::new(children.len(), |i: int| children[i].inorder());
            let parts2 = Seq::new(children2.len(), |i: int| children2[i].inorder());
            assert(Seq::new(all.len(), |i: int| all[i].inorder()) =~= parts + parts2);
            lemma_weave_concat(parts, keys, mid, parts2, keys2);
        }
    }

    /// The number of keys that the in-order walk meets before it enters
    /// child `i`.
    pub(super) open spec fn lead(self, i: int) -> nat {
        before(self.parts(), self.keys@, i).len()
    }

    /// The number of keys that the in-order walk meets after it has left
    /// child `i`.
    pub(super) open spec fn trail(self, i: int) -> nat {
        after(self.parts(), self.keys@, i).len()
    }

    /// This node has the children of `before` but for child `i`, and as
    /// many keys.
    pub(super) open spec fn differs_at_child(self, before: Self, i: int) -> bool {
        &&& self.degree == before.degree
        &&& self.is_leaf == before.is_leaf
        &&& self.keys.len() == before.keys.len()
        &&& self.children.len() == before.children.len()
        &&& forall|j: int|
            0 <= j < self.children.len() && j != i ==> self.children[j] == before.children[j]
    }

    /// A child may be replaced by a well-shaped node of its height that
    /// holds enough keys: the node keeps its shape and height, and what lies
    /// below it changes at that child only.
    pub(super) proof fn lemma_child_replaced(before: Self, after: Self, i: int)
        requires
            before.shaped(),
            !before.is_leaf,
            0 <= i < before.children.len(),
            after.differs_at_child(before, i),
            after.children[i].shaped(),
            after.children[i].degree == before.degree,
            after.children[i].keys.len() >= before.degree - 1,
            after.children[i].height() == before.children[i].height(),
        ensures
            after.shaped(),
            after.height() == before.height(),
            after.parts() == before.parts().update(i, after.children[i].inorder()),
    {
        assert forall|j: int| 0 <= j < after.children.len() implies {
            &&& (#[trigger] after.children[j]).shaped()
            &&& after.children[j].degree == after.degree
            &&& after.children[j].keys.len() >= after.degree - 1
            &&& after.children[j].height() + 1 == before.height()
        } by {
            if j != i {
                assert(after.children[j] == before.children[j]);
            }
        }
        assert(after.height() == before.height()) by {
            if i != 0 {
                assert(after.children[0] == before.children[0]);
            }
        }
        assert(after.parts() =~= before.parts().update(i, after.children[i].inorder())) by {
            assert forall|j: int| 0 <= j < after.children.len() implies after.parts()[j]
                == before.parts().update(i, after.children[i].inorder())[j] by {
                if j != i {
                    assert(after.children[j] == before.children[j]);
                }
            }
        }
    }
}

} // verus!
