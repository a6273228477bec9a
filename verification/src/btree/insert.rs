use crate::btree::BtreeNode;
use crate::order::{compare, lawful, lemma_connected, lt, Side};
use crate::sorted::{inserted, lemma_inserted_sorted, lemma_rank_parts, lemma_rank_unique, rank};
use crate::sorted_weave::lemma_insert_below;
use crate::weave::{lemma_weave_concat, lemma_weave_split, weave};
use std::fmt::Debug;
use vstd::prelude::*;

verus! {

broadcast use vstd::std_specs::vec::group_vec_axioms;

impl<T: Ord + Clone + Debug> BtreeNode<T> {
    /// This node is `whole` cut in front of its key `at`: it keeps the keys
    /// and, in an inner node, the children that stand in front of that key.
    pub(super) open spec fn is_front_of(self, whole: Self, at: int) -> bool {
        &&& self.degree == whole.degree
        &&& self.is_leaf == whole.is_leaf
        &&& self.keys@ == whole.keys@.subrange(0, at)
        &&& self.children@ == if whole.is_leaf {
            Seq::empty()
        } else {
            whole.children@.subrange(0, at + 1)
        }
    }

    /// This node is `whole` cut behind its key `at`: it holds the keys and,
    /// in an inner node, the children that stand behind that key.
    pub(super) open spec fn is_back_of(self, whole: Self, at: int) -> bool {
        &&& self.degree == whole.degree
        &&& self.is_leaf == whole.is_leaf
        &&& self.keys@ == whole.keys@.subrange(at + 1, whole.keys.len() as int)
        &&& self.children@ == if whole.is_leaf {
            Seq::empty()
        } else {
            whole.children@.subrange(at + 1, whole.children.len() as int)
        }
    }

    /// This node is `before` with its child `i` split at the middle key:
    /// that key stands at position `i` of this node's keys, the child's
    /// front half is child `i`, its back half is child `i + 1`, and all
    /// other keys and children stand in their old order.
    pub(super) open spec fn is_split_of(self, before: Self, i: int) -> bool {
        let whole = before.children[i];
        let mid = before.degree - 1;
        &&& self.degree == before.degree
        &&& self.is_leaf == before.is_leaf
        &&& self.keys@ == before.keys@.insert(i, whole.keys[mid])
        &&& self.children.len() == before.children.len() + 1
        &&& forall|j: int| 0 <= j < i ==> self.children[j] == before.children[j]
        &&& forall|j: int|
            i + 1 < j < self.children.len() ==> self.children[j] == before.children[j - 1]
        &&& self.children[i].is_front_of(*whole, mid)
        &&& self.children[i + 1].is_back_of(*whole, mid)
    }

    /// The two halves of a full node are well shaped, as high as the node
    /// was, and hold its keys: the front half's, the middle key, the back
    /// half's.
    proof fn lemma_halves(whole: Self, left: Self, right: Self)
        requires
            whole.shaped(),
            whole.keys.len() == 2 * whole.degree - 1,
            left.is_front_of(whole, whole.degree - 1),
            right.is_back_of(whole, whole.degree - 1),
        ensures
            left.shaped(),
            right.shaped(),
            left.height() == whole.height(),
            right.height() == whole.height(),
            left.keys.len() == whole.degree - 1,
            right.keys.len() == whole.degree - 1,
            whole.inorder() == left.inorder() + seq![whole.keys[whole.degree - 1]]
                + right.inorder(),
    {
        let t = whole.degree as int;
        let mid = whole.keys@[t - 1];
        assert(whole.keys@ =~= left.keys@ + seq![mid] + right.keys@);
        if !whole.is_leaf {
            assert forall|j: int| 0 <= j < left.children.len() implies {
                &&& (#[trigger] left.children[j]).shaped()
                &&& left.children[j].degree == left.degree
                &&& left.children[j].keys.len() >= left.degree - 1
                &&& left.children[j].height() + 1 == whole.height()
            } by {
                assert(left.children[j] == whole.children[j]);
            }
            assert forall|j: int| 0 <= j < right.children.len() implies {
                &&& (#[trigger] right.children[j]).shaped()
                &&& right.children[j].degree == right.degree
                &&& right.children[j].keys.len() >= right.degree - 1
                &&& right.children[j].height() + 1 == whole.height()
            } by {
                assert(right.children[j] == whole.children[t + j]);
            }
            assert(left.children[0] == whole.children[0]);
            assert(right.children[0] == whole.children[t + 0]);
            assert(whole.parts() =~= left.parts() + right.parts()) by {
                assert forall|j: int| 0 <= j < whole.children.len() implies whole.parts()[j] == (
                left.parts() + right.parts())[j] by {
                    if j < t {
                        assert(left.children[j] == whole.children[j]);
                    } else {
                        assert(right.children[j - t] == whole.children[t + (j - t)]);
                    }
                }
            }
            lemma_weave_concat(left.parts(), left.keys@, mid, right.parts(), right.keys@);
        }
    }

    /// Splitting a full child changes neither what the node holds nor how
    /// high it is, and leaves it well formed.
    proof fn lemma_split(before: Self, after: Self, i: int)
        requires
            before.wf(),
            !before.is_leaf,
            0 <= i < before.children.len(),
            before.children[i].keys.len() == 2 * before.degree - 1,
            before.keys.len() < 2 * before.degree - 1,
            after.is_split_of(before, i),
        ensures
            after.wf(),
            after.inorder() == before.inorder(),
            after.height() == before.height(),
            after.children[i].keys.len() == before.degree - 1,
            after.children[i + 1].keys.len() == before.degree - 1,
    {
        let whole = *before.children[i];
        let left = *after.children[i];
        let right = *after.children[i + 1];
        let mid = whole.keys@[before.degree - 1];
        before.lemma_wf();
        Self::lemma_halves(whole, left, right);
        assert forall|j: int| 0 <= j < after.children.len() implies {
            &&& (#[trigger] after.children[j]).shaped()
            &&& after.children[j].degree == after.degree
            &&& after.children[j].keys.len() >= after.degree - 1
            &&& after.children[j].height() + 1 == before.height()
        } by {
            if j < i {
                assert(after.children[j] == before.children[j]);
            } else if j > i + 1 {
                assert(after.children[j] == before.children[j - 1]);
            }
        }
        assert(after.height() == before.height()) by {
            if i > 0 {
                assert(after.children[0] == before.children[0]);
            }
        }
        let parts = before.parts();
        assert(after.parts() =~= parts.update(i, left.inorder()).insert(i + 1, right.inorder()))
            by {
            assert forall|j: int| 0 <= j < after.children.len() implies after.parts()[j]
                == parts.update(i, left.inorder()).insert(i + 1, right.inorder())[j] by {
                if j < i {
                    assert(after.children[j] == before.children[j]);
                } else if j > i + 1 {
                    assert(after.children[j] == before.children[j - 1]);
                }
            }
        }
        lemma_weave_split(parts, before.keys@, i, left.inorder(), mid, right.inorder());
    }

    /// Splits the full child `i` in two: its middle key moves up into this
    /// node at position `i`, the keys and children behind the middle key
    /// move into a new node that becomes child `i + 1`.
    pub(super) fn split_child(&mut self, i: usize)
        requires
            old(self).wf(),
            !old(self).is_leaf,
            i < old(self).children.len(),
            old(self).children[i as int].keys.len() == 2 * old(self).degree - 1,
            old(self).keys.len() < 2 * old(self).degree - 1,
        ensures
            final(self).is_split_of(*old(self), i as int),
            final(self).layout() == old(self).layout().split_child(
                i as int,
                old(self).degree as int,
            ),
            final(self).wf(),
            final(self).inorder() == old(self).inorder(),
            final(self).height() == old(self).height(),
            final(self).children[i as int].keys.len() == old(self).degree - 1,
            final(self).children[i + 1].keys.len() == old(self).degree - 1,
    {
        let degree = self.degree;
        proof {
            old(self).lemma_wf();
            assert(old(self).children[i as int].shaped());
        }
        let full_child = &mut self.children[i];
        let mut new_child = BtreeNode::new(degree, full_child.is_leaf);
        new_child.keys = full_child.keys.split_off(degree);
        if !full_child.is_leaf {
            new_child.children = full_child.children.split_off(degree);
        }
        let middle_key = full_child.keys.remove(degree - 1);
        self.children.insert(i + 1, Box::new(new_child));
        self.keys.insert(i, middle_key);
        proof {
            let whole = *old(self).children[i as int];
            let left = *self.children[i as int];
            let right = *self.children[i + 1];
            assert(left.keys@ =~= whole.keys@.subrange(0, degree - 1));
            assert(right.keys@ =~= whole.keys@.subrange(degree as int, whole.keys.len() as int));
            if whole.is_leaf {
                assert(left.children@ =~= Seq::empty());
                assert(right.children@ =~= Seq::empty());
            }
            assert(left.is_front_of(whole, degree - 1));
            assert(right.is_back_of(whole, degree - 1));
            assert(self.is_split_of(*old(self), i as int));
            Self::lemma_split(*old(self), *self, i as int);
            Self::lemma_split_layout(*old(self), *self, i as int);
        }
    }

    /// Where `key` has been put into the child at its rank among the keys
    /// of `before`, it has been put into the node.
    proof fn lemma_inserted_below(before: Self, after: Self, i: int, key: T)
        requires
            lawful::<T>(),
            before.wf(),
            !before.is_leaf,
            i == rank(before.keys@, key),
            after.keys@ == before.keys@,
            after.differs_at_child(before, i),
            after.children[i].wf(),
            after.children[i].inorder() == inserted(before.children[i].inorder(), key),
            after.children[i].degree == before.degree,
            after.children[i].keys.len() >= before.children[i].keys.len(),
            after.children[i].height() == before.children[i].height(),
        ensures
            after.wf(),
            after.height() == before.height(),
            after.inorder() == inserted(before.inorder(), key),
    {
        before.lemma_wf();
        lemma_rank_parts(before.keys@, key);
        assert(before.children[i].shaped());
        Self::lemma_child_replaced(before, after, i);
        lemma_insert_below(before.parts(), before.keys@, key);
        lemma_inserted_sorted(before.inorder(), key);
        assert(before.parts()[i] == before.children[i].inorder());
        assert(after.inorder() == weave(after.parts(), after.keys@));
    }

    /// Where `key` was inserted below the child that the layout's rule
    /// names, after that child was split if it was full, the node's layout
    /// is what the rule gives for the node.
    proof fn lemma_insert_layout(start: Self, entered: Self, done: Self, j: int, key: T)
        requires
            start.shaped(),
            !start.is_leaf,
            0 <= rank(start.keys@, key) < start.children.len(),
            entered.shaped(),
            entered.height() == start.height(),
            ({
                let i = rank(start.keys@, key);
                if start.children[i].keys.len() == 2 * start.degree - 1 {
                    &&& entered.layout() == start.layout().split_child(i, start.degree as int)
                    &&& j == if lt(entered.keys[i], key) {
                        i + 1
                    } else {
                        i
                    }
                } else {
                    &&& entered == start
                    &&& j == i
                }
            }),
            0 <= j < entered.children.len(),
            done.keys@ == entered.keys@,
            done.differs_at_child(entered, j),
            done.children[j].layout() == entered.children[j].layout().insert_non_full(
                key,
                start.degree as int,
            ),
        ensures
            done.layout() == start.layout().insert_non_full(key, start.degree as int),
    {
        start.lemma_layout();
        entered.lemma_layout();
        assert(entered.children[j].shaped());
        entered.children[j].lemma_layout();
        Self::lemma_child_layout(entered, done, j);
        assert(start.children[rank(start.keys@, key)].shaped());
        start.children[rank(start.keys@, key)].lemma_layout();
    }

    /// This inner node is `before` after `key` was inserted below it. Where
    /// the child at the rank of `key` was not full, the key was put in
    /// below that child. Else that child was split first, and the key was
    /// put in below its back half where the key that moved up comes before
    /// `key`, else below its front half. Nothing else has changed at this
    /// node.
    pub(super) open spec fn is_inserted_below_of(self, before: Self, key: T) -> bool {
        let i = rank(before.keys@, key);
        if before.children[i].keys.len() < 2 * before.degree - 1 {
            &&& self.keys@ == before.keys@
            &&& self.differs_at_child(before, i)
            &&& self.children[i].inorder() == inserted(before.children[i].inorder(), key)
        } else {
            exists|split: Self|
                {
                    let j = if lt(split.keys[i], key) {
                        i + 1
                    } else {
                        i
                    };
                    &&& #[trigger] split.is_split_of(before, i)
                    &&& self.keys@ == split.keys@
                    &&& self.differs_at_child(split, j)
                    &&& self.children[j].inorder() == inserted(split.children[j].inorder(), key)
                }
        }
    }

    /// Puts `key` into this subtree, whose root is not full: into the leaf
    /// where it belongs, in front of every key that is not smaller. A full
    /// child on the way down is split before it is entered.
    pub(super) fn insert_non_full(&mut self, key: T)
        requires
            lawful::<T>(),
            old(self).wf(),
            old(self).keys.len() < 2 * old(self).degree - 1,
        ensures
            final(self).layout() == old(self).layout().insert_non_full(
                key,
                old(self).degree as int,
            ),
            old(self).is_leaf ==> final(self).keys@ == old(self).keys@.insert(
                rank(old(self).keys@, key),
                key,
            ),
            !old(self).is_leaf ==> final(self).is_inserted_below_of(*old(self), key),
            final(self).wf(),
            final(self).inorder() == inserted(old(self).inorder(), key),
            final(self).height() == old(self).height(),
            final(self).degree == old(self).degree,
            old(self).keys.len() <= final(self).keys.len() <= old(self).keys.len() + 1,
        decreases old(self).height(),
    {
        proof {
            old(self).lemma_wf();
        }
        if self.is_leaf {
            let pos = self.lower_bound(&key);
            self.keys.insert(pos, key);
            proof {
                lemma_inserted_sorted(old(self).inorder(), key);
                old(self).lemma_layout();
                self.lemma_layout();
                assert(self.layout().children =~= Seq::empty());
            }
        } else {
            let mut i = self.lower_bound(&key);
            if self.children[i].is_full() {
                self.split_child(i);
                proof {
                    self.lemma_wf();
                    let mid = self.keys@[i as int];
                    lemma_rank_parts(old(self).keys@, key);
                    lemma_connected(mid, key);
                    if lt(mid, key) {
                        lemma_rank_unique(self.keys@, key, i + 1);
                    } else {
                        lemma_rank_unique(self.keys@, key, i as int);
                    }
                }
                if let Side::After = compare(&key, &self.keys[i]) {
                    i += 1;
                }
            }
            let ghost before = *self;
            proof {
                before.lemma_wf();
                assert(before.children[i as int].shaped());
            }
            self.children[i].insert_non_full(key);
            proof {
                assert(self.keys@ == before.keys@);
                assert(self.children.len() == before.children.len());
                assert(self.children@ == before.children@.update(i as int, self.children[i as int]));
                assert(self.differs_at_child(before, i as int));
                Self::lemma_inserted_below(before, *self, i as int, key);
                Self::lemma_insert_layout(*old(self), before, *self, i as int, key);
                if old(self).children[rank(old(self).keys@, key)].keys.len() == 2 * old(
                    self,
                ).degree - 1 {
                    assert(before.is_split_of(*old(self), rank(old(self).keys@, key)));
                }
            }
        }
    }
}

} // verus!
