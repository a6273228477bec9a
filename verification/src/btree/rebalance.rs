use crate::btree::BtreeNode;
use crate::order::{duplicate, lawful};
use crate::sorted_weave::lemma_before_grows;
use crate::weave::{
    after, before, lemma_after_same, lemma_before_same, lemma_weave_merge,
    lemma_weave_rotate_left, lemma_weave_rotate_right,
};
use std::fmt::Debug;
use vstd::prelude::*;

verus! {

broadcast use vstd::std_specs::vec::group_vec_axioms;

impl<T: Ord + Clone + Debug> BtreeNode<T> {
    /// This node is `left` and `right` joined around the key `mid`: the
    /// keys of `left`, then `mid`, then the keys of `right`; the children of
    /// `left`, then those of `right`.
    pub(super) open spec fn is_join_of(self, left: Self, mid: T, right: Self) -> bool {
        &&& self.degree == left.degree
        &&& self.is_leaf == left.is_leaf
        &&& self.keys@ == left.keys@ + seq![mid] + right.keys@
        &&& self.children@ == left.children@ + right.children@
    }

    /// This node is `before` with its children `i` and `i + 1` merged: key
    /// `i` has left the node's keys and joins the two children, the joined
    /// node stands at `i`, and all other keys and children stand in their
    /// old order.
    pub(super) open spec fn is_merge_of(self, before: Self, i: int) -> bool {
        &&& self.degree == before.degree
        &&& self.is_leaf == before.is_leaf
        &&& self.keys@ == before.keys@.remove(i)
        &&& self.children.len() == before.children.len() - 1
        &&& forall|j: int| 0 <= j < i ==> self.children[j] == before.children[j]
        &&& forall|j: int|
            i < j < self.children.len() ==> self.children[j] == before.children[j + 1]
        &&& self.children[i].is_join_of(
            *before.children[i],
            before.keys[i],
            *before.children[i + 1],
        )
    }

    /// Two equally high, well-shaped nodes that together hold fewer keys than
    /// a node may hold join into a well-shaped node of their height, which
    /// holds what they held and the key between them.
    proof fn lemma_joined(whole: Self, left: Self, mid: T, right: Self)
        requires
            left.shaped(),
            right.shaped(),
            left.degree == right.degree,
            left.height() == right.height(),
            left.keys.len() + right.keys.len() + 1 <= 2 * left.degree - 1,
            whole.is_join_of(left, mid, right),
        ensures
            whole.shaped(),
            whole.height() == left.height(),
            whole.inorder() == left.inorder() + seq![mid] + right.inorder(),
    {
        let n = left.children.len() as int;
        assert forall|j: int| 0 <= j < whole.children.len() implies {
            &&& (#[trigger] whole.children[j]).shaped()
            &&& whole.children[j].degree == whole.degree
            &&& whole.children[j].keys.len() >= whole.degree - 1
            &&& whole.children[j].height() + 1 == left.height()
        } by {
            if j < n {
                assert(whole.children[j] == left.children[j]);
            } else {
                assert(whole.children[j] == right.children[j - n]);
            }
        }
        if !left.is_leaf {
            assert(whole.children[0] == left.children[0]);
        }
        whole.lemma_walk();
        left.lemma_walk();
        right.lemma_walk();
        Self::lemma_walk_join(left.keys@, left.children@, mid, right.keys@, right.children@);
    }

    /// Merging two children changes neither what the node holds nor how
    /// high it is, and leaves it well formed.
    proof fn lemma_merge(before: Self, after: Self, i: int)
        requires
            before.wf(),
            !before.is_leaf,
            0 <= i < before.keys.len(),
            before.children[i].keys.len() == before.degree - 1,
            before.children[i + 1].keys.len() == before.degree - 1,
            after.is_merge_of(before, i),
        ensures
            after.wf(),
            after.inorder() == before.inorder(),
            after.height() == before.height(),
            after.children[i].keys.len() == 2 * before.degree - 1,
            after.children[i].inorder() == before.children[i].inorder() + seq![before.keys[i]]
                + before.children[i + 1].inorder(),
            after.lead(i) == before.lead(i),
            after.trail(i) == before.trail(i + 1),
    {
        let left = *before.children[i];
        let right = *before.children[i + 1];
        let whole = *after.children[i];
        let mid = before.keys@[i];
        before.lemma_wf();
        assert(left.shaped() && right.shaped());
        Self::lemma_joined(whole, left, mid, right);
        assert forall|j: int| 0 <= j < after.children.len() implies {
            &&& (#[trigger] after.children[j]).shaped()
            &&& after.children[j].degree == after.degree
            &&& after.children[j].keys.len() >= after.degree - 1
            &&& after.children[j].height() + 1 == before.height()
        } by {
            if j < i {
                assert(after.children[j] == before.children[j]);
            } else if j > i {
                assert(after.children[j] == before.children[j + 1]);
            }
        }
        assert(after.height() == before.height()) by {
            if i > 0 {
                assert(after.children[0] == before.children[0]);
            }
        }
        let parts = before.parts();
        let joined = parts[i] + seq![mid] + parts[i + 1];
        assert(after.parts() =~= parts.update(i, joined).remove(i + 1)) by {
            assert forall|j: int| 0 <= j < after.children.len() implies after.parts()[j]
                == parts.update(i, joined).remove(i + 1)[j] by {
                if j < i {
                    assert(after.children[j] == before.children[j]);
                } else if j > i {
                    assert(after.children[j] == before.children[j + 1]);
                }
            }
        }
        lemma_weave_merge(parts, before.keys@, i);
        lemma_before_same(parts, before.keys@, after.parts(), after.keys@, i);
        lemma_after_same(parts, before.keys@, i + 1, after.parts(), after.keys@, -1);
    }

    /// Merges the children `idx` and `idx + 1`: key `idx` moves down from
    /// this node to the end of the left child, the right child's keys and
    /// children follow it there, and the right child leaves this node.
    pub(super) fn merge_children(&mut self, idx: usize)
        requires
            old(self).wf(),
            !old(self).is_leaf,
            idx < old(self).keys.len(),
            old(self).children[idx as int].keys.len() == old(self).degree - 1,
            old(self).children[idx + 1].keys.len() == old(self).degree - 1,
        ensures
            final(self).is_merge_of(*old(self), idx as int),
            final(self).layout() == old(self).layout().merge_children(idx as int),
            final(self).wf(),
            final(self).inorder() == old(self).inorder(),
            final(self).height() == old(self).height(),
            final(self).children[idx as int].keys.len() == 2 * old(self).degree - 1,
            final(self).children[idx as int].inorder() == old(self).children[idx as int].inorder()
                + seq![old(self).keys[idx as int]] + old(self).children[idx + 1].inorder(),
            final(self).lead(idx as int) == old(self).lead(idx as int),
            final(self).trail(idx as int) == old(self).trail(idx + 1),
    {
        proof {
            old(self).lemma_wf();
        }
        let key = self.keys.remove(idx);
        let mut right_child = self.children.remove(idx + 1);
        let left_child = &mut self.children[idx];
        left_child.keys.push(key);
        left_child.keys.append(&mut right_child.keys);
        if !left_child.is_leaf {
            left_child.children.append(&mut right_child.children);
        }
        proof {
            let left = *old(self).children[idx as int];
            let right = *old(self).children[idx + 1];
            let whole = *self.children[idx as int];
            assert(left.shaped() && right.shaped());
            if left.is_leaf {
                assert(whole.children@ =~= left.children@ + right.children@);
            }
            assert(whole.keys@ =~= left.keys@ + seq![old(self).keys@[idx as int]] + right.keys@);
            assert(whole.is_join_of(left, old(self).keys@[idx as int], right));
            assert(self.is_merge_of(*old(self), idx as int));
            Self::lemma_merge(*old(self), *self, idx as int);
            Self::lemma_merge_layout(*old(self), *self, idx as int);
        }
    }

    /// This node is `small` with the key `k` put in front of its keys and
    /// the children `extra` (none in a leaf) in front of its children.
    pub(super) open spec fn is_grown_front_of(
        self,
        small: Self,
        k: T,
        extra: Seq<Box<Self>>,
    ) -> bool {
        &&& self.degree == small.degree
        &&& self.is_leaf == small.is_leaf
        &&& self.keys@ == seq![k] + small.keys@
        &&& self.children@ == extra + small.children@
    }

    /// This node is `small` with the key `k` put behind its keys and the
    /// children `extra` (none in a leaf) behind its children.
    pub(super) open spec fn is_grown_back_of(
        self,
        small: Self,
        k: T,
        extra: Seq<Box<Self>>,
    ) -> bool {
        &&& self.degree == small.degree
        &&& self.is_leaf == small.is_leaf
        &&& self.keys@ == small.keys@ + seq![k]
        &&& self.children@ == small.children@ + extra
    }

    /// The child that a node of this leafness hands over with a key: none
    /// from a leaf, one from an inner node.
    pub(super) open spec fn goes_with_key(self, extra: Seq<Box<Self>>) -> bool {
        extra.len() == if self.is_leaf {
            0nat
        } else {
            1nat
        }
    }

    /// What a grown node holds: what the small one held, the new key, and
    /// what lies below the new child, on the side where they were put.
    proof fn lemma_grown_walk(big: Self, small: Self, k: T, extra: Seq<Box<Self>>)
        requires
            small.is_leaf <==> small.children.len() == 0,
            !small.is_leaf ==> small.children.len() == small.keys.len() + 1,
            small.goes_with_key(extra),
        ensures
            big.is_grown_front_of(small, k, extra) ==> big.inorder() == Self::walk(
                Seq::empty(),
                extra,
            ) + seq![k] + small.inorder(),
            big.is_grown_back_of(small, k, extra) ==> big.inorder() == small.inorder() + seq![k]
                + Self::walk(Seq::empty(), extra),
            extra.len() == 1 ==> Self::walk(Seq::empty(), extra) == extra[0].inorder(),
            extra.len() == 0 ==> Self::walk(Seq::empty(), extra) == Seq::<T>::empty(),
    {
        small.lemma_walk();
        if big.is_grown_front_of(small, k, extra) {
            big.lemma_walk();
            Self::lemma_walk_join(Seq::empty(), extra, k, small.keys@, small.children@);
            assert(Seq::<T>::empty() + seq![k] + small.keys@ =~= seq![k] + small.keys@);
        }
        if big.is_grown_back_of(small, k, extra) {
            big.lemma_walk();
            Self::lemma_walk_join(small.keys@, small.children@, k, Seq::empty(), extra);
            assert(small.keys@ + seq![k] + Seq::<T>::empty() =~= small.keys@ + seq![k]);
        }
        if extra.len() == 1 {
            let parts = Seq::new(extra.len(), |i: int| extra[i].inorder());
            assert(before(parts, Seq::<T>::empty(), 0) =~= Seq::<T>::empty());
            assert(Self::walk(Seq::empty(), extra) =~= extra[0].inorder());
        }
    }

    /// A well-shaped node that is not full stays well shaped, and as high as
    /// it was, when it is given a key and with it a child that fits.
    proof fn lemma_grown_shaped(big: Self, small: Self, k: T, extra: Seq<Box<Self>>)
        requires
            small.shaped(),
            small.keys.len() < 2 * small.degree - 1,
            small.goes_with_key(extra),
            big.is_grown_front_of(small, k, extra) || big.is_grown_back_of(small, k, extra),
            forall|j: int|
                0 <= j < extra.len() ==> {
                    &&& (#[trigger] extra[j]).shaped()
                    &&& extra[j].degree == small.degree
                    &&& extra[j].keys.len() >= small.degree - 1
                    &&& extra[j].height() + 1 == small.height()
                },
        ensures
            big.shaped(),
            big.height() == small.height(),
            big.keys.len() == small.keys.len() + 1,
    {
        if !small.is_leaf {
            let front = big.is_grown_front_of(small, k, extra);
            assert forall|j: int| 0 <= j < big.children.len() implies {
                &&& (#[trigger] big.children[j]).shaped()
                &&& big.children[j].degree == big.degree
                &&& big.children[j].keys.len() >= big.degree - 1
                &&& big.children[j].height() + 1 == small.height()
            } by {
                if front {
                    if j == 0 {
                        assert(big.children[j] == extra[0]);
                    } else {
                        assert(big.children[j] == small.children[j - 1]);
                    }
                } else {
                    if j < small.children.len() {
                        assert(big.children[j] == small.children[j]);
                    } else {
                        assert(big.children[j] == extra[0]);
                    }
                }
            }
            assert(big.children[0].height() + 1 == small.height());
        }
    }

    /// A well-shaped node that holds a key stays well shaped, and as high as
    /// it was, when its first or last key is taken from it and with it the
    /// child on that side; that child fits a node of this height.
    proof fn lemma_shrunk_shaped(big: Self, small: Self, k: T, extra: Seq<Box<Self>>)
        requires
            big.shaped(),
            small.goes_with_key(extra),
            big.is_grown_front_of(small, k, extra) || big.is_grown_back_of(small, k, extra),
        ensures
            small.shaped(),
            small.height() == big.height(),
            small.keys.len() + 1 == big.keys.len(),
            forall|j: int|
                0 <= j < extra.len() ==> {
                    &&& (#[trigger] extra[j]).shaped()
                    &&& extra[j].degree == big.degree
                    &&& extra[j].keys.len() >= big.degree - 1
                    &&& extra[j].height() + 1 == big.height()
                },
    {
        if !big.is_leaf {
            let front = big.is_grown_front_of(small, k, extra);
            assert forall|j: int| 0 <= j < small.children.len() implies {
                &&& (#[trigger] small.children[j]).shaped()
                &&& small.children[j].degree == small.degree
                &&& small.children[j].keys.len() >= small.degree - 1
                &&& small.children[j].height() + 1 == big.height()
            } by {
                if front {
                    assert(small.children[j] == big.children[j + 1]);
                } else {
                    assert(small.children[j] == big.children[j]);
                }
            }
            assert(small.children[0].height() + 1 == big.height());
            assert forall|j: int| 0 <= j < extra.len() implies {
                &&& (#[trigger] extra[j]).shaped()
                &&& extra[j].degree == big.degree
                &&& extra[j].keys.len() >= big.degree - 1
                &&& extra[j].height() + 1 == big.height()
            } by {
                if front {
                    assert(extra[j] == big.children[0]);
                } else {
                    assert(extra[j] == big.children[small.children.len() as int]);
                }
            }
        }
    }

    /// The child that leaves `giver` with a key taken at its end (`at_end`)
    /// or at its front: none where `giver` is a leaf.
    pub(super) open spec fn handed_over(giver: Self, at_end: bool) -> Seq<Box<Self>> {
        if giver.is_leaf {
            Seq::empty()
        } else if at_end {
            seq![giver.children@.last()]
        } else {
            seq![giver.children@.first()]
        }
    }

    /// This node is `before` after child `i` has lent to child `i + 1`: the
    /// last key of child `i` stands in the place of key `i`, the old key
    /// `i` stands in front of the keys of child `i + 1`, and the last child
    /// of child `i`, if it has children, in front of that node's children.
    pub(super) open spec fn is_loan_right_of(self, before: Self, i: int) -> bool {
        let giver = *before.children[i];
        let taker = *before.children[i + 1];
        let extra = Self::handed_over(giver, true);
        &&& self.degree == before.degree
        &&& self.is_leaf == before.is_leaf
        &&& self.keys@ == before.keys@.update(i, giver.keys@.last())
        &&& self.children.len() == before.children.len()
        &&& forall|j: int|
            0 <= j < self.children.len() && j != i && j != i + 1 ==> self.children[j]
                == before.children[j]
        &&& giver.is_grown_back_of(*self.children[i], giver.keys@.last(), extra)
        &&& self.children[i + 1].is_grown_front_of(taker, before.keys[i], extra)
    }

    /// This node is `before` after child `i + 1` has lent to child `i`: the
    /// first key of child `i + 1` stands in the place of key `i`, the old
    /// key `i` stands behind the keys of child `i`, and the first child of
    /// child `i + 1`, if it has children, behind that node's children.
    pub(super) open spec fn is_loan_left_of(self, before: Self, i: int) -> bool {
        let giver = *before.children[i + 1];
        let taker = *before.children[i];
        let extra = Self::handed_over(giver, false);
        &&& self.degree == before.degree
        &&& self.is_leaf == before.is_leaf
        &&& self.keys@ == before.keys@.update(i, giver.keys@.first())
        &&& self.children.len() == before.children.len()
        &&& forall|j: int|
            0 <= j < self.children.len() && j != i && j != i + 1 ==> self.children[j]
                == before.children[j]
        &&& giver.is_grown_front_of(*self.children[i + 1], giver.keys@.first(), extra)
        &&& self.children[i].is_grown_back_of(taker, before.keys[i], extra)
    }

    /// A loan between two neighbouring children changes neither what the
    /// node holds nor how high it is, and leaves it well formed; the taker
    /// has one key more, the giver one less.
    proof fn lemma_loan(before: Self, after: Self, i: int, to_right: bool)
        requires
            before.wf(),
            !before.is_leaf,
            0 <= i < before.keys.len(),
            to_right ==> before.children[i].keys.len() >= before.degree
                && before.children[i + 1].keys.len() < 2 * before.degree - 1
                && after.is_loan_right_of(before, i),
            !to_right ==> before.children[i + 1].keys.len() >= before.degree
                && before.children[i].keys.len() < 2 * before.degree - 1
                && after.is_loan_left_of(before, i),
        ensures
            after.wf(),
            after.inorder() == before.inorder(),
            after.height() == before.height(),
            after.children[i].keys.len() == before.children[i].keys.len() + if to_right {
                -1int
            } else {
                1int
            },
            after.children[i + 1].keys.len() == before.children[i + 1].keys.len() + if to_right {
                1int
            } else {
                -1int
            },
            after.lead(i) == before.lead(i),
            after.trail(i + 1) == before.trail(i + 1),
            to_right ==> after.lead(i + 1) <= before.lead(i + 1),
            !to_right ==> after.trail(i) <= before.trail(i),
    {
        let giver = if to_right { *before.children[i] } else { *before.children[i + 1] };
        let taker = if to_right { *before.children[i + 1] } else { *before.children[i] };
        let less = if to_right { *after.children[i] } else { *after.children[i + 1] };
        let more = if to_right { *after.children[i + 1] } else { *after.children[i] };
        let extra = Self::handed_over(giver, to_right);
        let up = if to_right { giver.keys@.last() } else { giver.keys@.first() };
        let down = before.keys@[i];
        before.lemma_wf();
        assert(giver.shaped() && taker.shaped());
        assert(giver.is_leaf == taker.is_leaf);
        Self::lemma_shrunk_shaped(giver, less, up, extra);
        Self::lemma_grown_shaped(more, taker, down, extra);
        Self::lemma_grown_walk(giver, less, up, extra);
        Self::lemma_grown_walk(more, taker, down, extra);
        let moved = Self::walk(Seq::empty(), extra);
        let parts = before.parts();
        let keys = before.keys@;
        assert forall|j: int| 0 <= j < after.children.len() implies {
            &&& (#[trigger] after.children[j]).shaped()
            &&& after.children[j].degree == after.degree
            &&& after.children[j].keys.len() >= after.degree - 1
            &&& after.children[j].height() + 1 == before.height()
        } by {
            if j != i && j != i + 1 {
                assert(after.children[j] == before.children[j]);
            }
        }
        assert(after.height() == before.height()) by {
            if i > 0 {
                assert(after.children[0] == before.children[0]);
            }
        }
        let parts2 = if to_right {
            parts.update(i, less.inorder()).update(i + 1, moved + seq![down] + parts[i + 1])
        } else {
            parts.update(i, parts[i] + seq![down] + moved).update(i + 1, less.inorder())
        };
        assert(after.parts() =~= parts2) by {
            assert forall|j: int| 0 <= j < after.children.len() implies after.parts()[j]
                == parts2[j] by {
                if j != i && j != i + 1 {
                    assert(after.children[j] == before.children[j]);
                }
            }
        }
        if to_right {
            lemma_weave_rotate_right(parts, keys, i, less.inorder(), up, moved);
        } else {
            lemma_weave_rotate_left(parts, keys, i, moved, up, less.inorder());
        }
        lemma_before_same(parts, keys, parts2, after.keys@, i);
        lemma_after_same(parts, keys, i + 1, parts2, after.keys@, 0);
    }

    /// Child `idx` takes a key from its left neighbour: the key between the
    /// two moves down to the front of child `idx`, the neighbour's last key
    /// moves up into its place, and the neighbour's last child, if it has
    /// children, becomes the first child of child `idx`.
    pub(super) fn borrow_from_left_sibling(&mut self, idx: usize)
        requires
            lawful::<T>(),
            old(self).wf(),
            !old(self).is_leaf,
            0 < idx < old(self).children.len(),
            old(self).children[idx - 1].keys.len() >= old(self).degree,
            old(self).children[idx as int].keys.len() < 2 * old(self).degree - 1,
        ensures
            final(self).is_loan_right_of(*old(self), idx - 1),
            final(self).layout() == old(self).layout().borrow_from_left_sibling(idx as int),
            final(self).wf(),
            final(self).inorder() == old(self).inorder(),
            final(self).height() == old(self).height(),
            final(self).children[idx as int].keys.len() == old(self).children[idx as int].keys.len()
                + 1,
            final(self).lead(idx as int) <= old(self).lead(idx as int),
            final(self).trail(idx as int) == old(self).trail(idx as int),
    {
        proof {
            old(self).lemma_wf();
            assert(old(self).children[idx - 1].shaped());
            assert(old(self).children[idx as int].shaped());
        }
        let down = duplicate(&self.keys[idx - 1]);
        let sibling = &mut self.children[idx - 1];
        let up = sibling.keys.pop().unwrap();
        let moved = sibling.children.pop();
        self.keys[idx - 1] = up;
        let child = &mut self.children[idx];
        child.keys.insert(0, down);
        if let Some(node) = moved {
            child.children.insert(0, node);
        }
        proof {
            let giver = *old(self).children[idx - 1];
            let taker = *old(self).children[idx as int];
            let less = *self.children[idx - 1];
            let more = *self.children[idx as int];
            let extra = Self::handed_over(giver, true);
            assert(giver.keys@ =~= less.keys@ + seq![up]);
            assert(giver.children@ =~= less.children@ + extra);
            assert(more.keys@ =~= seq![down] + taker.keys@);
            assert(more.children@ =~= extra + taker.children@);
            assert(self.is_loan_right_of(*old(self), idx - 1));
            Self::lemma_loan(*old(self), *self, idx - 1, true);
            Self::lemma_loan_layout(*old(self), *self, idx - 1, true);
        }
    }

    /// Child `idx` takes a key from its right neighbour: the key between
    /// the two moves down to the end of child `idx`, the neighbour's first
    /// key moves up into its place, and the neighbour's first child, if it
    /// has children, becomes the last child of child `idx`.
    pub(super) fn borrow_from_right_sibling(&mut self, idx: usize)
        requires
            lawful::<T>(),
            old(self).wf(),
            !old(self).is_leaf,
            idx < old(self).keys.len(),
            old(self).children[idx + 1].keys.len() >= old(self).degree,
            old(self).children[idx as int].keys.len() < 2 * old(self).degree - 1,
        ensures
            final(self).is_loan_left_of(*old(self), idx as int),
            final(self).layout() == old(self).layout().borrow_from_right_sibling(idx as int),
            final(self).wf(),
            final(self).inorder() == old(self).inorder(),
            final(self).height() == old(self).height(),
            final(self).children[idx as int].keys.len() == old(self).children[idx as int].keys.len()
                + 1,
            final(self).lead(idx as int) == old(self).lead(idx as int),
            final(self).trail(idx as int) <= old(self).trail(idx as int),
    {
        proof {
            old(self).lemma_wf();
            assert(old(self).children[idx + 1].shaped());
            assert(old(self).children[idx as int].shaped());
        }
        let down = duplicate(&self.keys[idx]);
        let sibling = &mut self.children[idx + 1];
        let up = sibling.keys.remove(0);
        let moved = if sibling.is_leaf {
            None
        } else {
            Some(sibling.children.remove(0))
        };
        self.keys[idx] = up;
        let child = &mut self.children[idx];
        child.keys.push(down);
        if let Some(node) = moved {
            child.children.push(node);
        }
        proof {
            let giver = *old(self).children[idx + 1];
            let taker = *old(self).children[idx as int];
            let less = *self.children[idx + 1];
            let more = *self.children[idx as int];
            let extra = Self::handed_over(giver, false);
            assert(giver.keys@ =~= seq![up] + less.keys@);
            assert(giver.children@ =~= extra + less.children@);
            assert(more.keys@ =~= taker.keys@ + seq![down]);
            assert(more.children@ =~= taker.children@ + extra);
            assert(self.is_loan_left_of(*old(self), idx as int));
            Self::lemma_loan(*old(self), *self, idx as int, false);
            Self::lemma_loan_layout(*old(self), *self, idx as int, false);
        }
    }

    /// Where the child that stood at `idx` of `before` stands in this node,
    /// which came from `before` by one loan or merge: one place to the left
    /// where it was merged into its left neighbour, else where it stood.
    pub(super) open spec fn moved_to(self, before: Self, idx: int) -> int {
        if idx > 0 && self.keys.len() < before.keys.len() {
            idx - 1
        } else {
            idx
        }
    }

    /// This node is `before` after the underflow of its child `idx` was
    /// mended: by a loan from the left neighbour where there is one and it
    /// held at least `degree` keys; else by a loan from the right neighbour
    /// on the same terms; else by a merge with the left neighbour or, for
    /// the first child, with the right one.
    pub(super) open spec fn is_fix_of(self, before: Self, idx: int) -> bool {
        if idx > 0 && before.children[idx - 1].keys.len() >= before.degree {
            self.is_loan_right_of(before, idx - 1)
        } else if idx < before.keys.len() && before.children[idx + 1].keys.len()
            >= before.degree {
            self.is_loan_left_of(before, idx)
        } else if idx > 0 {
            self.is_merge_of(before, idx - 1)
        } else {
            self.is_merge_of(before, idx)
        }
    }

    /// Gives child `idx`, which holds the fewest keys a node may hold, one
    /// key more before a key is deleted below it: by a loan from the left
    /// neighbour where that one can spare a key, else from the right one,
    /// else by a merge with the left neighbour or, for the first child,
    /// with the right one.
    pub(super) fn fix_child_underflow(&mut self, idx: usize)
        requires
            lawful::<T>(),
            old(self).wf(),
            !old(self).is_leaf,
            old(self).keys.len() >= 1,
            idx < old(self).children.len(),
            old(self).children[idx as int].keys.len() < old(self).degree,
        ensures
            final(self).is_fix_of(*old(self), idx as int),
            final(self).layout() == old(self).layout().fix_child_underflow(
                idx as int,
                old(self).degree as int,
            ),
            final(self).wf(),
            final(self).inorder() == old(self).inorder(),
            final(self).height() == old(self).height(),
            final(self).degree == old(self).degree,
            final(self).is_leaf == old(self).is_leaf,
            old(self).keys.len() - 1 <= final(self).keys.len() <= old(self).keys.len(),
            0 <= final(self).moved_to(*old(self), idx as int) < final(self).children.len(),
            final(self).children[final(self).moved_to(*old(self), idx as int)].keys.len() >= old(
                self,
            ).degree,
            final(self).lead(final(self).moved_to(*old(self), idx as int)) <= old(self).lead(
                idx as int,
            ),
            final(self).trail(final(self).moved_to(*old(self), idx as int)) <= old(self).trail(
                idx as int,
            ),
    {
        proof {
            old(self).lemma_wf();
            assert(old(self).children[idx as int].shaped());
            if idx > 0 {
                assert(old(self).children[idx - 1].shaped());
                lemma_before_grows(old(self).parts(), old(self).keys@, idx - 1, idx as int);
            }
            if idx < old(self).keys.len() {
                assert(old(self).children[idx + 1].shaped());
            }
        }
        if idx > 0 && self.children[idx - 1].keys.len() >= self.degree {
            self.borrow_from_left_sibling(idx);
        } else if idx < self.children.len() - 1 && self.children[idx + 1].keys.len()
            >= self.degree {
            self.borrow_from_right_sibling(idx);
        } else {
            if idx > 0 {
                self.merge_children(idx - 1);
            } else {
                self.merge_children(idx);
            }
        }
        proof {
            Self::lemma_fix_layout(*old(self), *self, idx as int);
        }
    }
}

} // verus!
