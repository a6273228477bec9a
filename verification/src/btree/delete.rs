use crate::btree::BtreeNode;
use crate::layout::Layout;
use crate::order::{compare, duplicate, lawful, lt, Side};
use crate::sorted::{
    lemma_rank_finds, lemma_remove_any, lemma_remove_sorted, lemma_removed_at,
    lemma_removed_sorted, lemma_removed_within, rank, removed,
};
use crate::sorted_weave::lemma_weave_around_rank;
use crate::weave::{
    after, before, key_position, lemma_key_position, lemma_weave_around,
    lemma_weave_key_from_left, lemma_weave_key_from_right, lemma_weave_update,
};
use std::fmt::Debug;
use vstd::prelude::*;

verus! {

broadcast use vstd::std_specs::vec::group_vec_axioms;

impl<T: Ord + Clone + Debug> BtreeNode<T> {
    /// Where the in-order walk of a node that holds a key begins and ends:
    /// in a leaf with its first and last key, in an inner node where the
    /// walks of its first and last child do.
    proof fn lemma_ends(self)
        requires
            self.shaped(),
            self.keys.len() >= 1,
        ensures
            self.inorder().len() > 0,
            self.is_leaf ==> self.inorder().first() == self.keys@.first()
                && self.inorder().last() == self.keys@.last(),
            !self.is_leaf ==> {
                &&& self.children@.first().inorder().len() > 0
                &&& self.children@.last().inorder().len() > 0
                &&& self.inorder().first() == self.children@.first().inorder().first()
                &&& self.inorder().last() == self.children@.last().inorder().last()
                &&& self.layout().first_key() == self.children@.first().layout().first_key()
                &&& self.layout().last_key() == self.children@.last().layout().last_key()
            },
            self.is_leaf ==> self.layout().first_key() == self.keys@.first()
                && self.layout().last_key() == self.keys@.last(),
    {
        self.lemma_layout();
        if !self.is_leaf {
            let n = self.keys.len() as int;
            assert(self.children[0].shaped());
            assert(self.children[n].shaped());
            self.children[0].lemma_holds_keys();
            self.children[n].lemma_holds_keys();
            lemma_weave_around(self.parts(), self.keys@, 0);
            assert(before(self.parts(), self.keys@, 0) =~= Seq::<T>::empty());
        }
    }

    /// The key that comes just before key `idx`: the last key below child
    /// `idx`, found by going down through the last children.
    pub(super) fn get_predecessor(&self, idx: usize) -> (key: T)
        requires
            lawful::<T>(),
            self.shaped(),
            !self.is_leaf,
            idx < self.children.len(),
        ensures
            self.children[idx as int].inorder().len() > 0,
            key == self.children[idx as int].inorder().last(),
            key == self.children[idx as int].layout().last_key(),
    {
        let mut current = &self.children[idx];
        proof {
            current.lemma_ends();
        }
        while !current.is_leaf
            invariant
                current.shaped(),
                current.keys.len() >= 1,
                current.inorder().len() > 0,
                self.children[idx as int].inorder().len() > 0,
                current.inorder().last() == self.children[idx as int].inorder().last(),
                current.layout().last_key() == self.children[idx as int].layout().last_key(),
            decreases current.height(),
        {
            proof {
                current.lemma_ends();
                assert(current.children[current.children.len() - 1].shaped());
            }
            current = &current.children[current.children.len() - 1];
            proof {
                current.lemma_ends();
            }
        }
        duplicate(&current.keys[current.keys.len() - 1])
    }

    /// The key that comes just behind key `idx`: the first key below child
    /// `idx + 1`, found by going down through the first children.
    pub(super) fn get_successor(&self, idx: usize) -> (key: T)
        requires
            lawful::<T>(),
            self.shaped(),
            !self.is_leaf,
            idx < self.keys.len(),
        ensures
            self.children[idx + 1].inorder().len() > 0,
            key == self.children[idx + 1].inorder().first(),
            key == self.children[idx + 1].layout().first_key(),
    {
        let mut current = &self.children[idx + 1];
        proof {
            current.lemma_ends();
        }
        while !current.is_leaf
            invariant
                current.shaped(),
                current.keys.len() >= 1,
                current.inorder().len() > 0,
                self.children[idx + 1].inorder().len() > 0,
                current.inorder().first() == self.children[idx + 1].inorder().first(),
                current.layout().first_key() == self.children[idx + 1].layout().first_key(),
            decreases current.height(),
        {
            proof {
                current.lemma_ends();
                assert(current.children[0].shaped());
            }
            current = &current.children[0];
            proof {
                current.lemma_ends();
            }
        }
        duplicate(&current.keys[0])
    }

    /// Where key `i` of an inner node has been replaced by the key that
    /// comes just before it (`from_left`) or just behind it, and that key
    /// has been deleted below the child it came from, key `i` has been
    /// deleted from the node.
    proof fn lemma_key_replaced(before: Self, later: Self, i: int, from_left: bool)
        requires
            lawful::<T>(),
            before.wf(),
            !before.is_leaf,
            0 <= i < before.keys.len(),
            ({
                let c = if from_left { i } else { i + 1 };
                let below = before.children[c].inorder();
                let next = if from_left { below.last() } else { below.first() };
                &&& below.len() > 0
                &&& later.keys@ == before.keys@.update(i, next)
                &&& later.differs_at_child(before, c)
                &&& later.children[c].wf()
                &&& later.children[c].inorder() == removed(below, next)
                &&& later.children[c].degree == before.degree
                &&& later.children[c].keys.len() >= before.degree - 1
                &&& later.children[c].height() == before.children[c].height()
            }),
        ensures
            later.wf(),
            later.height() == before.height(),
            before.inorder().contains(before.keys[i]),
            later.inorder() == removed(before.inorder(), before.keys[i]),
    {
        let c = if from_left { i } else { i + 1 };
        let parts = before.parts();
        let keys = before.keys@;
        let below = parts[c];
        let w = before.inorder();
        before.lemma_wf();
        assert(before.children[c].shaped());
        assert(below == before.children[c].inorder());
        Self::lemma_child_replaced(before, later, c);
        lemma_key_position(parts, keys, i);
        lemma_remove_any(w, keys[i], key_position(parts, keys, i));
        lemma_removed_sorted(w, keys[i]);
        if from_left {
            lemma_remove_any(below, below.last(), below.len() - 1);
            assert(below.remove(below.len() - 1) =~= below.drop_last());
            lemma_weave_key_from_left(parts, keys, i);
        } else {
            lemma_remove_any(below, below.first(), 0);
            assert(below.remove(0) =~= below.drop_first());
            lemma_weave_key_from_right(parts, keys, i);
        }
    }

    /// Between which places of the in-order walk `key` can stand when it is
    /// none of the node's keys: behind all that comes before the child at
    /// its rank among the keys, and in front of all that comes behind it.
    proof fn lemma_span_of_rank(self, key: T)
        requires
            lawful::<T>(),
            self.wf(),
            !self.is_leaf,
            rank(self.keys@, key) == self.keys.len() || self.keys[rank(self.keys@, key)] != key,
        ensures
            0 <= rank(self.keys@, key) < self.children.len(),
            self.keys_around(rank(self.keys@, key), key),
    {
        let i = rank(self.keys@, key);
        lemma_weave_around_rank(self.parts(), self.keys@, key);
        lemma_weave_around(self.parts(), self.keys@, i);
        let w = self.inorder();
        let front = before(self.parts(), self.keys@, i);
        let back = after(self.parts(), self.keys@, i);
        assert forall|p: int| 0 <= p < self.lead(i) implies lt(#[trigger] w[p], key) by {
            assert(w[p] == front[p]);
        }
        assert forall|p: int| w.len() - self.trail(i) <= p < w.len() implies lt(
            key,
            #[trigger] w[p],
        ) by {
            assert(w[p] == back[p - (w.len() - self.trail(i))]);
        }
    }

    /// All that the in-order walk meets before it enters child `j` comes
    /// before `key`, and all that it meets after it has left that child
    /// comes after `key`.
    pub(super) open spec fn keys_around(self, j: int, key: T) -> bool {
        let w = self.inorder();
        &&& forall|p: int| 0 <= p < self.lead(j) ==> lt(#[trigger] w[p], key)
        &&& forall|p: int| w.len() - self.trail(j) <= p < w.len() ==> lt(key, #[trigger] w[p])
    }

    /// Where a key has been deleted below child `j` of an inner node, and
    /// taking it out of what lies below that child takes it out of the
    /// node's walk, it has been deleted from the node.
    proof fn lemma_removed_below(fixed: Self, later: Self, j: int, key: T)
        requires
            lawful::<T>(),
            fixed.wf(),
            !fixed.is_leaf,
            0 <= j < fixed.children.len(),
            later.keys@ == fixed.keys@,
            later.differs_at_child(fixed, j),
            later.children[j].wf(),
            later.children[j].inorder() == removed(fixed.children[j].inorder(), key),
            later.children[j].degree == fixed.degree,
            later.children[j].keys.len() >= fixed.degree - 1,
            later.children[j].height() == fixed.children[j].height(),
            before(fixed.parts(), fixed.keys@, j) + removed(
                fixed.children[j].inorder(),
                key,
            ) + after(fixed.parts(), fixed.keys@, j) == removed(
                fixed.inorder(),
                key,
            ),
        ensures
            later.wf(),
            later.height() == fixed.height(),
            later.inorder() == removed(fixed.inorder(), key),
    {
        fixed.lemma_wf();
        assert(fixed.children[j].shaped());
        Self::lemma_child_replaced(fixed, later, j);
        lemma_weave_update(fixed.parts(), fixed.keys@, j, later.children[j].inorder());
        lemma_removed_sorted(fixed.inorder(), key);
    }

    /// Where `key` can only stand below child `j` of an inner node, and has
    /// been deleted there, it has been deleted from the node; and it was in
    /// the node exactly if it was below that child.
    proof fn lemma_deleted_below(fixed: Self, later: Self, j: int, key: T)
        requires
            lawful::<T>(),
            fixed.wf(),
            !fixed.is_leaf,
            0 <= j < fixed.children.len(),
            fixed.keys_around(j, key),
            later.keys@ == fixed.keys@,
            later.differs_at_child(fixed, j),
            later.children[j].wf(),
            later.children[j].inorder() == removed(fixed.children[j].inorder(), key),
            later.children[j].degree == fixed.degree,
            later.children[j].keys.len() >= fixed.degree - 1,
            later.children[j].height() == fixed.children[j].height(),
        ensures
            later.wf(),
            later.height() == fixed.height(),
            later.inorder() == removed(fixed.inorder(), key),
            fixed.inorder().contains(key) <==> fixed.children[j].inorder().contains(key),
    {
        let w = fixed.inorder();
        let front = before(fixed.parts(), fixed.keys@, j);
        let back = after(fixed.parts(), fixed.keys@, j);
        fixed.lemma_wf();
        assert(fixed.parts()[j] == fixed.children[j].inorder());
        lemma_weave_around(fixed.parts(), fixed.keys@, j);
        assert forall|p: int| 0 <= p < front.len() implies lt(#[trigger] front[p], key) by {
            assert(front[p] == w[p]);
        }
        assert forall|p: int| 0 <= p < back.len() implies lt(key, #[trigger] back[p]) by {
            assert(back[p] == w[w.len() - back.len() + p]);
        }
        lemma_removed_within(front, fixed.parts()[j], back, key);
        Self::lemma_removed_below(fixed, later, j, key);
    }

    /// Where `key` stands at a known place below child `j` of an inner
    /// node, and has been deleted below that child, it has been deleted
    /// from the node.
    proof fn lemma_deleted_at(fixed: Self, later: Self, j: int, key: T, at: int)
        requires
            lawful::<T>(),
            fixed.wf(),
            !fixed.is_leaf,
            0 <= j < fixed.children.len(),
            0 <= at < fixed.children[j].inorder().len(),
            fixed.children[j].inorder()[at] == key,
            later.keys@ == fixed.keys@,
            later.differs_at_child(fixed, j),
            later.children[j].wf(),
            later.children[j].inorder() == removed(fixed.children[j].inorder(), key),
            later.children[j].degree == fixed.degree,
            later.children[j].keys.len() >= fixed.degree - 1,
            later.children[j].height() == fixed.children[j].height(),
        ensures
            later.wf(),
            later.height() == fixed.height(),
            later.inorder() == removed(fixed.inorder(), key),
    {
        let front = before(fixed.parts(), fixed.keys@, j);
        let back = after(fixed.parts(), fixed.keys@, j);
        fixed.lemma_wf();
        assert(fixed.parts()[j] == fixed.children[j].inorder());
        lemma_weave_around(fixed.parts(), fixed.keys@, j);
        lemma_removed_at(front, fixed.parts()[j], back, key, at);
        Self::lemma_removed_below(fixed, later, j, key);
    }

    /// Where key `i` of an inner node gave way to the key before it
    /// (`from_left`) or behind it, under the layout's rule, and that key
    /// was deleted below the child it came from, the node's layout is what
    /// the rule gives.
    proof fn lemma_replaced_layout(start: Self, done: Self, i: int, from_left: bool)
        requires
            start.shaped(),
            !start.is_leaf,
            0 <= i < start.keys.len(),
            from_left <==> start.children[i].keys.len() >= start.degree,
            !from_left ==> start.children[i + 1].keys.len() >= start.degree,
            ({
                let c = if from_left { i } else { i + 1 };
                let below = start.children[c].layout();
                let next = if from_left { below.last_key() } else { below.first_key() };
                &&& done.keys@ == start.keys@.update(i, next)
                &&& done.differs_at_child(start, c)
                &&& done.children[c].layout() == below.delete(next, start.degree as int)
            }),
        ensures
            done.layout() == start.layout().delete_from_internal(i, start.degree as int),
    {
        let c = if from_left { i } else { i + 1 };
        start.lemma_layout();
        assert(start.children[i].shaped());
        assert(start.children[i + 1].shaped());
        start.children[i].lemma_layout();
        start.children[i + 1].lemma_layout();
        Self::lemma_child_layout(start, done, c);
    }

    /// Where the children around key `i` of an inner node were merged,
    /// under the layout's rule, and the key was deleted below the merged
    /// child, the node's layout is what the rule gives.
    proof fn lemma_merged_layout(start: Self, merged: Self, done: Self, i: int)
        requires
            start.shaped(),
            !start.is_leaf,
            0 <= i < start.keys.len(),
            start.children[i].keys.len() < start.degree,
            start.children[i + 1].keys.len() < start.degree,
            merged.shaped(),
            merged.height() == start.height(),
            merged.layout() == start.layout().merge_children(i),
            done.keys@ == merged.keys@,
            done.differs_at_child(merged, i),
            done.children[i].layout() == merged.children[i].layout().delete(
                start.keys[i],
                start.degree as int,
            ),
        ensures
            done.layout() == start.layout().delete_from_internal(i, start.degree as int),
    {
        start.lemma_layout();
        merged.lemma_layout();
        assert(start.children[i].shaped());
        assert(start.children[i + 1].shaped());
        start.children[i].lemma_layout();
        start.children[i + 1].lemma_layout();
        assert(merged.children[i].shaped());
        merged.children[i].lemma_layout();
        Self::lemma_child_layout(merged, done, i);
    }

    /// Where `key` is none of the keys of an inner node and was deleted
    /// below the child that the layout's rule names, after that child was
    /// given a key if it held too few, the node's layout is what the rule
    /// gives.
    proof fn lemma_delete_layout(start: Self, fixed: Self, done: Self, j: int, key: T)
        requires
            start.shaped(),
            !start.is_leaf,
            0 <= rank(start.keys@, key) < start.children.len(),
            rank(start.keys@, key) == start.keys.len() || start.keys[rank(start.keys@, key)]
                != key,
            fixed.shaped(),
            fixed.height() == start.height(),
            ({
                let i = rank(start.keys@, key);
                &&& if start.children[i].keys.len() < start.degree {
                    fixed.layout() == start.layout().fix_child_underflow(i, start.degree as int)
                } else {
                    fixed == start
                }
                &&& j == if i > 0 && fixed.keys.len() < start.keys.len() {
                    i - 1
                } else {
                    i
                }
            }),
            0 <= j < fixed.children.len(),
            done.keys@ == fixed.keys@,
            done.differs_at_child(fixed, j),
            done.children[j].layout() == fixed.children[j].layout().delete(
                key,
                start.degree as int,
            ),
        ensures
            done.layout() == start.layout().delete(key, start.degree as int),
    {
        let i = rank(start.keys@, key);
        start.lemma_layout();
        fixed.lemma_layout();
        assert(start.children[i].shaped());
        start.children[i].lemma_layout();
        assert(fixed.children[j].shaped());
        fixed.children[j].lemma_layout();
        Self::lemma_child_layout(fixed, done, j);
    }

    /// What the layout's rule gives where `key` is found among the keys of
    /// the node, or the node is a leaf.
    proof fn lemma_delete_here_layout(self, key: T)
        requires
            self.shaped(),
        ensures
            ({
                let i = rank(self.keys@, key);
                let t = self.degree as int;
                if i < self.keys.len() && self.keys[i] == key {
                    if self.is_leaf {
                        self.layout().delete(key, t) == Layout::leaf(self.keys@.remove(i))
                    } else {
                        self.layout().delete(key, t) == self.layout().delete_from_internal(i, t)
                    }
                } else {
                    self.is_leaf ==> self.layout().delete(key, t) == self.layout()
                }
            }),
    {
        self.lemma_layout();
    }

    /// Deleting `key` leaves the root of a tree without a key exactly when
    /// the root gives way as the layout's rule says.
    pub(super) proof fn lemma_root_gives_way(self, key: T)
        requires
            lawful::<T>(),
            self.wf(),
            self.keys.len() >= 1,
        ensures
            self.layout().delete(key, self.degree as int).keys.len() == 0
                <==> Layout::root_gives_way(Some(self.layout()), key, self.degree as int),
    {
        let t = self.degree as int;
        let l = self.layout();
        let i = rank(self.keys@, key);
        let d = l.delete(key, t);
        let n = self.keys.len() as int;
        self.lemma_wf();
        self.lemma_layout();
        crate::sorted::lemma_rank_bounds(self.keys@, key);
        lemma_rank_finds(self.keys@, key);
        if self.is_leaf {
            if n == 1 && self.keys@[0] == key {
                assert(self.keys@.contains(key));
            }
        } else {
            assert forall|c: int| 0 <= c < self.children.len() implies {
                &&& (#[trigger] l.children[c]).keys.len() == self.children[c].keys.len()
                &&& l.children[c].depth() + 1 == l.depth()
                &&& t - 1 <= l.children[c].keys.len()
                &&& l.children[c].children.len() == self.children[c].children.len()
                &&& l.children[c].children.len() == 0 <==> l.children[c].depth() == 0
            } by {
                assert(self.children[c].shaped());
                self.children[c].lemma_layout();
            }
            assert(l.children[0].keys.len() >= t - 1);
            assert(l.children[n].keys.len() >= t - 1);
            if i < n && self.keys@[i] == key {
                let r = l.delete_from_internal(i, t);
                assert(d == r);
                assert(l.children[i].keys.len() >= t - 1);
                assert(l.children[i + 1].keys.len() >= t - 1);
                if l.children[i].keys.len() >= t {
                    assert(r.keys.len() == n);
                } else if l.children[i + 1].keys.len() >= t {
                    assert(r.keys.len() == n);
                } else {
                    let merged = l.merge_children(i);
                    Self::lemma_joined_depth(l, i);
                    assert(r == merged.with_child(i, merged.children[i].delete(l.keys[i], t)));
                    assert(r.keys.len() == n - 1);
                }
            } else {
                assert(l.children[i].keys.len() >= t - 1);
                if l.children[i].keys.len() < t {
                    let fixed = l.fix_child_underflow(i, t);
                    if i > 0 && l.children[i - 1].keys.len() >= t {
                        assert(fixed.keys.len() == n);
                        assert(d.keys.len() == n);
                    } else if i < n && l.children[i + 1].keys.len() >= t {
                        assert(fixed.keys.len() == n);
                        assert(d.keys.len() == n);
                    } else if i > 0 {
                        assert(l.children[i - 1].keys.len() >= t - 1);
                        Self::lemma_joined_depth(l, i - 1);
                        assert(fixed == l.merge_children(i - 1));
                        assert(fixed.keys.len() == n - 1);
                        assert(d == fixed.with_child(i - 1, fixed.children[i - 1].delete(key, t)));
                    } else {
                        assert(l.children[i + 1].keys.len() >= t - 1);
                        Self::lemma_joined_depth(l, i);
                        assert(fixed == l.merge_children(i));
                        assert(fixed.keys.len() == n - 1);
                        assert(d == fixed.with_child(i, fixed.children[i].delete(key, t)));
                    }
                } else {
                    assert(d == l.with_child(i, l.children[i].delete(key, t)));
                }
            }
        }
    }

    /// Two neighbouring children of one depth, joined, are as deep as they
    /// were.
    proof fn lemma_joined_depth(l: Layout<T>, i: int)
        requires
            0 <= i,
            i + 1 < l.children.len(),
            l.children[i].depth() + 1 == l.depth(),
            l.children[i + 1].depth() == l.children[i].depth(),
            l.children[i].children.len() == 0 <==> l.children[i].depth() == 0,
            l.children[i + 1].children.len() == 0 <==> l.children[i + 1].depth() == 0,
        ensures
            l.merge_children(i).children[i].depth() + 1 == l.depth(),
    {
        let joined = l.merge_children(i).children[i];
        assert(joined == Layout::join(l.children[i], l.keys[i], l.children[i + 1]));
        if l.children[i].children.len() > 0 {
            assert(joined.children[0] == l.children[i].children[0]);
        } else {
            assert(joined.children.len() == 0);
        }
    }

    /// Takes key `i` out of a leaf.
    pub(super) fn delete_from_leaf(&mut self, i: usize) -> (found: bool)
        requires
            old(self).wf(),
            old(self).is_leaf,
            i < old(self).keys.len(),
        ensures
            found,
            final(self).wf(),
            final(self).keys@ == old(self).keys@.remove(i as int),
            final(self).layout() == Layout::leaf(old(self).keys@.remove(i as int)),
            final(self).inorder() == old(self).inorder().remove(i as int),
            final(self).height() == old(self).height(),
            final(self).degree == old(self).degree,
    {
        proof {
            lemma_remove_sorted(old(self).keys@, i as int);
        }
        self.keys.remove(i);
        proof {
            self.lemma_layout();
            assert(self.layout().children =~= Seq::empty());
        }
        true
    }

    /// This inner node is `before` after its key `i` was deleted. Where
    /// child `i` held at least `degree` keys, the last key below it stands
    /// in the place of key `i` and is gone from below that child. Else,
    /// where child `i + 1` held at least `degree` keys, the first key below
    /// it stands in the place and is gone from below that child. Else the
    /// two children were merged around key `i`, and the key is gone from
    /// below the merged child. Nothing else has changed at this node.
    pub(super) open spec fn is_key_deleted_of(self, before: Self, i: int) -> bool {
        if before.children[i].keys.len() >= before.degree {
            &&& self.keys@ == before.keys@.update(i, before.children[i].inorder().last())
            &&& self.differs_at_child(before, i)
            &&& self.children[i].inorder() == before.children[i].inorder().drop_last()
        } else if before.children[i + 1].keys.len() >= before.degree {
            &&& self.keys@ == before.keys@.update(i, before.children[i + 1].inorder().first())
            &&& self.differs_at_child(before, i + 1)
            &&& self.children[i + 1].inorder() == before.children[i + 1].inorder().drop_first()
        } else {
            exists|merged: Self|
                {
                    &&& #[trigger] merged.is_merge_of(before, i)
                    &&& self.keys@ == merged.keys@
                    &&& self.differs_at_child(merged, i)
                    &&& self.children[i].inorder() == removed(
                        merged.children[i].inorder(),
                        before.keys[i],
                    )
                }
        }
    }

    /// This inner node is `before` after `key`, which is none of its keys,
    /// was deleted below it. Where the child at the rank of `key` held at
    /// least `degree` keys, the key is gone from below that child. Else
    /// the child's underflow was mended first, and the key is gone from
    /// below the child where it then stood. Nothing else has changed at
    /// this node.
    pub(super) open spec fn is_deleted_below_of(self, before: Self, key: T) -> bool {
        let i = rank(before.keys@, key);
        if before.children[i].keys.len() >= before.degree {
            &&& self.keys@ == before.keys@
            &&& self.differs_at_child(before, i)
            &&& self.children[i].inorder() == removed(before.children[i].inorder(), key)
        } else {
            exists|fixed: Self|
                {
                    &&& #[trigger] fixed.is_fix_of(before, i)
                    &&& self.keys@ == fixed.keys@
                    &&& self.differs_at_child(fixed, fixed.moved_to(before, i))
                    &&& self.children[fixed.moved_to(before, i)].inorder() == removed(
                        fixed.children[fixed.moved_to(before, i)].inorder(),
                        key,
                    )
                }
        }
    }

    /// Whether `key` is one of the keys of this node.
    pub(super) open spec fn holds_key(self, key: T) -> bool {
        rank(self.keys@, key) < self.keys.len() && self.keys[rank(self.keys@, key)] == key
    }

    /// Takes key `i` out of an inner node. Where the child in front of it
    /// can spare a key, the key that comes just before key `i` takes its
    /// place and is deleted below that child; else, where the child behind
    /// it can spare one, the key that comes just behind it; else the two
    /// children are merged around key `i`, and it is deleted below the
    /// merged child.
    pub(super) fn delete_from_internal(&mut self, i: usize) -> (found: bool)
        requires
            lawful::<T>(),
            old(self).wf(),
            !old(self).is_leaf,
            i < old(self).keys.len(),
        ensures
            found,
            final(self).layout() == old(self).layout().delete_from_internal(
                i as int,
                old(self).degree as int,
            ),
            final(self).is_key_deleted_of(*old(self), i as int),
            final(self).wf(),
            final(self).inorder() == removed(old(self).inorder(), old(self).keys[i as int]),
            old(self).inorder().contains(old(self).keys[i as int]),
            final(self).height() == old(self).height(),
            final(self).degree == old(self).degree,
            old(self).keys.len() - 1 <= final(self).keys.len() <= old(self).keys.len(),
        decreases old(self).height(), 0nat,
    {
        proof {
            old(self).lemma_wf();
            assert(old(self).children[i as int].shaped());
            assert(old(self).children[i + 1].shaped());
        }
        let key = duplicate(&self.keys[i]);
        if self.children[i].keys.len() >= self.degree {
            let predecessor = self.get_predecessor(i);
            self.keys[i] = duplicate(&predecessor);
            let found = self.children[i].delete(&predecessor);
            proof {
                let below = old(self).children[i as int].inorder();
                assert(below[below.len() - 1] == predecessor);
                lemma_remove_any(below, predecessor, below.len() - 1);
                assert(below.remove(below.len() - 1) =~= below.drop_last());
                Self::lemma_key_replaced(*old(self), *self, i as int, true);
                Self::lemma_replaced_layout(*old(self), *self, i as int, true);
            }
            found
        } else if self.children[i + 1].keys.len() >= self.degree {
            let successor = self.get_successor(i);
            self.keys[i] = duplicate(&successor);
            let found = self.children[i + 1].delete(&successor);
            proof {
                let below = old(self).children[i + 1].inorder();
                assert(below[0] == successor);
                lemma_remove_any(below, successor, 0);
                assert(below.remove(0) =~= below.drop_first());
                Self::lemma_key_replaced(*old(self), *self, i as int, false);
                Self::lemma_replaced_layout(*old(self), *self, i as int, false);
            }
            found
        } else {
            self.merge_children(i);
            let ghost merged = *self;
            proof {
                merged.lemma_wf();
                assert(merged.children[i as int].shaped());
            }
            let found = self.children[i].delete(&key);
            proof {
                let at = old(self).children[i as int].inorder().len() as int;
                assert(merged.children[i as int].inorder()[at] == key);
                Self::lemma_deleted_at(merged, *self, i as int, key, at);
                lemma_key_position(old(self).parts(), old(self).keys@, i as int);
                Self::lemma_merged_layout(*old(self), merged, *self, i as int);
                assert(merged.is_merge_of(*old(self), i as int));
            }
            found
        }
    }

    /// Takes one `key` out of this subtree, if it is there, and says
    /// whether it was. A child that holds the fewest keys a node may hold
    /// is given one more before it is entered.
    #[verifier::rlimit(50)]
    pub(super) fn delete(&mut self, key: &T) -> (found: bool)
        requires
            lawful::<T>(),
            old(self).wf(),
            old(self).keys.len() >= 1,
        ensures
            found == old(self).inorder().contains(*key),
            final(self).layout() == old(self).layout().delete(*key, old(self).degree as int),
            old(self).is_leaf && old(self).holds_key(*key) ==> final(self).keys@ == old(
                self,
            ).keys@.remove(rank(old(self).keys@, *key)),
            old(self).is_leaf && !old(self).holds_key(*key) ==> *final(self) == *old(self),
            !old(self).is_leaf && old(self).holds_key(*key) ==> final(self).is_key_deleted_of(
                *old(self),
                rank(old(self).keys@, *key),
            ),
            !old(self).is_leaf && !old(self).holds_key(*key) ==> final(self).is_deleted_below_of(
                *old(self),
                *key,
            ),
            final(self).wf(),
            final(self).inorder() == removed(old(self).inorder(), *key),
            final(self).height() == old(self).height(),
            final(self).degree == old(self).degree,
            old(self).keys.len() - 1 <= final(self).keys.len() <= old(self).keys.len(),
        decreases old(self).height(), 1nat,
    {
        proof {
            old(self).lemma_wf();
            old(self).lemma_delete_here_layout(*key);
        }
        let i = self.lower_bound(key);
        if i < self.keys.len() {
            if let Side::Same = compare(&self.keys[i], key) {
                if self.is_leaf {
                    proof {
                        lemma_remove_any(self.keys@, *key, i as int);
                    }
                    return self.delete_from_leaf(i);
                } else {
                    return self.delete_from_internal(i);
                }
            }
        }
        if self.is_leaf {
            proof {
                lemma_rank_finds(self.keys@, *key);
            }
            return false;
        }
        proof {
            self.lemma_span_of_rank(*key);
            assert(self.children[i as int].shaped());
        }
        let keys_before = self.keys.len();
        if self.children[i].keys.len() < self.degree {
            self.fix_child_underflow(i);
        }
        // a merge with the left neighbour has moved the child one place to
        // the left; the node has then lost a key
        let child_idx = if i > 0 && self.keys.len() < keys_before {
            i - 1
        } else {
            i
        };
        let ghost fixed = *self;
        proof {
            fixed.lemma_wf();
            assert(fixed.children[child_idx as int].shaped());
        }
        let found = self.children[child_idx].delete(key);
        proof {
            Self::lemma_deleted_below(fixed, *self, child_idx as int, *key);
            Self::lemma_delete_layout(*old(self), fixed, *self, child_idx as int, *key);
            if old(self).children[i as int].keys.len() < old(self).degree {
                assert(fixed.is_fix_of(*old(self), i as int));
            }
        }
        found
    }
}

} // verus!
