use crate::order::lt;
use crate::sorted::rank;
use crate::weave::weave;
use vstd::prelude::*;

verus! {

/// How the keys of a subtree are laid out in nodes: the keys of its root
/// and, for an inner node, the layouts of the root's children in order. A
/// leaf has no children.
pub struct Layout<T> {
    pub keys: Seq<T>,
    pub children: Seq<Layout<T>>,
}

/// The depth one level further down. Depths are counted in `usize` and stop
/// growing at its greatest value.
pub open spec fn deeper(depth: usize) -> usize {
    if depth < usize::MAX {
        (depth + 1) as usize
    } else {
        depth
    }
}

impl<T: Ord> Layout<T> {
    /// A leaf that holds these keys.
    pub open spec fn leaf(keys: Seq<T>) -> Self {
        Layout { keys, children: Seq::empty() }
    }

    /// Whether the node has no children.
    pub open spec fn is_leaf(self) -> bool {
        self.children.len() == 0
    }

    /// How many levels lie below the root.
    pub open spec fn depth(self) -> nat
        decreases self,
    {
        if self.children.len() == 0 {
            0
        } else {
            1 + self.children[0].depth()
        }
    }

    /// The in-order walks of the children.
    pub open spec fn parts(self) -> Seq<Seq<T>>
        decreases self, 0nat,
    {
        Seq::new(
            self.children.len(),
            |i: int|
                if 0 <= i < self.children.len() {
                    self.children[i].walk()
                } else {
                    Seq::empty()
                },
        )
    }

    /// The keys as an in-order walk meets them: those of a leaf as they
    /// stand, those of an inner node woven with its children's walks.
    pub open spec fn walk(self) -> Seq<T>
        decreases self, 1nat,
    {
        if self.children.len() == 0 {
            self.keys
        } else {
            weave(self.parts(), self.keys)
        }
    }

    /// The shape of a subtree of minimum degree `t` whose root holds at
    /// least `least` keys: no node holds more than `2 * t - 1` keys, none
    /// below the root fewer than `t - 1`; an inner node has one more child
    /// than keys; and the children of a node are equally deep, so every
    /// leaf is.
    pub open spec fn shaped(self, t: int, least: int) -> bool
        decreases self,
    {
        &&& least <= self.keys.len() <= 2 * t - 1
        &&& self.is_leaf() || self.children.len() == self.keys.len() + 1
        &&& forall|i: int|
            0 <= i < self.children.len() ==> {
                &&& (#[trigger] self.children[i]).shaped(t, t - 1)
                &&& self.children[i].depth() + 1 == self.depth()
            }
    }

    /// What a walk in pre-order sees of the subtree, whose root lies at
    /// `depth`: of each node its depth, its keys and whether it is a leaf;
    /// the root first, then each child's subtree in turn.
    pub open spec fn rows(self, depth: usize) -> Seq<(usize, Seq<T>, bool)>
        decreases self, 1nat, 0nat,
    {
        seq![(depth, self.keys, self.is_leaf())] + self.rows_below(depth, self.children.len())
    }

    /// What a walk in pre-order sees of the first `n` children's subtrees.
    pub open spec fn rows_below(self, depth: usize, n: nat) -> Seq<(usize, Seq<T>, bool)>
        decreases self, 0nat, n,
    {
        if n == 0 || n > self.children.len() {
            Seq::empty()
        } else {
            self.rows_below(depth, (n - 1) as nat) + self.children[n - 1].rows(deeper(depth))
        }
    }

    /// What a walk in pre-order sees of a tree: nothing of an empty tree.
    pub open spec fn tree_rows(root: Option<Self>) -> Seq<(usize, Seq<T>, bool)> {
        match root {
            None => Seq::empty(),
            Some(top) => top.rows(0),
        }
    }

    /// The node cut in front of its key `at`: the keys and, in an inner
    /// node, the children that stand in front of that key.
    pub open spec fn front(self, at: int) -> Self {
        Layout {
            keys: self.keys.subrange(0, at),
            children: if self.is_leaf() {
                Seq::empty()
            } else {
                self.children.subrange(0, at + 1)
            },
        }
    }

    /// The node cut behind its key `at`: the keys and, in an inner node,
    /// the children that stand behind that key.
    pub open spec fn back(self, at: int) -> Self {
        Layout {
            keys: self.keys.subrange(at + 1, self.keys.len() as int),
            children: if self.is_leaf() {
                Seq::empty()
            } else {
                self.children.subrange(at + 1, self.children.len() as int)
            },
        }
    }

    /// The node with its full child `i` split, for minimum degree `t`: the
    /// child's key `t - 1` moves up to position `i` of the node's keys, what
    /// stood in front of it stays child `i`, what stood behind it becomes
    /// child `i + 1`.
    pub open spec fn split_child(self, i: int, t: int) -> Self {
        let whole = self.children[i];
        Layout {
            keys: self.keys.insert(i, whole.keys[t - 1]),
            children: self.children.update(i, whole.front(t - 1)).insert(
                i + 1,
                whole.back(t - 1),
            ),
        }
    }

    /// The node with child `j` replaced.
    pub open spec fn with_child(self, j: int, child: Self) -> Self {
        Layout { keys: self.keys, children: self.children.update(j, child) }
    }

    /// The subtree after `key` was inserted below a root that is not full,
    /// for minimum degree `t`. A leaf takes the key at its rank. An inner
    /// node hands it to the child at the key's rank; where that child holds
    /// `2 * t - 1` keys it is split first, and the key goes to the back
    /// half where the key that moved up comes before it. (A child is less
    /// deep than its node in every layout of a tree; a layout where it is
    /// not stays as it is.)
    pub open spec fn insert_non_full(self, key: T, t: int) -> Self
        decreases self.depth(),
    {
        let i = rank(self.keys, key);
        if self.is_leaf() {
            Layout::leaf(self.keys.insert(i, key))
        } else if self.children[i].keys.len() == 2 * t - 1 {
            let split = self.split_child(i, t);
            let j = if lt(split.keys[i], key) {
                i + 1
            } else {
                i
            };
            if split.children[j].depth() < self.depth() {
                split.with_child(j, split.children[j].insert_non_full(key, t))
            } else {
                self
            }
        } else {
            if self.children[i].depth() < self.depth() {
                self.with_child(i, self.children[i].insert_non_full(key, t))
            } else {
                self
            }
        }
    }

    /// Two nodes joined around a key: the keys of `left`, then `mid`, then
    /// the keys of `right`; the children of `left`, then those of `right`.
    pub open spec fn join(left: Self, mid: T, right: Self) -> Self {
        Layout {
            keys: left.keys + seq![mid] + right.keys,
            children: left.children + right.children,
        }
    }

    /// The node with its children `i` and `i + 1` merged: key `i` leaves
    /// the node's keys and joins the two children into one, which stands at
    /// `i`.
    pub open spec fn merge_children(self, i: int) -> Self {
        Layout {
            keys: self.keys.remove(i),
            children: self.children.update(
                i,
                Self::join(self.children[i], self.keys[i], self.children[i + 1]),
            ).remove(i + 1),
        }
    }

    /// The node after child `idx` took a key from its left neighbour: the
    /// key between the two moves down to the front of child `idx`, the
    /// neighbour's last key moves up into its place, and the neighbour's
    /// last child, if it has children, becomes the first child of child
    /// `idx`.
    pub open spec fn borrow_from_left_sibling(self, idx: int) -> Self {
        let giver = self.children[idx - 1];
        let taker = self.children[idx];
        Layout {
            keys: self.keys.update(idx - 1, giver.keys.last()),
            children: self.children.update(
                idx - 1,
                Layout {
                    keys: giver.keys.drop_last(),
                    children: if giver.is_leaf() {
                        Seq::empty()
                    } else {
                        giver.children.drop_last()
                    },
                },
            ).update(
                idx,
                Layout {
                    keys: seq![self.keys[idx - 1]] + taker.keys,
                    children: if giver.is_leaf() {
                        taker.children
                    } else {
                        seq![giver.children.last()] + taker.children
                    },
                },
            ),
        }
    }

    /// The node after child `idx` took a key from its right neighbour: the
    /// key between the two moves down to the end of child `idx`, the
    /// neighbour's first key moves up into its place, and the neighbour's
    /// first child, if it has children, becomes the last child of child
    /// `idx`.
    pub open spec fn borrow_from_right_sibling(self, idx: int) -> Self {
        let giver = self.children[idx + 1];
        let taker = self.children[idx];
        Layout {
            keys: self.keys.update(idx, giver.keys.first()),
            children: self.children.update(
                idx,
                Layout {
                    keys: taker.keys + seq![self.keys[idx]],
                    children: if giver.is_leaf() {
                        taker.children
                    } else {
                        taker.children + seq![giver.children.first()]
                    },
                },
            ).update(
                idx + 1,
                Layout {
                    keys: giver.keys.drop_first(),
                    children: if giver.is_leaf() {
                        Seq::empty()
                    } else {
                        giver.children.drop_first()
                    },
                },
            ),
        }
    }

    /// The node after its child `idx`, which holds fewer than `t` keys, was
    /// given one more: by the left neighbour where there is one and it
    /// holds at least `t` keys; else by the right neighbour on the same
    /// terms; else by a merge with the left neighbour or, for the first
    /// child, with the right one.
    pub open spec fn fix_child_underflow(self, idx: int, t: int) -> Self {
        if idx > 0 && self.children[idx - 1].keys.len() >= t {
            self.borrow_from_left_sibling(idx)
        } else if idx < self.keys.len() && self.children[idx + 1].keys.len() >= t {
            self.borrow_from_right_sibling(idx)
        } else if idx > 0 {
            self.merge_children(idx - 1)
        } else {
            self.merge_children(idx)
        }
    }

    /// The last key that an in-order walk meets: the last key of the last
    /// leaf.
    pub open spec fn last_key(self) -> T
        decreases self,
    {
        if self.children.len() == 0 {
            self.keys.last()
        } else {
            self.children.last().last_key()
        }
    }

    /// The first key that an in-order walk meets: the first key of the
    /// first leaf.
    pub open spec fn first_key(self) -> T
        decreases self,
    {
        if self.children.len() == 0 {
            self.keys.first()
        } else {
            self.children.first().first_key()
        }
    }

    /// The subtree after one `key` was deleted from it, for minimum degree
    /// `t`. The key is looked for at its rank among the root's keys. Found
    /// there, it is taken out of a leaf, and out of an inner node as
    /// `delete_from_internal` says. Not found there, it is deleted below
    /// the child at its rank; a child that holds fewer than `t` keys is
    /// given one more first, and is entered one place further left where
    /// it was merged into its left neighbour. A leaf that does not hold
    /// the key stays as it is. (A child is less deep than its node in
    /// every layout of a tree; a layout where it is not stays as it is.)
    pub open spec fn delete(self, key: T, t: int) -> Self
        decreases self.depth(), 1nat,
    {
        let i = rank(self.keys, key);
        if i < self.keys.len() && self.keys[i] == key {
            if self.is_leaf() {
                Layout::leaf(self.keys.remove(i))
            } else {
                self.delete_from_internal(i, t)
            }
        } else if self.is_leaf() {
            self
        } else {
            let fixed = if self.children[i].keys.len() < t {
                self.fix_child_underflow(i, t)
            } else {
                self
            };
            let j = if i > 0 && fixed.keys.len() < self.keys.len() {
                i - 1
            } else {
                i
            };
            if fixed.children[j].depth() < self.depth() {
                fixed.with_child(j, fixed.children[j].delete(key, t))
            } else {
                self
            }
        }
    }

    /// The inner node after its key `i` was deleted, for minimum degree
    /// `t`. Where child `i` holds at least `t` keys, the last key below it
    /// takes the place of key `i` and is deleted below that child. Else,
    /// where child `i + 1` holds at least `t` keys, the first key below it
    /// takes the place and is deleted there. Else the two children are
    /// merged around key `i`, and the key is deleted below the merged
    /// child.
    pub open spec fn delete_from_internal(self, i: int, t: int) -> Self
        decreases self.depth(), 0nat,
    {
        if self.children[i].keys.len() >= t {
            let predecessor = self.children[i].last_key();
            if self.children[i].depth() < self.depth() {
                Layout {
                    keys: self.keys.update(i, predecessor),
                    children: self.children.update(i, self.children[i].delete(predecessor, t)),
                }
            } else {
                self
            }
        } else if self.children[i + 1].keys.len() >= t {
            let successor = self.children[i + 1].first_key();
            if self.children[i + 1].depth() < self.depth() {
                Layout {
                    keys: self.keys.update(i, successor),
                    children: self.children.update(
                        i + 1,
                        self.children[i + 1].delete(successor, t),
                    ),
                }
            } else {
                self
            }
        } else {
            let merged = self.merge_children(i);
            if merged.children[i].depth() < self.depth() {
                merged.with_child(i, merged.children[i].delete(self.keys[i], t))
            } else {
                self
            }
        }
    }

    /// The tree after `key` was inserted, for minimum degree `t`. An empty
    /// tree gets a leaf root that holds the key. Over a root that holds
    /// `2 * t - 1` keys a new root is set, which has the old root as its one
    /// child and splits it; the key is then inserted below the new root.
    pub open spec fn insert_tree(root: Option<Self>, key: T, t: int) -> Option<Self> {
        match root {
            None => Some(Layout::leaf(seq![key])),
            Some(old) => if old.keys.len() == 2 * t - 1 {
                let raised = Layout { keys: Seq::empty(), children: seq![old] };
                Some(raised.split_child(0, t).insert_non_full(key, t))
            } else {
                Some(old.insert_non_full(key, t))
            },
        }
    }

    /// Whether the root gives way when `key` is deleted, and the tree so
    /// loses a level, for minimum degree `t`: it holds one key only, and is
    /// a leaf and that key is `key`, or is an inner node whose two children
    /// hold `t - 1` keys each.
    pub open spec fn root_gives_way(root: Option<Self>, key: T, t: int) -> bool {
        match root {
            None => false,
            Some(old) => old.keys.len() == 1 && if old.is_leaf() {
                old.keys[0] == key
            } else {
                old.children[0].keys.len() == t - 1 && old.children[1].keys.len() == t - 1
            },
        }
    }

    /// The tree after one `key` was deleted, for minimum degree `t`. A root
    /// that is left without a key gives way: to nothing if it is a leaf,
    /// else to its one child.
    pub open spec fn delete_tree(root: Option<Self>, key: T, t: int) -> Option<Self> {
        match root {
            None => None,
            Some(old) => {
                let left = old.delete(key, t);
                if left.keys.len() > 0 {
                    Some(left)
                } else if left.is_leaf() {
                    None
                } else {
                    Some(left.children[0])
                }
            },
        }
    }
}

/// A walk sees nothing exactly of an empty tree, and sees the root first.
pub proof fn lemma_tree_rows<T: Ord>(root: Option<Layout<T>>)
    ensures
        Layout::tree_rows(root).len() == 0 <==> root is None,
        root is Some ==> Layout::tree_rows(root)[0] == (0usize, root->0.keys, root->0.is_leaf()),
{
}

} // verus!
