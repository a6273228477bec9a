use crate::btree::{Btree, BtreeNode};
use crate::layout::{deeper, Layout};
use crate::order::{duplicate, lawful};
use std::fmt::Debug;
use vstd::prelude::*;

verus! {

broadcast use vstd::std_specs::vec::group_vec_axioms;

/// One node as a walk through the tree reports it: how deep it lies below
/// the root, its keys, and whether it is a leaf.
#[derive(Debug)]
pub struct NodeRow<T> {
    pub depth: usize,
    pub keys: Vec<T>,
    pub is_leaf: bool,
}

/// The row holds what was seen of a node.
pub open spec fn shows<T>(row: NodeRow<T>, seen: (usize, Seq<T>, bool)) -> bool {
    &&& row.depth == seen.0
    &&& row.keys@ == seen.1
    &&& row.is_leaf == seen.2
}

/// The rows hold, one for one, what was seen.
pub open spec fn show_all<T>(rows: Seq<NodeRow<T>>, seen: Seq<(usize, Seq<T>, bool)>) -> bool {
    &&& rows.len() == seen.len()
    &&& forall|i: int| 0 <= i < rows.len() ==> shows(#[trigger] rows[i], seen[i])
}

impl<T: Ord + Clone + Debug> BtreeNode<T> {
    /// A copy of the node's keys.
    fn copy_keys(&self) -> (keys: Vec<T>)
        requires
            lawful::<T>(),
        ensures
            keys@ == self.keys@,
    {
        let mut keys: Vec<T> = Vec::new();
        let mut j: usize = 0;
        while j < self.keys.len()
            invariant
                lawful::<T>(),
                j <= self.keys.len(),
                keys@ == self.keys@.subrange(0, j as int),
            decreases self.keys.len() - j,
        {
            keys.push(duplicate(&self.keys[j]));
            j += 1;
            proof {
                assert(keys@ =~= self.keys@.subrange(0, j as int));
            }
        }
        proof {
            assert(keys@ =~= self.keys@);
        }
        keys
    }

    /// Appends to `rows` one row for each node of this subtree, in
    /// pre-order; `level` is the depth of the subtree's root.
    pub(super) fn list_nodes(&self, level: usize, rows: &mut Vec<NodeRow<T>>)
        requires
            lawful::<T>(),
            self.shaped(),
        ensures
            final(rows)@.len() == old(rows)@.len() + self.layout().rows(level).len(),
            final(rows)@.subrange(0, old(rows)@.len() as int) == old(rows)@,
            show_all(
                final(rows)@.subrange(old(rows)@.len() as int, final(rows)@.len() as int),
                self.layout().rows(level),
            ),
        decreases self,
    {
        proof {
            self.lemma_layout();
        }
        let ghost l = self.layout();
        let keys = self.copy_keys();
        rows.push(NodeRow { depth: level, keys, is_leaf: self.is_leaf });
        let next = if level < usize::MAX {
            level + 1
        } else {
            level
        };
        let ghost start = old(rows)@.len() as int;
        let mut c: usize = 0;
        while c < self.children.len()
            invariant
                lawful::<T>(),
                self.shaped(),
                l == self.layout(),
                l.children.len() == self.children.len(),
                c <= self.children.len(),
                next == deeper(level),
                start == old(rows)@.len(),
                rows@.len() == start + 1 + l.rows_below(level, c as nat).len(),
                rows@.subrange(0, start) == old(rows)@,
                shows(rows@[start], (level, l.keys, l.is_leaf())),
                show_all(rows@.subrange(start + 1, rows@.len() as int), l.rows_below(level, c as nat)),
            decreases self.children.len() - c,
        {
            let ghost mid = rows@;
            proof {
                self.lemma_layout();
                assert(self.children[c as int].shaped());
            }
            self.children[c].list_nodes(next, rows);
            c += 1;
            proof {
                let below = l.rows_below(level, (c - 1) as nat);
                let more = l.children[c - 1].rows(next);
                assert(l.rows_below(level, c as nat) == below + more);
                assert(rows@.subrange(0, start) =~= rows@.subrange(0, mid.len() as int).subrange(
                    0,
                    start,
                ));
                let tail = rows@.subrange(start + 1, rows@.len() as int);
                assert forall|i: int| 0 <= i < tail.len() implies shows(
                    #[trigger] tail[i],
                    (below + more)[i],
                ) by {
                    if i < below.len() {
                        assert(tail[i] == rows@.subrange(0, mid.len() as int)[start + 1 + i]);
                        assert(tail[i] == mid.subrange(start + 1, mid.len() as int)[i]);
                    } else {
                        assert(tail[i] == rows@.subrange(mid.len() as int, rows@.len() as int)[i
                            - below.len()]);
                    }
                }
            }
        }
        proof {
            let all = rows@.subrange(start, rows@.len() as int);
            let seen = l.rows(level);
            assert forall|i: int| 0 <= i < all.len() implies shows(#[trigger] all[i], seen[i]) by {
                if i > 0 {
                    assert(all[i] == rows@.subrange(start + 1, rows@.len() as int)[i - 1]);
                }
            }
        }
    }
}

impl<T: Ord + Debug + Clone> Btree<T> {
    /// The nodes of the tree in pre-order, each with its depth, a copy of
    /// its keys and its leaf flag; nothing for an empty tree.
    pub fn preorder(&self) -> (rows: Vec<NodeRow<T>>)
        requires
            lawful::<T>(),
            self.wf(),
        ensures
            show_all(rows@, Layout::tree_rows(self.layout())),
    {
        let mut rows: Vec<NodeRow<T>> = Vec::new();
        match &self.root {
            None => {},
            Some(root) => {
                root.list_nodes(0, &mut rows);
                proof {
                    assert(rows@.subrange(0, rows@.len() as int) =~= rows@);
                }
            },
        }
        rows
    }
}

} // verus!
