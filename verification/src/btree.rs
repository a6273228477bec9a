use crate::layout::Layout;
use crate::order::lawful;
use crate::sorted::{inserted, removed, sorted};
use crate::weave::weave;
use std::fmt::Debug;
use vstd::prelude::*;

mod delete;
mod insert;
mod model;
mod node;
mod rebalance;
mod shape;
pub mod walk;

verus! {

broadcast use vstd::std_specs::vec::group_vec_axioms;

/// One node of the tree: its keys in order and, unless it is a leaf, one
/// more child than it has keys.
#[derive(Debug)]
pub struct BtreeNode<T: Ord + Clone + Debug> {
    keys: Vec<T>,
    children: Vec<Box<BtreeNode<T>>>,
    is_leaf: bool,
    degree: usize,
}

impl<T: Ord + Clone + Debug> BtreeNode<T> {
    /// How many levels lie below this node.
    pub closed spec fn height(self) -> nat
        decreases self,
    {
        if self.children.len() == 0 {
            0
        } else {
            1 + self.children[0].height()
        }
    }

    /// The keys below each child, in order.
    pub closed spec fn parts(self) -> Seq<Seq<T>>
        decreases self, 0nat,
    {
        Seq::new(
            self.children.len() as nat,
            |i: int|
                if 0 <= i < self.children.len() {
                    self.children[i].inorder()
                } else {
                    Seq::empty()
                },
        )
    }

    /// The keys of this subtree as an in-order walk meets them: those of a
    /// leaf as they stand, those of an inner node woven with its children's.
    pub closed spec fn inorder(self) -> Seq<T>
        decreases self, 1nat,
    {
        if self.is_leaf {
            self.keys@
        } else {
            weave(self.parts(), self.keys@)
        }
    }

    /// How the keys of this subtree are laid out in nodes.
    pub closed spec fn layout(self) -> Layout<T>
        decreases self,
    {
        Layout {
            keys: self.keys@,
            children: Seq::new(
                self.children.len() as nat,
                |i: int|
                    if 0 <= i < self.children.len() {
                        self.children[i].layout()
                    } else {
                        Layout::leaf(Seq::empty())
                    },
            ),
        }
    }

    /// The shape of a subtree of minimum degree `degree`: no node holds more
    /// than `2 * degree - 1` keys, none below this one fewer than
    /// `degree - 1`; an inner node has one more child than keys; and all
    /// children of a node are equally high, so every leaf is equally deep.
    pub closed spec fn shaped(self) -> bool
        decreases self,
    {
        &&& self.degree >= 2
        &&& self.keys.len() <= 2 * self.degree - 1
        &&& self.is_leaf <==> self.children.len() == 0
        &&& !self.is_leaf ==> {
            &&& self.children.len() == self.keys.len() + 1
            &&& forall|i: int|
                0 <= i < self.children.len() ==> {
                    &&& (#[trigger] self.children[i]).shaped()
                    &&& self.children[i].degree == self.degree
                    &&& self.children[i].keys.len() >= self.degree - 1
                    &&& self.children[i].height() + 1 == self.height()
                }
        }
    }

    /// A subtree is well formed when it has the shape of a B-tree and its
    /// in-order walk is sorted.
    pub closed spec fn wf(self) -> bool {
        &&& self.shaped()
        &&& sorted(self.inorder())
    }
}

/// A B-tree of minimum degree `degree`: keys held in sorted order, in nodes
/// of at most `2 * degree - 1` keys, with every leaf equally deep. A key
/// that is inserted more than once is held as often.
#[derive(Debug)]
pub struct Btree<T: Ord + Debug + Clone> {
    root: Option<Box<BtreeNode<T>>>,
    degree: usize,
}

impl<T: Ord + Debug + Clone> View for Btree<T> {
    type V = Seq<T>;

    /// The keys of the tree as an in-order walk meets them.
    closed spec fn view(&self) -> Seq<T> {
        match self.root {
            None => Seq::empty(),
            Some(root) => root.inorder(),
        }
    }
}

impl<T: Ord + Debug + Clone> Btree<T> {
    /// The minimum degree the tree was made with.
    pub closed spec fn min_degree(self) -> nat {
        self.degree as nat
    }

    /// How the keys of the tree are laid out in nodes; nothing for an empty
    /// tree.
    pub closed spec fn layout(self) -> Option<Layout<T>> {
        match self.root {
            None => None,
            Some(root) => Some(root.layout()),
        }
    }

    /// The number of levels of the tree: 0 for an empty tree, 1 for a tree
    /// whose root is a leaf.
    pub closed spec fn height(self) -> nat {
        match self.root {
            None => 0,
            Some(root) => root.height() + 1,
        }
    }

    /// Whether the root holds `2 * degree - 1` keys.
    pub closed spec fn root_is_full(self) -> bool {
        match self.root {
            None => false,
            Some(root) => root.keys.len() == 2 * self.degree - 1,
        }
    }

    /// The tree's invariant: the minimum degree is at least 2; a root, where
    /// there is one, holds a key, is well formed and of the tree's degree.
    pub closed spec fn wf(self) -> bool {
        &&& self.degree >= 2
        &&& match self.root {
            None => true,
            Some(root) => root.wf() && root.degree == self.degree && root.keys.len() >= 1,
        }
    }

    /// An empty tree of minimum degree `degree`.
    pub fn new(degree: usize) -> (tree: Self)
        requires
            degree >= 2,
        ensures
            tree.wf(),
            tree@ == Seq::<T>::empty(),
            tree.layout() is None,
            tree.min_degree() == degree,
            tree.height() == 0,
    {
        Btree { root: None, degree }
    }

    /// The minimum degree the tree was made with.
    pub fn degree(&self) -> (degree: usize)
        ensures
            degree == self.min_degree(),
    {
        self.degree
    }

    /// Whether `key` is in the tree.
    pub fn search(&self, key: &T) -> (found: bool)
        requires
            lawful::<T>(),
            self.wf(),
        ensures
            found == self@.contains(*key),
    {
        match &self.root {
            None => false,
            Some(root) => root.search(key),
        }
    }

    /// Puts `key` into the tree, in front of every key that is not smaller.
    /// A key that is already there is put in once more. The tree grows by
    /// one level where it was empty or its root was full, and not else.
    pub fn insert(&mut self, key: T)
        requires
            lawful::<T>(),
            old(self).wf(),
        ensures
            final(self).wf(),
            final(self)@ == inserted(old(self)@, key),
            final(self).layout() == Layout::insert_tree(
                old(self).layout(),
                key,
                old(self).min_degree() as int,
            ),
            final(self).min_degree() == old(self).min_degree(),
            final(self).height() == old(self).height() + if old(self)@.len() == 0 || old(
                self,
            ).root_is_full() {
                1nat
            } else {
                0nat
            },
            sorted(final(self)@),
            final(self).balanced(),
            final(self).within_degree(),
    {
        proof {
            old(self).lemma_height_of_empty();
        }
        match self.root.take() {
            None => {
                let mut root = BtreeNode::new(self.degree, true);
                root.keys.push(key);
                proof {
                    assert(root.keys@ =~= inserted(Seq::<T>::empty(), key));
                    assert(root.keys@ =~= seq![key]);
                    root.lemma_layout();
                    assert(root.layout().children =~= Seq::empty());
                }
                self.root = Some(Box::new(root));
            },
            Some(mut root) => {
                if root.is_full() {
                    let mut new_root = BtreeNode::new(self.degree, false);
                    new_root.children.push(root);
                    proof {
                        BtreeNode::lemma_only_child(new_root);
                        new_root.lemma_layout();
                        root.lemma_layout();
                        assert(new_root.layout().children =~= seq![root.layout()]);
                    }
                    new_root.split_child(0);
                    new_root.insert_non_full(key);
                    self.root = Some(Box::new(new_root));
                } else {
                    proof {
                        root.lemma_layout();
                    }
                    root.insert_non_full(key);
                    self.root = Some(root);
                }
            },
        }
        proof {
            self.lemma_keys_sorted();
            self.lemma_balanced();
            self.lemma_within_degree();
        }
    }

    /// Whether the tree holds no key.
    pub fn is_empty(&self) -> (empty: bool)
        requires
            self.wf(),
        ensures
            empty == (self@.len() == 0),
    {
        proof {
            if self.root is Some {
                self.root->0.lemma_holds_keys();
            }
        }
        self.root.is_none()
    }

    /// Takes one `key` out of the tree, if it is there, and says whether it
    /// was. The tree loses one level exactly when its root is left without
    /// a key.
    pub fn delete(&mut self, key: &T) -> (found: bool)
        requires
            lawful::<T>(),
            old(self).wf(),
        ensures
            found == old(self)@.contains(*key),
            final(self).wf(),
            final(self)@ == removed(old(self)@, *key),
            final(self).layout() == Layout::delete_tree(
                old(self).layout(),
                *key,
                old(self).min_degree() as int,
            ),
            final(self).min_degree() == old(self).min_degree(),
            final(self).height() + if Layout::root_gives_way(
                old(self).layout(),
                *key,
                old(self).min_degree() as int,
            ) {
                1nat
            } else {
                0nat
            } == old(self).height(),
            sorted(final(self)@),
            final(self).balanced(),
            final(self).within_degree(),
    {
        let found = match self.root.take() {
            None => false,
            Some(mut root) => {
                proof {
                    root.lemma_root_gives_way(*key);
                }
                let found = root.delete(key);
                proof {
                    root.lemma_layout();
                }
                if root.keys.is_empty() {
                    if root.is_leaf {
                        self.root = None;
                    } else {
                        proof {
                            root.lemma_sole_child();
                        }
                        self.root = Some(root.children.remove(0));
                    }
                } else {
                    self.root = Some(root);
                }
                found
            },
        };
        proof {
            self.lemma_keys_sorted();
            self.lemma_balanced();
            self.lemma_within_degree();
        }
        found
    }
}

} // verus!
