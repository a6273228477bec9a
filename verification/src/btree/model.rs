use crate::btree::BtreeNode;
use crate::layout::Layout;
use std::fmt::Debug;
use vstd::prelude::*;

verus! {

broadcast use vstd::std_specs::vec::group_vec_axioms;

impl<T: Ord + Clone + Debug> BtreeNode<T> {
    /// The layouts of a row of nodes.
    pub(super) open spec fn layouts(nodes: Seq<Box<Self>>) -> Seq<Layout<T>> {
        Seq::new(nodes.len(), |i: int| nodes[i].layout())
    }

    /// The layout of a node holds the node's keys and its children's
    /// layouts, and is as deep as the node is high.
    pub(super) proof fn lemma_layout(self)
        ensures
            self.layout().keys == self.keys@,
            self.layout().children == Self::layouts(self.children@),
            self.layout().children.len() == self.children.len(),
            forall|i: int|
                0 <= i < self.children.len() ==> self.layout().children[i]
                    == (#[trigger] self.children[i]).layout(),
            self.layout().depth() == self.height(),
        decreases self,
    {
        assert(self.layout().children =~= Self::layouts(self.children@));
        if self.children.len() > 0 {
            self.children[0].lemma_layout();
        }
    }

    /// The in-order walk of a node's layout is the node's.
    pub(super) proof fn lemma_layout_walk(self)
        requires
            self.shaped(),
        ensures
            self.layout().walk() == self.inorder(),
        decreases self,
    {
        self.lemma_layout();
        if !self.is_leaf {
            let l = self.layout();
            assert(l.parts() =~= self.parts()) by {
                assert forall|i: int| 0 <= i < self.children.len() implies l.parts()[i]
                    == self.parts()[i] by {
                    assert(self.children[i].shaped());
                    self.children[i].lemma_layout_walk();
                }
            }
        }
    }

    /// A node made of these keys and children has this layout.
    pub(super) proof fn lemma_layout_of(self, keys: Seq<T>, children: Seq<Box<Self>>)
        requires
            self.keys@ == keys,
            self.children@ == children,
        ensures
            self.layout() == (Layout { keys, children: Self::layouts(children) }),
    {
        self.lemma_layout();
    }

    /// The layouts of the halves of a node are the halves of its layout.
    pub(super) proof fn lemma_halves_layout(whole: Self, left: Self, right: Self, at: int)
        requires
            whole.is_leaf <==> whole.children.len() == 0,
            0 <= at < whole.keys.len(),
            !whole.is_leaf ==> whole.children.len() == whole.keys.len() + 1,
            left.is_front_of(whole, at),
            right.is_back_of(whole, at),
        ensures
            left.layout() == whole.layout().front(at),
            right.layout() == whole.layout().back(at),
    {
        whole.lemma_layout();
        left.lemma_layout();
        right.lemma_layout();
        assert(left.layout().children =~= whole.layout().front(at).children);
        assert(right.layout().children =~= whole.layout().back(at).children);
    }

    /// The layout of a node whose child was split is the split of its
    /// layout.
    pub(super) proof fn lemma_split_layout(before: Self, later: Self, i: int)
        requires
            before.shaped(),
            !before.is_leaf,
            0 <= i < before.children.len(),
            before.children[i].keys.len() == 2 * before.degree - 1,
            later.is_split_of(before, i),
        ensures
            later.layout() == before.layout().split_child(i, before.degree as int),
    {
        let t = before.degree as int;
        let whole = *before.children[i];
        assert(whole.shaped());
        before.lemma_layout();
        later.lemma_layout();
        Self::lemma_halves_layout(whole, *later.children[i], *later.children[i + 1], t - 1);
        let split = before.layout().split_child(i, t);
        assert(later.layout().children =~= split.children) by {
            assert forall|j: int| 0 <= j < later.children.len() implies later.layout().children[j]
                == split.children[j] by {
                if j < i {
                    assert(later.children[j] == before.children[j]);
                } else if j > i + 1 {
                    assert(later.children[j] == before.children[j - 1]);
                }
            }
        }
    }

    /// The layout of a node with one child replaced.
    pub(super) proof fn lemma_child_layout(before: Self, later: Self, j: int)
        requires
            0 <= j < before.children.len(),
            later.differs_at_child(before, j),
        ensures
            later.layout() == (Layout {
                keys: later.keys@,
                children: before.layout().children.update(j, later.children[j].layout()),
            }),
            later.keys@ == before.keys@ ==> later.layout() == before.layout().with_child(
                j,
                later.children[j].layout(),
            ),
    {
        before.lemma_layout();
        later.lemma_layout();
        let expected = before.layout().children.update(j, later.children[j].layout());
        assert(later.layout().children =~= expected) by {
            assert forall|k: int| 0 <= k < later.children.len() implies later.layout().children[k]
                == expected[k] by {
                if k != j {
                    assert(later.children[k] == before.children[k]);
                }
            }
        }
    }

    /// The layout of two joined nodes is the join of their layouts.
    pub(super) proof fn lemma_join_layout(whole: Self, left: Self, mid: T, right: Self)
        requires
            whole.is_join_of(left, mid, right),
        ensures
            whole.layout() == Layout::join(left.layout(), mid, right.layout()),
    {
        whole.lemma_layout();
        left.lemma_layout();
        right.lemma_layout();
        assert(whole.layout().children =~= left.layout().children + right.layout().children);
    }

    /// The layout of a node whose children were merged is the merge of its
    /// layout.
    pub(super) proof fn lemma_merge_layout(before: Self, later: Self, i: int)
        requires
            0 <= i < before.keys.len(),
            before.children.len() == before.keys.len() + 1,
            later.is_merge_of(before, i),
        ensures
            later.layout() == before.layout().merge_children(i),
    {
        before.lemma_layout();
        later.lemma_layout();
        Self::lemma_join_layout(
            *later.children[i],
            *before.children[i],
            before.keys@[i],
            *before.children[i + 1],
        );
        let merged = before.layout().merge_children(i);
        assert(later.layout().children =~= merged.children) by {
            assert forall|j: int| 0 <= j < later.children.len() implies later.layout().children[j]
                == merged.children[j] by {
                if j < i {
                    assert(later.children[j] == before.children[j]);
                } else if j > i {
                    assert(later.children[j] == before.children[j + 1]);
                }
            }
        }
    }

    /// The layout of a node after a loan between two neighbouring children
    /// is what the layout's rule gives.
    pub(super) proof fn lemma_loan_layout(before: Self, later: Self, i: int, to_right: bool)
        requires
            before.shaped(),
            !before.is_leaf,
            0 <= i < before.keys.len(),
            to_right ==> before.children[i].keys.len() >= 1 && later.is_loan_right_of(before, i),
            !to_right ==> before.children[i + 1].keys.len() >= 1 && later.is_loan_left_of(
                before,
                i,
            ),
        ensures
            to_right ==> later.layout() == before.layout().borrow_from_left_sibling(i + 1),
            !to_right ==> later.layout() == before.layout().borrow_from_right_sibling(i),
    {
        let giver = if to_right { *before.children[i] } else { *before.children[i + 1] };
        let taker = if to_right { *before.children[i + 1] } else { *before.children[i] };
        let less = if to_right { *later.children[i] } else { *later.children[i + 1] };
        let more = if to_right { *later.children[i + 1] } else { *later.children[i] };
        let extra = Self::handed_over(giver, to_right);
        assert(giver.shaped() && taker.shaped());
        before.lemma_layout();
        later.lemma_layout();
        giver.lemma_layout();
        taker.lemma_layout();
        less.lemma_layout();
        more.lemma_layout();
        let expected = if to_right {
            before.layout().borrow_from_left_sibling(i + 1)
        } else {
            before.layout().borrow_from_right_sibling(i)
        };
        let g = giver.layout();
        if to_right {
            assert(less.keys@ =~= giver.keys@.drop_last());
            assert(less.layout().children =~= if g.is_leaf() {
                Seq::empty()
            } else {
                g.children.drop_last()
            });
            assert(more.layout().children =~= if g.is_leaf() {
                taker.layout().children
            } else {
                seq![g.children.last()] + taker.layout().children
            });
        } else {
            assert(less.keys@ =~= giver.keys@.drop_first());
            assert(less.layout().children =~= if g.is_leaf() {
                Seq::empty()
            } else {
                g.children.drop_first()
            });
            assert(more.layout().children =~= if g.is_leaf() {
                taker.layout().children
            } else {
                taker.layout().children + seq![g.children.first()]
            });
        }
        assert(later.layout().children =~= expected.children) by {
            assert forall|j: int| 0 <= j < later.children.len() implies later.layout().children[j]
                == expected.children[j] by {
                if j != i && j != i + 1 {
                    assert(later.children[j] == before.children[j]);
                }
            }
        }
    }

    /// The layout of a node whose child's underflow was mended is what the
    /// layout's rule gives.
    pub(super) proof fn lemma_fix_layout(before: Self, later: Self, idx: int)
        requires
            before.shaped(),
            !before.is_leaf,
            before.keys.len() >= 1,
            0 <= idx < before.children.len(),
            later.is_fix_of(before, idx),
        ensures
            later.layout() == before.layout().fix_child_underflow(idx, before.degree as int),
    {
        before.lemma_layout();
        if idx > 0 {
            assert(before.children[idx - 1].shaped());
            before.children[idx - 1].lemma_layout();
        }
        if idx < before.keys.len() {
            assert(before.children[idx + 1].shaped());
            before.children[idx + 1].lemma_layout();
        }
        if idx > 0 && before.children[idx - 1].keys.len() >= before.degree {
            Self::lemma_loan_layout(before, later, idx - 1, true);
        } else if idx < before.keys.len() && before.children[idx + 1].keys.len()
            >= before.degree {
            Self::lemma_loan_layout(before, later, idx, false);
        } else if idx > 0 {
            Self::lemma_merge_layout(before, later, idx - 1);
        } else {
            Self::lemma_merge_layout(before, later, idx);
        }
    }
}

} // verus!
