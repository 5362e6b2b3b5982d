//! The tree type, its well-formedness and its abstract view.
use crate::node::colored;
use crate::node::inorder_of;
use crate::node::sorted;
use crate::node::tree_ok;
use crate::node::Node;
use crate::node::Shape;
use crate::node::EMPTY;
use crate::pending::remove_pending;
use vstd::multiset::Multiset;
use vstd::prelude::*;

verus! {

/// A red-black tree over an arena of nodes.
///
/// `nodes` is the arena, `root_idx` the slot of the root (`EMPTY` while the
/// tree is empty). `shape` is ghost: it records the in-order position and
/// the black height of every node, from which the proofs read the shape of
/// the tree without walking it.
pub struct BTree<T: PartialOrd> {
    pub(crate) nodes: Vec<Node<T>>,
    pub(crate) root_idx: usize,
    pub(crate) shape: Ghost<Shape>,
}

impl<T: PartialOrd> View for BTree<T> {
    type V = Multiset<T>;

    /// The multiset of values that the tree holds.
    open spec fn view(&self) -> Multiset<T> {
        self.inorder().to_multiset()
    }
}

impl<T: PartialOrd> BTree<T> {
    /// The arena is one tree: indices are valid, links are mutual, every slot is reachable.
    pub(crate) open spec fn linked(&self) -> bool {
        tree_ok(self.nodes@, self.root_idx, self.shape@, -1)
    }

    /// The in-order values never decrease.
    pub(crate) open spec fn ordered(&self) -> bool {
        sorted(self.nodes@, self.shape@.order)
    }

    /// The coloring is that of a red-black tree.
    pub(crate) open spec fn balanced(&self) -> bool {
        colored(self.nodes@, self.root_idx, self.shape@.bh)
    }

    /// The table of nodes.
    pub closed spec fn arena(&self) -> Seq<Node<T>> {
        self.nodes@
    }

    /// The index of the root, `EMPTY` for the empty tree.
    pub closed spec fn root(&self) -> usize {
        self.root_idx
    }

    /// The values of the tree in in-order.
    pub closed spec fn inorder(&self) -> Seq<T> {
        inorder_of(self.nodes@, self.shape@.order)
    }

    /// The arena is one doubly linked binary tree over valid indices.
    pub closed spec fn is_linked(&self) -> bool {
        self.linked()
    }

    /// The tree is a binary search tree: its in-order values never decrease.
    pub closed spec fn is_bst(&self) -> bool {
        self.ordered()
    }

    /// The tree is colored as a red-black tree.
    pub closed spec fn is_rbtree(&self) -> bool {
        self.balanced()
    }

    /// Everything that holds of the tree between two operations: it is
    /// linked, ordered and colored as a red-black tree.
    pub open spec fn wf(&self) -> bool {
        &&& self.is_linked()
        &&& self.is_bst()
        &&& self.is_rbtree()
    }

    /// What a splice has left to be repaired in the coloring: nothing if the
    /// node that was spliced out had the color `k` red; else the subtree at
    /// `x` (possibly absent) under `par` is one black node short, and `x`
    /// alone may be a red node under a red parent or a red root.
    pub closed spec fn pending(&self, par: usize, x: usize, k: bool) -> bool {
        remove_pending(self.nodes@, self.root_idx, self.shape@.bh, -1, par, x, k)
    }

    pub(crate) proof fn unfold(&self)
        ensures
            self.is_linked() == self.linked(),
            self.is_bst() == self.ordered(),
            self.is_rbtree() == self.balanced(),
            self.arena() == self.nodes@,
            self.root() == self.root_idx,
            self.inorder() == inorder_of(self.nodes@, self.shape@.order),
            forall|par: usize, x: usize, k: bool|
                #[trigger] self.pending(par, x, k) == remove_pending(
                    self.nodes@,
                    self.root_idx,
                    self.shape@.bh,
                    -1,
                    par,
                    x,
                    k,
                ),
    {
    }

    /// The empty tree.
    pub fn new() -> (t: Self)
        ensures
            t.wf(),
            t.arena() == Seq::<Node<T>>::empty(),
            t.root() == EMPTY,
            t.inorder() == Seq::<T>::empty(),
            t@ == Multiset::<T>::empty(),
    {
        let t = BTree {
            nodes: Vec::new(),
            root_idx: EMPTY,
            shape: Ghost(Shape { span: Seq::empty(), order: Seq::empty(), bh: Seq::empty() }),
        };
        proof {
            assert(t.inorder() =~= Seq::<T>::empty());
            assert(Seq::<T>::empty().to_multiset() =~= Multiset::<T>::empty()) by {
                broadcast use vstd::seq_lib::group_to_multiset_ensures;
            }
        }
        t
    }

    /// The arena, for reading.
    pub fn nodes(&self) -> (r: &Vec<Node<T>>)
        ensures
            r@ == self.arena(),
    {
        &self.nodes
    }

    /// The index of the root, `EMPTY` if the tree is empty.
    pub fn root_idx(&self) -> (r: usize)
        ensures
            r == self.root(),
    {
        self.root_idx
    }

    /// The number of values in the tree.
    pub fn size(&self) -> (n: usize)
        requires
            self.is_linked(),
        ensures
            n == self@.len(),
            n == self.inorder().len(),
    {
        proof {
            broadcast use vstd::seq_lib::group_to_multiset_ensures;
        }
        self.nodes.len()
    }
}

} // verus!
