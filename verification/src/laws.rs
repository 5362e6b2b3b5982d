//! What holds of every well-formed tree, stated over the arena that the
//! tree exposes for reading.
use crate::validate::all_ok;
use crate::validate::black_count;
use crate::validate::lemma_tree_black_count;
use crate::validate::lemma_tree_bst_ok;
use crate::validate::lemma_wf_all_ok_parts;
use crate::validate::above;
use crate::validate::below;
use crate::validate::bst_ok;
use crate::validate::search_tree;
use crate::validate::valid;
use crate::node::bal_ok;
use crate::node::black;
use crate::node::inorder_of;
use crate::node::key_at;
use crate::node::lemma_sorted_inorder;
use crate::node::node_ok;
use crate::node::rr_ok;
use crate::node::seq_sorted;
use crate::node::tree_ok;
use crate::node::Node;
use crate::node::Shape;
use crate::node::BLACK;
use crate::node::EMPTY;
use crate::node::RED;
use crate::navigate::leftmost;
use crate::order::le;
use crate::order::total_order;
use crate::remove::lemma_adopted_took_over;
use crate::remove::lemma_overwritten_took_over;
use crate::remove::splice_out;
use crate::splice::dropped_shape;
use crate::splice::lemma_shifted_up_spliced;
use crate::splice::lemma_splice_tree;
use crate::splice::ren;
use crate::splice::shifted_up;
use crate::tree::BTree;
use vstd::prelude::*;

verus! {

/// The values that an in-order walk from `idx` meets: those below the left
/// child, the value of `idx`, those below the right child. The walk goes
/// down at most `fuel` levels.
pub open spec fn traverse<T>(nodes: Seq<Node<T>>, idx: usize, fuel: nat) -> Seq<T>
    decreases fuel,
{
    if idx == EMPTY || idx >= nodes.len() || fuel == 0 {
        Seq::empty()
    } else {
        let nd = nodes[idx as int];
        traverse(nodes, nd.left, (fuel - 1) as nat) + seq![nd.val] + traverse(nodes, nd.right, (fuel - 1) as nat)
    }
}

/// The search-tree order of the tree rooted at `idx`, said of every node
/// within `fuel` levels: no value that the walk meets below the left child
/// of a node is above the node's value, and none that it meets below the
/// right child is below it; the walk meets only valid indices and ends
/// within those levels.
pub open spec fn ordered_below<T: PartialOrd>(nodes: Seq<Node<T>>, idx: usize, fuel: nat) -> bool
    decreases fuel,
{
    if fuel == 0 || idx >= nodes.len() {
        false
    } else {
        let nd = nodes[idx as int];
        let l = traverse(nodes, nd.left, (fuel - 1) as nat);
        let r = traverse(nodes, nd.right, (fuel - 1) as nat);
        &&& valid(nodes.len(), nd.left)
        &&& valid(nodes.len(), nd.right)
        &&& forall|k: int| 0 <= k < l.len() ==> le(#[trigger] l[k], nd.val)
        &&& forall|k: int| 0 <= k < r.len() ==> le(nd.val, #[trigger] r[k])
        &&& nd.left != EMPTY ==> ordered_below(nodes, nd.left, (fuel - 1) as nat)
        &&& nd.right != EMPTY ==> ordered_below(nodes, nd.right, (fuel - 1) as nat)
    }
}

/// Where the walk with bounds succeeds, every node is ordered against the
/// values of its two subtrees, and every value that the walk meets lies
/// between the bounds.
proof fn lemma_bounds_give_order<T: PartialOrd>(
    nodes: Seq<Node<T>>,
    idx: usize,
    lo: Option<T>,
    hi: Option<T>,
    fuel: nat,
)
    requires
        total_order::<T>(),
        nodes.len() <= usize::MAX,
        bst_ok(nodes, idx, lo, hi, fuel),
    ensures
        ordered_below(nodes, idx, fuel),
        forall|k: int|
            0 <= k < traverse(nodes, idx, fuel).len() ==> above(lo, #[trigger] traverse(nodes, idx, fuel)[k])
                && below(traverse(nodes, idx, fuel)[k], hi),
    decreases fuel,
{
    let nd = nodes[idx as int];
    let f = (fuel - 1) as nat;
    let l = traverse(nodes, nd.left, f);
    let r = traverse(nodes, nd.right, f);
    let t = traverse(nodes, idx, fuel);
    if nd.left != EMPTY {
        lemma_bounds_give_order(nodes, nd.left, lo, Some(nd.val), f);
    }
    if nd.right != EMPTY {
        lemma_bounds_give_order(nodes, nd.right, Some(nd.val), hi, f);
    }
    assert(t == l + seq![nd.val] + r);
    assert forall|k: int| 0 <= k < l.len() implies le(#[trigger] l[k], nd.val) by {
        assert(below(l[k], Some(nd.val)));
    }
    assert forall|k: int| 0 <= k < r.len() implies le(nd.val, #[trigger] r[k]) by {
        assert(above(Some(nd.val), r[k]));
    }
    assert forall|k: int| 0 <= k < t.len() implies above(lo, #[trigger] t[k]) && below(t[k], hi) by {
        if k < l.len() {
            assert(t[k] == l[k]);
            assert(le(l[k], nd.val));
        } else if k == l.len() {
            assert(t[k] == nd.val);
        } else {
            assert(t[k] == r[k - l.len() - 1]);
            assert(le(nd.val, r[k - l.len() - 1]));
        }
    }
}

/// Where every node is ordered against the values of its two subtrees and
/// every value that the walk meets lies between the bounds, the walk with
/// bounds succeeds.
proof fn lemma_order_gives_bounds<T: PartialOrd>(
    nodes: Seq<Node<T>>,
    idx: usize,
    lo: Option<T>,
    hi: Option<T>,
    fuel: nat,
)
    requires
        total_order::<T>(),
        nodes.len() <= usize::MAX,
        ordered_below(nodes, idx, fuel),
        forall|k: int|
            0 <= k < traverse(nodes, idx, fuel).len() ==> above(lo, #[trigger] traverse(nodes, idx, fuel)[k])
                && below(traverse(nodes, idx, fuel)[k], hi),
    ensures
        bst_ok(nodes, idx, lo, hi, fuel),
    decreases fuel,
{
    let nd = nodes[idx as int];
    let f = (fuel - 1) as nat;
    let l = traverse(nodes, nd.left, f);
    let r = traverse(nodes, nd.right, f);
    let t = traverse(nodes, idx, fuel);
    assert(t == l + seq![nd.val] + r);
    assert(t[l.len() as int] == nd.val);
    if nd.left != EMPTY {
        assert forall|k: int| 0 <= k < l.len() implies above(lo, #[trigger] l[k]) && below(
            l[k],
            Some(nd.val),
        ) by {
            assert(t[k] == l[k]);
        }
        lemma_order_gives_bounds(nodes, nd.left, lo, Some(nd.val), f);
    }
    if nd.right != EMPTY {
        assert forall|k: int| 0 <= k < r.len() implies above(Some(nd.val), #[trigger] r[k]) && below(
            r[k],
            hi,
        ) by {
            assert(t[l.len() + 1 + k] == r[k]);
        }
        lemma_order_gives_bounds(nodes, nd.right, Some(nd.val), hi, f);
    }
}

/// What the validator finds to be a search tree is one: the walk with bounds
/// succeeds exactly where, at every node, every value of the left subtree is
/// at or below the node's value and every value of the right subtree is at
/// or above it. This holds of every arena that a `Vec` can hold.
pub proof fn law_search_tree<T: PartialOrd>(nodes: Seq<Node<T>>, idx: usize)
    requires
        total_order::<T>(),
        nodes.len() <= usize::MAX,
    ensures
        search_tree(nodes, idx) == ordered_below(nodes, idx, nodes.len()),
{
    if search_tree(nodes, idx) {
        lemma_bounds_give_order(nodes, idx, None, None, nodes.len());
    }
    if ordered_below(nodes, idx, nodes.len()) {
        lemma_order_gives_bounds(nodes, idx, None, None, nodes.len());
    }
}

/// The leftmost node below `i` is a node of the subtree of `i` with no left
/// child, at the first in-order position of that subtree.
proof fn lemma_leftmost<T>(nodes: Seq<Node<T>>, root: usize, sh: Shape, i: usize, fuel: nat)
    requires
        tree_ok(nodes, root, sh, -1),
        i < nodes.len(),
        fuel >= sh.span[i as int].hi - sh.span[i as int].lo,
    ensures
        ({
            let r = leftmost(nodes, i, fuel);
            &&& r < nodes.len()
            &&& nodes[r as int].left == EMPTY
            &&& sh.span[r as int].pos == sh.span[i as int].lo
            &&& sh.span[r as int].hi <= sh.span[i as int].hi
            &&& r == i || nodes[r as int].parent != EMPTY
        }),
    decreases fuel,
{
    assert(node_ok(nodes, sh, root, -1, i as int));
    let l = nodes[i as int].left;
    if l != EMPTY {
        assert(node_ok(nodes, sh, root, -1, l as int));
        lemma_leftmost(nodes, root, sh, l, (fuel - 1) as nat);
    }
}

/// The links of slot `i` are valid indices, and its neighbors refer back to
/// it: its children name it as their parent, and its parent has it as a
/// child. Only the root has no parent.
pub open spec fn links_ok<T>(nodes: Seq<Node<T>>, root: usize, i: int) -> bool {
    let nd = nodes[i];
    &&& valid(nodes.len(), nd.left)
    &&& valid(nodes.len(), nd.right)
    &&& valid(nodes.len(), nd.parent)
    &&& nd.left != EMPTY ==> nodes[nd.left as int].parent == i
    &&& nd.right != EMPTY ==> nodes[nd.right as int].parent == i
    &&& nd.left != EMPTY ==> nd.left != nd.right
    &&& nd.parent != EMPTY ==> nodes[nd.parent as int].left == i || nodes[nd.parent as int].right == i
    &&& nd.parent == EMPTY <==> i == root
}

/// The walk from `i` yields the in-order values at the positions of the subtree of `i`.
proof fn lemma_traverse_span<T>(nodes: Seq<Node<T>>, root: usize, sh: Shape, i: usize, fuel: nat)
    requires
        tree_ok(nodes, root, sh, -1),
        i < nodes.len(),
        fuel >= sh.span[i as int].hi - sh.span[i as int].lo,
    ensures
        traverse(nodes, i, fuel) == inorder_of(nodes, sh.order).subrange(
            sh.span[i as int].lo,
            sh.span[i as int].hi,
        ),
    decreases fuel,
{
    let io = inorder_of(nodes, sh.order);
    let s = sh.span[i as int];
    let nd = nodes[i as int];
    assert(node_ok(nodes, sh, root, -1, i as int));
    if nd.left != EMPTY {
        assert(node_ok(nodes, sh, root, -1, nd.left as int));
        lemma_traverse_span(nodes, root, sh, nd.left, (fuel - 1) as nat);
    }
    if nd.right != EMPTY {
        assert(node_ok(nodes, sh, root, -1, nd.right as int));
        lemma_traverse_span(nodes, root, sh, nd.right, (fuel - 1) as nat);
    }
    assert(io[s.pos] == nd.val);
    assert(traverse(nodes, nd.left, (fuel - 1) as nat) =~= io.subrange(s.lo, s.pos));
    assert(traverse(nodes, nd.right, (fuel - 1) as nat) =~= io.subrange(s.pos + 1, s.hi));
    assert(io.subrange(s.lo, s.pos) + seq![nd.val] + io.subrange(s.pos + 1, s.hi) =~= io.subrange(s.lo, s.hi));
}

impl<T: PartialOrd> BTree<T> {
    /// A well-formed tree is valid in every respect that the validator examines.
    pub proof fn law_valid(&self)
        requires
            self.wf(),
        ensures
            all_ok(self.arena(), self.root()),
    {
        self.unfold();
        if self.root_idx != EMPTY {
            lemma_wf_all_ok_parts(self.nodes@, self.root_idx, self.shape@);
            lemma_tree_bst_ok(self.nodes@, self.root_idx, self.shape@, self.root_idx, None, None, self.nodes@.len());
        }
    }

    /// The tree holds as many values as the arena has slots.
    pub proof fn law_size(&self)
        requires
            self.is_linked(),
        ensures
            self.arena().len() == self.inorder().len(),
            self.arena().len() == self@.len(),
            self.arena().len() <= usize::MAX,
            self.arena().len() == 0 <==> self.root() == EMPTY,
    {
        self.unfold();
        vstd::seq_lib::to_multiset_len(self.inorder());
    }

    /// Index validity and mutual linkage: every index stored in the arena is
    /// absent or a slot of the arena, each child names its parent and each
    /// parent its child, and the root alone has no parent.
    pub proof fn law_links(&self)
        requires
            self.is_linked(),
        ensures
            forall|i: int| 0 <= i < self.arena().len() ==> #[trigger] links_ok(self.arena(), self.root(), i),
            self.root() != EMPTY ==> self.root() < self.arena().len(),
    {
        self.unfold();
        let nodes = self.nodes@;
        let sh = self.shape@;
        let root = self.root_idx;
        assert forall|i: int| 0 <= i < nodes.len() implies #[trigger] links_ok(nodes, root, i) by {
            assert(node_ok(nodes, sh, root, -1, i));
            assert(node_ok(nodes, sh, root, -1, root as int));
        }
    }

    /// The in-order values are those that a walk from the root along the
    /// child links meets: left subtree, node, right subtree.
    pub proof fn law_inorder_is_traversal(&self)
        requires
            self.is_linked(),
        ensures
            self.inorder() == traverse(self.arena(), self.root(), self.arena().len()),
    {
        self.unfold();
        let nodes = self.nodes@;
        let sh = self.shape@;
        let io = inorder_of(nodes, sh.order);
        if self.root_idx != EMPTY {
            assert(node_ok(nodes, sh, self.root_idx, -1, self.root_idx as int));
            lemma_traverse_span(nodes, self.root_idx, sh, self.root_idx, nodes.len());
            assert(io.subrange(0, nodes.len() as int) =~= io);
        } else {
            assert(io =~= Seq::<T>::empty());
        }
    }

    /// Order preservation: the in-order values never decrease.
    pub proof fn law_inorder_sorted(&self)
        requires
            self.is_bst(),
        ensures
            seq_sorted(self.inorder()),
    {
        self.unfold();
        lemma_sorted_inorder(self.nodes@, self.shape@.order);
    }

    /// The search-tree order: no value below the left child of a node is
    /// above the node's value, and none below its right child is below it.
    pub proof fn law_bst_order(&self, i: usize)
        requires
            total_order::<T>(),
            self.is_linked(),
            self.is_bst(),
            i < self.arena().len(),
        ensures
            forall|k: int|
                0 <= k < traverse(self.arena(), self.arena()[i as int].left, self.arena().len()).len() ==> le(
                    #[trigger] traverse(self.arena(), self.arena()[i as int].left, self.arena().len())[k],
                    self.arena()[i as int].val,
                ),
            forall|k: int|
                0 <= k < traverse(self.arena(), self.arena()[i as int].right, self.arena().len()).len() ==> le(
                    self.arena()[i as int].val,
                    #[trigger] traverse(self.arena(), self.arena()[i as int].right, self.arena().len())[k],
                ),
    {
        self.unfold();
        let nodes = self.nodes@;
        let sh = self.shape@;
        let root = self.root_idx;
        let io = inorder_of(nodes, sh.order);
        let n = nodes.len();
        let nd = nodes[i as int];
        let s = sh.span[i as int];
        assert(node_ok(nodes, sh, root, -1, i as int));
        assert(key_at(nodes, sh.order, s.pos) == nd.val);
        let tl = traverse(nodes, nd.left, n);
        let tr = traverse(nodes, nd.right, n);
        if nd.left != EMPTY {
            assert(node_ok(nodes, sh, root, -1, nd.left as int));
            lemma_traverse_span(nodes, root, sh, nd.left, n);
        }
        if nd.right != EMPTY {
            assert(node_ok(nodes, sh, root, -1, nd.right as int));
            lemma_traverse_span(nodes, root, sh, nd.right, n);
        }
        assert forall|k: int| 0 <= k < tl.len() implies le(#[trigger] tl[k], nd.val) by {
            assert(tl[k] == key_at(nodes, sh.order, s.lo + k));
        }
        assert forall|k: int| 0 <= k < tr.len() implies le(nd.val, #[trigger] tr[k]) by {
            assert(tr[k] == key_at(nodes, sh.order, s.pos + 1 + k));
        }
    }

    /// Where a red node was spliced out, nothing is pending: the tree is
    /// colored as a red-black tree.
    pub proof fn law_pending_after_red(&self, par: usize, x: usize)
        requires
            self.pending(par, x, RED),
        ensures
            self.is_rbtree(),
    {
        self.unfold();
    }

    /// Where a black node was spliced out, the node `x` that took its place,
    /// if there is one, is a child of `par`; without a `par` it is the root.
    /// The subtree at `x` holds one black node less on its paths than the
    /// subtree at the other child of `par`.
    pub proof fn law_pending_after_black(&self, par: usize, x: usize)
        requires
            self.is_linked(),
            self.pending(par, x, BLACK),
        ensures
            x != EMPTY ==> x < self.arena().len() && self.arena()[x as int].parent == par,
            par == EMPTY ==> self.root() == x,
            par != EMPTY ==> ({
                let nd = self.arena()[par as int];
                let sib = if nd.left == x {
                    nd.right
                } else {
                    nd.left
                };
                &&& par < self.arena().len()
                &&& (nd.left == x || nd.right == x)
                &&& black_count(self.arena(), x, self.arena().len()).is_some()
                &&& black_count(self.arena(), sib, self.arena().len()) == Some(
                    black_count(self.arena(), x, self.arena().len()).unwrap() + 1,
                )
            }),
    {
        self.unfold();
        let nodes = self.nodes@;
        let sh = self.shape@;
        let root = self.root_idx;
        if par != EMPTY {
            let nd = nodes[par as int];
            let sib = if nd.left == x {
                nd.right
            } else {
                nd.left
            };
            assert(node_ok(nodes, sh, root, -1, par as int));
            if x != EMPTY {
                assert(node_ok(nodes, sh, root, -1, x as int));
            }
            if sib != EMPTY {
                assert(node_ok(nodes, sh, root, -1, sib as int));
            }
            lemma_tree_black_count(nodes, root, sh, par as int, x, nodes.len());
            lemma_tree_black_count(nodes, root, sh, par as int, sib, nodes.len());
        }
    }

    /// The splice of a node `idx` with two children: the leftmost node `s` of
    /// its right subtree takes its place, its links and its color, and keeps
    /// its own value; the right child of `s` is handed on as the node that
    /// took the place of `s`, under the parent that `s` had, and with the
    /// color that `s` had.
    pub proof fn law_splice_two_children(&self, idx: usize)
        requires
            self.is_linked(),
            idx < self.arena().len(),
            self.arena()[idx as int].left != EMPTY,
            self.arena()[idx as int].right != EMPTY,
        ensures
            ({
                let o = self.arena();
                let s = leftmost(o, o[idx as int].right, o.len());
                let sp = splice_out(o, self.root(), idx);
                &&& s < o.len()
                &&& s != idx
                &&& o[s as int].left == EMPTY
                &&& sp.color == o[s as int].color
                &&& sp.shifted == o[s as int].right
                &&& sp.parent == ren(o[s as int].parent, idx, s)
                &&& sp.root == ren(self.root(), idx, s)
                &&& sp.nodes.len() == o.len()
                &&& sp.nodes[s as int].val == o[s as int].val
                &&& sp.nodes[s as int].color == o[idx as int].color
                &&& sp.nodes[s as int].parent == o[idx as int].parent
                &&& sp.nodes[s as int].left == o[idx as int].left
                &&& sp.nodes[s as int].right == if o[s as int].parent == idx {
                    o[s as int].right
                } else {
                    o[idx as int].right
                }
            }),
    {
        self.unfold();
        let o = self.nodes@;
        let sh = self.shape@;
        let root = self.root_idx;
        let right = o[idx as int].right;
        assert(node_ok(o, sh, root, -1, idx as int));
        assert(node_ok(o, sh, root, -1, right as int));
        lemma_leftmost(o, root, sh, right, o.len());
        let s = leftmost(o, right, o.len());
        let c = o[s as int].right;
        assert(node_ok(o, sh, root, -1, s as int));
        if c != EMPTY {
            assert(node_ok(o, sh, root, -1, c as int));
        }
        if o[s as int].parent == idx {
            lemma_adopted_took_over(o, root, sh, idx, s);
        } else {
            let m = shifted_up(o, c, s);
            lemma_shifted_up_spliced(o, root, sh, s, false);
            lemma_splice_tree(o, root, sh, m, s, false);
            lemma_overwritten_took_over(m, root, dropped_shape(sh, sh.span[s as int].pos), idx, s);
            let q = o[s as int].parent;
            assert(node_ok(o, sh, root, -1, q as int));
        }
    }

    /// Root color: the root, if there is one, is black.
    pub proof fn law_root_black(&self)
        requires
            self.is_rbtree(),
        ensures
            black(self.arena(), self.root()),
    {
        self.unfold();
    }

    /// No red-red: a red node has no red child and no red parent.
    pub proof fn law_no_red_red(&self, i: usize)
        requires
            self.is_linked(),
            self.is_rbtree(),
            i < self.arena().len(),
            self.arena()[i as int].color == RED,
        ensures
            black(self.arena(), self.arena()[i as int].left),
            black(self.arena(), self.arena()[i as int].right),
            black(self.arena(), self.arena()[i as int].parent),
    {
        self.unfold();
        let nodes = self.nodes@;
        let sh = self.shape@;
        let root = self.root_idx;
        let nd = nodes[i as int];
        assert(node_ok(nodes, sh, root, -1, i as int));
        assert(rr_ok(nodes, i as int));
        if nd.left != EMPTY {
            assert(rr_ok(nodes, nd.left as int));
        }
        if nd.right != EMPTY {
            assert(rr_ok(nodes, nd.right as int));
        }
    }

    /// Equal black height: from every node, all paths down to an absent
    /// child hold the same number of black nodes, and the two subtrees of a
    /// node agree in it.
    pub proof fn law_black_height(&self, i: usize)
        requires
            self.is_linked(),
            self.is_rbtree(),
            i < self.arena().len(),
        ensures
            black_count(self.arena(), i, self.arena().len()).is_some(),
            black_count(self.arena(), self.arena()[i as int].left, self.arena().len()) == black_count(
                self.arena(),
                self.arena()[i as int].right,
                self.arena().len(),
            ),
    {
        self.unfold();
        let nodes = self.nodes@;
        let sh = self.shape@;
        let root = self.root_idx;
        let nd = nodes[i as int];
        assert(node_ok(nodes, sh, root, -1, i as int));
        assert(bal_ok(nodes, sh.bh, i as int));
        lemma_tree_black_count(nodes, root, sh, -1, i, nodes.len());
        if nd.left != EMPTY {
            assert(node_ok(nodes, sh, root, -1, nd.left as int));
        }
        if nd.right != EMPTY {
            assert(node_ok(nodes, sh, root, -1, nd.right as int));
        }
        lemma_tree_black_count(nodes, root, sh, -1, nd.left, nodes.len());
        lemma_tree_black_count(nodes, root, sh, -1, nd.right, nodes.len());
    }
}

} // verus!
