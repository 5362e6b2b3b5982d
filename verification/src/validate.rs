//! The validator: functions that examine an arena for the invariants of the
//! tree, each walking from a node down along the child links.
//!
//! The walks take a budget of levels, so that they end on every arena, also
//! on one whose links run in a circle; a tree of `n` nodes never needs more
//! than `n` levels.
use crate::laws::law_search_tree;
use crate::laws::ordered_below;
use crate::node::all_bal;
use crate::node::all_rr;
use crate::node::bal_ok;
use crate::node::node_ok;
use crate::node::rr_ok;
use crate::node::sorted;
use crate::node::key_at;
use crate::node::tree_ok;
use crate::node::Node;
use crate::node::Shape;
use crate::node::BLACK;
use crate::node::EMPTY;
use crate::node::RED;
use crate::order::le;
use crate::order::lt;
use crate::order::total_order;
use crate::tree::BTree;
use vstd::prelude::*;

verus! {

/// `i` is absent or a slot of an arena of `n` slots.
pub open spec fn valid(n: nat, i: usize) -> bool {
    i == EMPTY || i < n
}

/// No red node within `fuel` levels below and including `idx` has a red
/// child, and the walk meets only valid indices and ends within those levels.
pub open spec fn colors_ok<T>(nodes: Seq<Node<T>>, idx: usize, fuel: nat) -> bool
    decreases fuel,
{
    if fuel == 0 || idx >= nodes.len() {
        false
    } else {
        let nd = nodes[idx as int];
        &&& valid(nodes.len(), nd.left)
        &&& valid(nodes.len(), nd.right)
        &&& nd.color == RED ==> {
            &&& nd.left == EMPTY || nodes[nd.left as int].color == BLACK
            &&& nd.right == EMPTY || nodes[nd.right as int].color == BLACK
        }
        &&& nd.left != EMPTY ==> colors_ok(nodes, nd.left, (fuel - 1) as nat)
        &&& nd.right != EMPTY ==> colors_ok(nodes, nd.right, (fuel - 1) as nat)
    }
}

/// The number of black nodes on every path from `idx` down to an absent
/// child, if all those paths hold the same number and end within `fuel`
/// levels; `None` otherwise. The count includes `idx`, and the absent child
/// at the end of the path, which counts as black: so an absent `idx` has the
/// count 1.
pub open spec fn black_count<T>(nodes: Seq<Node<T>>, idx: usize, fuel: nat) -> Option<nat>
    decreases fuel,
{
    if idx == EMPTY {
        Some(1nat)
    } else if fuel == 0 || idx >= nodes.len() {
        None
    } else {
        let nd = nodes[idx as int];
        match (black_count(nodes, nd.left, (fuel - 1) as nat), black_count(nodes, nd.right, (fuel - 1) as nat)) {
            (Some(l), Some(r)) => if l == r {
                Some(
                    if nd.color == BLACK {
                        l + 1
                    } else {
                        l
                    },
                )
            } else {
                None
            },
            _ => None,
        }
    }
}

/// The bound `o` as a value: spec code does not tell a reference from what
/// it refers to.
pub open spec fn owned<T>(o: Option<&T>) -> Option<T> {
    match o {
        Some(v) => Some(*v),
        None => None,
    }
}

/// `v` is at or above the lower bound `lo`, if there is one.
pub open spec fn above<T: PartialOrd>(lo: Option<T>, v: T) -> bool {
    lo matches Some(l) ==> le(l, v)
}

/// `v` is at or below the upper bound `hi`, if there is one.
pub open spec fn below<T: PartialOrd>(v: T, hi: Option<T>) -> bool {
    hi matches Some(h) ==> le(v, h)
}

/// Within `fuel` levels below and including `idx`, every value lies between
/// `lo` and `hi`, every value below the left child of a node is at or below
/// the node's value, and every value below its right child is at or above
/// it; and the walk meets only valid indices and ends within those levels.
///
/// The walk carries the bounds down: below the left child of a node the
/// node's value is the upper bound, below its right child the lower one.
pub open spec fn bst_ok<T: PartialOrd>(
    nodes: Seq<Node<T>>,
    idx: usize,
    lo: Option<T>,
    hi: Option<T>,
    fuel: nat,
) -> bool
    decreases fuel,
{
    if fuel == 0 || idx >= nodes.len() {
        false
    } else {
        let nd = nodes[idx as int];
        &&& valid(nodes.len(), nd.left)
        &&& valid(nodes.len(), nd.right)
        &&& above(lo, nd.val)
        &&& below(nd.val, hi)
        &&& nd.left != EMPTY ==> bst_ok(nodes, nd.left, lo, Some(nd.val), (fuel - 1) as nat)
        &&& nd.right != EMPTY ==> bst_ok(nodes, nd.right, Some(nd.val), hi, (fuel - 1) as nat)
    }
}

/// The tree rooted at `idx` is a search tree: at every node, every value of
/// the left subtree is at or below the node's value and every value of the
/// right subtree is at or above it.
pub open spec fn search_tree<T: PartialOrd>(nodes: Seq<Node<T>>, idx: usize) -> bool {
    bst_ok(nodes, idx, None, None, nodes.len())
}

/// Within `fuel` levels below and including `idx`, every child names its
/// parent as its parent, and the walk meets only valid indices and ends
/// within those levels.
pub open spec fn dlinked_ok<T>(nodes: Seq<Node<T>>, idx: usize, fuel: nat) -> bool
    decreases fuel,
{
    if fuel == 0 || idx >= nodes.len() {
        false
    } else {
        let nd = nodes[idx as int];
        &&& valid(nodes.len(), nd.left)
        &&& valid(nodes.len(), nd.right)
        &&& nd.left != EMPTY ==> nodes[nd.left as int].parent == idx && dlinked_ok(
            nodes,
            nd.left,
            (fuel - 1) as nat,
        )
        &&& nd.right != EMPTY ==> nodes[nd.right as int].parent == idx && dlinked_ok(
            nodes,
            nd.right,
            (fuel - 1) as nat,
        )
    }
}

/// The tree rooted at `idx` is doubly linked: `idx` has no parent, and every
/// child below it names its parent as its parent.
pub open spec fn doubly_linked<T>(nodes: Seq<Node<T>>, idx: usize) -> bool {
    &&& idx < nodes.len()
    &&& nodes[idx as int].parent == EMPTY
    &&& dlinked_ok(nodes, idx, nodes.len())
}

/// The tree rooted at `root` is colored rightly: a black root, no red
/// child of a red node, and equally many black nodes on all paths down.
pub open spec fn rbtree_ok<T>(nodes: Seq<Node<T>>, root: usize) -> bool {
    &&& root < nodes.len()
    &&& nodes[root as int].color == BLACK
    &&& colors_ok(nodes, root, nodes.len())
    &&& black_count(nodes, root, nodes.len()).is_some()
}

/// The tree rooted at `root` is valid in every respect; the empty tree is.
pub open spec fn all_ok<T: PartialOrd>(nodes: Seq<Node<T>>, root: usize) -> bool {
    root != EMPTY ==> {
        &&& doubly_linked(nodes, root)
        &&& search_tree(nodes, root)
        &&& rbtree_ok(nodes, root)
    }
}

fn colors_below<T>(nodes: &Vec<Node<T>>, idx: usize, fuel: usize) -> (r: bool)
    ensures
        r == colors_ok(nodes@, idx, fuel as nat),
    decreases fuel,
{
    if fuel == 0 || idx >= nodes.len() {
        return false;
    }
    let left_idx = nodes[idx].left;
    let right_idx = nodes[idx].right;
    if (left_idx != EMPTY && left_idx >= nodes.len()) || (right_idx != EMPTY && right_idx >= nodes.len()) {
        return false;
    }
    if nodes[idx].color == RED {
        if left_idx != EMPTY && nodes[left_idx].color != BLACK {
            return false;
        }
        if right_idx != EMPTY && nodes[right_idx].color != BLACK {
            return false;
        }
    }
    if left_idx != EMPTY && !colors_below(nodes, left_idx, fuel - 1) {
        return false;
    }
    if right_idx != EMPTY && !colors_below(nodes, right_idx, fuel - 1) {
        return false;
    }
    true
}

/// The black count without the absent child at the end of the path.
fn black_count_below<T>(nodes: &Vec<Node<T>>, idx: usize, fuel: usize) -> (r: Option<usize>)
    ensures
        r.is_some() == black_count(nodes@, idx, fuel as nat).is_some(),
        r.is_some() ==> r.unwrap() + 1 == black_count(nodes@, idx, fuel as nat).unwrap(),
        r.is_some() ==> r.unwrap() <= fuel,
    decreases fuel,
{
    if idx == EMPTY {
        return Some(0);
    }
    if fuel == 0 || idx >= nodes.len() {
        return None;
    }
    let left = black_count_below(nodes, nodes[idx].left, fuel - 1);
    let right = black_count_below(nodes, nodes[idx].right, fuel - 1);
    match (left, right) {
        (Some(l), Some(r)) => {
            if l == r {
                let count: usize = if nodes[idx].color == BLACK {
                    1
                } else {
                    0
                };
                Some(count + l)
            } else {
                None
            }
        },
        _ => None,
    }
}

/// Whether the walk below `idx` finds every value between the bounds and in
/// order.
fn bst_below<T: PartialOrd>(
    nodes: &Vec<Node<T>>,
    idx: usize,
    lo: Option<&T>,
    hi: Option<&T>,
    fuel: usize,
) -> (r: bool)
    requires
        total_order::<T>(),
    ensures
        r == bst_ok(nodes@, idx, owned(lo), owned(hi), fuel as nat),
    decreases fuel,
{
    if fuel == 0 || idx >= nodes.len() {
        return false;
    }
    let left_idx = nodes[idx].left;
    let right_idx = nodes[idx].right;
    if (left_idx != EMPTY && left_idx >= nodes.len()) || (right_idx != EMPTY && right_idx >= nodes.len()) {
        return false;
    }
    let val = &nodes[idx].val;
    match lo {
        Some(l) => {
            if val.lt(l) {
                proof {
                    assert(lt(*val, *l));
                    if le(*l, *val) {
                        assert(lt(*val, *val));
                    }
                }
                return false;
            }
            proof {
                assert(!lt(*val, *l));
                assert(le(*l, *val));
            }
        },
        None => {},
    }
    match hi {
        Some(h) => {
            if h.lt(val) {
                proof {
                    assert(lt(*h, *val));
                    if le(*val, *h) {
                        assert(lt(*val, *val));
                    }
                }
                return false;
            }
            proof {
                assert(!lt(*h, *val));
                assert(le(*val, *h));
            }
        },
        None => {},
    }
    if left_idx != EMPTY && !bst_below(nodes, left_idx, lo, Some(val), fuel - 1) {
        return false;
    }
    if right_idx != EMPTY && !bst_below(nodes, right_idx, Some(val), hi, fuel - 1) {
        return false;
    }
    true
}

fn dlinked_below<T>(nodes: &Vec<Node<T>>, idx: usize, fuel: usize) -> (r: bool)
    ensures
        r == dlinked_ok(nodes@, idx, fuel as nat),
    decreases fuel,
{
    if fuel == 0 || idx >= nodes.len() {
        return false;
    }
    let left_idx = nodes[idx].left;
    let right_idx = nodes[idx].right;
    if (left_idx != EMPTY && left_idx >= nodes.len()) || (right_idx != EMPTY && right_idx >= nodes.len()) {
        return false;
    }
    if left_idx != EMPTY {
        if nodes[left_idx].parent != idx {
            return false;
        }
        if !dlinked_below(nodes, left_idx, fuel - 1) {
            return false;
        }
    }
    if right_idx != EMPTY {
        if nodes[right_idx].parent != idx {
            return false;
        }
        if !dlinked_below(nodes, right_idx, fuel - 1) {
            return false;
        }
    }
    true
}

/// Whether no red node of the tree rooted at `root_idx` has a red child.
pub fn assert_colors<T>(nodes: &Vec<Node<T>>, root_idx: usize) -> (r: bool)
    ensures
        r == colors_ok(nodes@, root_idx, nodes@.len()),
{
    colors_below(nodes, root_idx, nodes.len())
}

/// The number of black nodes on every path from `root_idx` down to an
/// absent child, that child counted as black, or `None` if two such paths
/// differ in it. The arena must be short enough for the count to fit.
pub fn assert_black_count<T>(nodes: &Vec<Node<T>>, root_idx: usize) -> (r: Option<usize>)
    requires
        nodes@.len() < usize::MAX,
    ensures
        r.is_some() == black_count(nodes@, root_idx, nodes@.len()).is_some(),
        r.is_some() ==> r.unwrap() == black_count(nodes@, root_idx, nodes@.len()).unwrap(),
{
    match black_count_below(nodes, root_idx, nodes.len()) {
        Some(c) => Some(c + 1),
        None => None,
    }
}

/// Whether the tree, which must not be empty, is colored as a red-black tree.
pub fn assert_is_rbtree<T: PartialOrd>(b: &BTree<T>) -> (r: bool)
    ensures
        r == rbtree_ok(b.arena(), b.root()),
        b.wf() && b.root() != EMPTY ==> r,
{
    proof {
        b.unfold();
        if b.wf() && b.root() != EMPTY {
            lemma_wf_all_ok_parts(b.nodes@, b.root_idx, b.shape@);
        }
    }
    if b.root_idx >= b.nodes.len() {
        return false;
    }
    if b.nodes[b.root_idx].color != BLACK {
        return false;
    }
    assert_colors::<T>(&b.nodes, b.root_idx) && black_count_below::<T>(&b.nodes, b.root_idx, b.nodes.len()).is_some()
}

/// Whether the tree rooted at `idx` is a search tree: at every node, every
/// value of the left subtree is at or below the node's value and every value
/// of the right subtree is at or above it.
pub fn assert_is_bst<T: PartialOrd>(nodes: &Vec<Node<T>>, idx: usize) -> (r: bool)
    requires
        total_order::<T>(),
    ensures
        r == search_tree(nodes@, idx),
        r == ordered_below(nodes@, idx, nodes@.len()),
{
    proof {
        assert(nodes.len() == nodes@.len());
        law_search_tree(nodes@, idx);
    }
    bst_below(nodes, idx, None, None, nodes.len())
}

/// Whether the tree rooted at `idx` is doubly linked: `idx` has no parent,
/// and every child below it names its parent as its parent.
pub fn assert_is_dlinked<T>(nodes: &Vec<Node<T>>, idx: usize) -> (r: bool)
    ensures
        r == doubly_linked(nodes@, idx),
{
    if idx >= nodes.len() {
        return false;
    }
    if nodes[idx].parent != EMPTY {
        return false;
    }
    dlinked_below(nodes, idx, nodes.len())
}

/// Whether the tree is valid in every respect. A well-formed tree is.
pub fn assert_all<T: PartialOrd>(b: &BTree<T>) -> (r: bool)
    requires
        total_order::<T>(),
    ensures
        r == all_ok(b.arena(), b.root()),
        b.wf() ==> r,
{
    proof {
        b.unfold();
        if b.wf() && b.root() != EMPTY {
            lemma_wf_all_ok_parts(b.nodes@, b.root_idx, b.shape@);
            lemma_tree_bst_ok(b.nodes@, b.root_idx, b.shape@, b.root_idx, None, None, b.nodes@.len());
        }
    }
    if b.root_idx != EMPTY {
        assert_is_dlinked(&b.nodes, b.root_idx) && assert_is_bst(&b.nodes, b.root_idx) && assert_is_rbtree(b)
    } else {
        true
    }
}

/// In a tree the links below `i` are found mutual within as many levels
/// as the subtree of `i` has nodes.
pub(crate) proof fn lemma_tree_dlinked_ok<T>(nodes: Seq<Node<T>>, root: usize, sh: Shape, i: usize, fuel: nat)
    requires
        tree_ok(nodes, root, sh, -1),
        i < nodes.len(),
        fuel >= sh.span[i as int].hi - sh.span[i as int].lo,
    ensures
        dlinked_ok(nodes, i, fuel),
    decreases fuel,
{
    assert(node_ok(nodes, sh, root, -1, i as int));
    let nd = nodes[i as int];
    if nd.left != EMPTY {
        assert(node_ok(nodes, sh, root, -1, nd.left as int));
        lemma_tree_dlinked_ok(nodes, root, sh, nd.left, (fuel - 1) as nat);
    }
    if nd.right != EMPTY {
        assert(node_ok(nodes, sh, root, -1, nd.right as int));
        lemma_tree_dlinked_ok(nodes, root, sh, nd.right, (fuel - 1) as nat);
    }
}

/// In a tree without a red child of a red node the nodes below `i` are
/// found rightly colored.
pub(crate) proof fn lemma_tree_colors_ok<T>(nodes: Seq<Node<T>>, root: usize, sh: Shape, i: usize, fuel: nat)
    requires
        tree_ok(nodes, root, sh, -1),
        all_rr(nodes, -1, -1),
        i < nodes.len(),
        fuel >= sh.span[i as int].hi - sh.span[i as int].lo,
    ensures
        colors_ok(nodes, i, fuel),
    decreases fuel,
{
    assert(node_ok(nodes, sh, root, -1, i as int));
    let nd = nodes[i as int];
    if nd.left != EMPTY {
        assert(node_ok(nodes, sh, root, -1, nd.left as int));
        assert(rr_ok(nodes, nd.left as int));
        lemma_tree_colors_ok(nodes, root, sh, nd.left, (fuel - 1) as nat);
    }
    if nd.right != EMPTY {
        assert(node_ok(nodes, sh, root, -1, nd.right as int));
        assert(rr_ok(nodes, nd.right as int));
        lemma_tree_colors_ok(nodes, root, sh, nd.right, (fuel - 1) as nat);
    }
}

/// Where every node but `skip` is balanced and `skip` is not below `i`, the
/// black count below `i` is the recorded black height.
pub(crate) proof fn lemma_tree_black_count<T>(
    nodes: Seq<Node<T>>,
    root: usize,
    sh: Shape,
    skip: int,
    i: usize,
    fuel: nat,
)
    requires
        tree_ok(nodes, root, sh, -1),
        all_bal(nodes, sh.bh, -1, skip),
        i == EMPTY || i < nodes.len(),
        i != EMPTY ==> fuel >= sh.span[i as int].hi - sh.span[i as int].lo,
        i != EMPTY && 0 <= skip < nodes.len() ==> !(sh.span[i as int].lo <= sh.span[skip].pos
            < sh.span[i as int].hi),
    ensures
        black_count(nodes, i, fuel) == Some(crate::node::bh_of(sh.bh, i) + 1),
    decreases fuel,
{
    if i != EMPTY {
        assert(node_ok(nodes, sh, root, -1, i as int));
        assert(bal_ok(nodes, sh.bh, i as int));
        let nd = nodes[i as int];
        if nd.left != EMPTY {
            assert(node_ok(nodes, sh, root, -1, nd.left as int));
        }
        if nd.right != EMPTY {
            assert(node_ok(nodes, sh, root, -1, nd.right as int));
        }
        lemma_tree_black_count(nodes, root, sh, skip, nd.left, (fuel - 1) as nat);
        lemma_tree_black_count(nodes, root, sh, skip, nd.right, (fuel - 1) as nat);
    }
}

/// In a tree whose in-order values are sorted, the nodes below `i` are found
/// in order between any bounds that hold of the in-order values of the
/// subtree of `i`.
pub(crate) proof fn lemma_tree_bst_ok<T: PartialOrd>(
    nodes: Seq<Node<T>>,
    root: usize,
    sh: Shape,
    i: usize,
    lo: Option<T>,
    hi: Option<T>,
    fuel: nat,
)
    requires
        tree_ok(nodes, root, sh, -1),
        sorted(nodes, sh.order),
        i < nodes.len(),
        fuel >= sh.span[i as int].hi - sh.span[i as int].lo,
        forall|p: int|
            sh.span[i as int].lo <= p < sh.span[i as int].hi ==> above(lo, #[trigger] key_at(nodes, sh.order, p)),
        forall|p: int|
            sh.span[i as int].lo <= p < sh.span[i as int].hi ==> below(#[trigger] key_at(nodes, sh.order, p), hi),
    ensures
        bst_ok(nodes, i, lo, hi, fuel),
    decreases fuel,
{
    assert(node_ok(nodes, sh, root, -1, i as int));
    let nd = nodes[i as int];
    let s = sh.span[i as int];
    assert(key_at(nodes, sh.order, s.pos) == nd.val);
    if nd.left != EMPTY {
        assert(node_ok(nodes, sh, root, -1, nd.left as int));
        assert forall|p: int| s.lo <= p < s.pos implies below(
            #[trigger] key_at(nodes, sh.order, p),
            Some(nd.val),
        ) by {
            assert(le(key_at(nodes, sh.order, p), key_at(nodes, sh.order, s.pos)));
        }
        lemma_tree_bst_ok(nodes, root, sh, nd.left, lo, Some(nd.val), (fuel - 1) as nat);
    }
    if nd.right != EMPTY {
        assert(node_ok(nodes, sh, root, -1, nd.right as int));
        assert forall|p: int| s.pos + 1 <= p < s.hi implies above(
            Some(nd.val),
            #[trigger] key_at(nodes, sh.order, p),
        ) by {
            assert(le(key_at(nodes, sh.order, s.pos), key_at(nodes, sh.order, p)));
        }
        lemma_tree_bst_ok(nodes, root, sh, nd.right, Some(nd.val), hi, (fuel - 1) as nat);
    }
}

/// A red-black tree that is not empty is found linked and rightly colored.
pub(crate) proof fn lemma_wf_all_ok_parts<T>(nodes: Seq<Node<T>>, root: usize, sh: Shape)
    requires
        tree_ok(nodes, root, sh, -1),
        crate::node::colored(nodes, root, sh.bh),
        root != EMPTY,
    ensures
        root < nodes.len(),
        nodes[root as int].parent == EMPTY,
        dlinked_ok(nodes, root, nodes.len()),
        rbtree_ok(nodes, root),
{
    assert(node_ok(nodes, sh, root, -1, root as int));
    lemma_tree_dlinked_ok(nodes, root, sh, root, nodes.len());
    lemma_tree_colors_ok(nodes, root, sh, root, nodes.len());
    lemma_tree_black_count(nodes, root, sh, -1, root, nodes.len());
}

} // verus!
