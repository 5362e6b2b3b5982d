//! The node record, the arena model and the predicates that make an arena a
//! red-black tree.
use crate::order::le;
use vstd::prelude::*;

verus! {

/// The index that stands for "no node". No arena slot ever has this index.
pub const EMPTY: usize = usize::MAX;

/// The color red.
pub const RED: bool = true;

/// The color black.
pub const BLACK: bool = false;

/// One arena slot: a value, a color and the indices of the three neighbors,
/// each of them a slot of the arena or `EMPTY`.
#[derive(Debug)]
pub struct Node<T> {
    pub val: T,
    pub color: bool,
    pub parent: usize,
    pub left: usize,
    pub right: usize,
}

/// The in-order positions that a node's subtree occupies, `lo..hi`, and the
/// position `pos` of the node itself within them.
pub struct Span {
    pub lo: int,
    pub pos: int,
    pub hi: int,
}

/// Ghost bookkeeping that witnesses the shape of the tree.
///
/// `span[i]` and `bh[i]` belong to the node in slot `i`; `order[p]` is the
/// slot of the node at in-order position `p`. `bh[i]` is the number of black
/// nodes on every path from node `i` down to an absent child, node `i`
/// included.
pub struct Shape {
    pub span: Seq<Span>,
    pub order: Seq<int>,
    pub bh: Seq<nat>,
}

/// Slot `i` exists and is not the slot `dead` that is about to be vacated.
pub open spec fn live(n: nat, dead: int, i: int) -> bool {
    0 <= i < n && i != dead
}

/// The number of slots that hold a node of the tree.
pub open spec fn live_count(n: nat, dead: int) -> int {
    if 0 <= dead < n {
        n - 1
    } else {
        n as int
    }
}

/// The links and the span of slot `i` agree with those of its neighbors.
pub open spec fn node_ok<T>(nodes: Seq<Node<T>>, sh: Shape, root: usize, dead: int, i: int) -> bool {
    let nd = nodes[i];
    let s = sh.span[i];
    let n = nodes.len();
    &&& 0 <= s.lo <= s.pos < s.hi <= live_count(n, dead)
    &&& sh.order[s.pos] == i
    &&& if nd.left == EMPTY {
        s.lo == s.pos
    } else {
        &&& live(n, dead, nd.left as int)
        &&& nodes[nd.left as int].parent == i
        &&& sh.span[nd.left as int].lo == s.lo
        &&& sh.span[nd.left as int].hi == s.pos
    }
    &&& if nd.right == EMPTY {
        s.hi == s.pos + 1
    } else {
        &&& live(n, dead, nd.right as int)
        &&& nodes[nd.right as int].parent == i
        &&& sh.span[nd.right as int].lo == s.pos + 1
        &&& sh.span[nd.right as int].hi == s.hi
    }
    &&& if nd.parent == EMPTY {
        i == root
    } else {
        &&& live(n, dead, nd.parent as int)
        &&& (nodes[nd.parent as int].left == i || nodes[nd.parent as int].right == i)
    }
}

/// In-order position `p` is taken by a live slot that knows its position.
pub open spec fn slot_ok(n: nat, sh: Shape, dead: int, p: int) -> bool {
    &&& live(n, dead, sh.order[p])
    &&& sh.span[sh.order[p]].pos == p
}

/// The live slots of the arena form one binary tree rooted at `root`: every
/// stored index is a live slot, parents and children refer to each other, the
/// root alone has no parent, and every live slot is reachable from the root.
pub open spec fn tree_ok<T>(nodes: Seq<Node<T>>, root: usize, sh: Shape, dead: int) -> bool {
    let n = nodes.len();
    let m = live_count(n, dead);
    &&& n <= EMPTY
    &&& sh.span.len() == n
    &&& sh.bh.len() == n
    &&& sh.order.len() == m
    &&& if m == 0 {
        root == EMPTY
    } else {
        &&& live(n, dead, root as int)
        &&& nodes[root as int].parent == EMPTY
        &&& sh.span[root as int].lo == 0
        &&& sh.span[root as int].hi == m
    }
    &&& forall|i: int| live(n, dead, i) ==> #[trigger] node_ok(nodes, sh, root, dead, i)
    &&& forall|p: int| 0 <= p < m ==> #[trigger] slot_ok(n, sh, dead, p)
}

/// The value at in-order position `p`.
pub open spec fn key_at<T>(nodes: Seq<Node<T>>, order: Seq<int>, p: int) -> T {
    nodes[order[p]].val
}

/// The values of the tree in in-order.
pub open spec fn inorder_of<T>(nodes: Seq<Node<T>>, order: Seq<int>) -> Seq<T> {
    Seq::new(order.len(), |p: int| key_at(nodes, order, p))
}

/// The values never decrease along the in-order positions.
pub open spec fn sorted<T: PartialOrd>(nodes: Seq<Node<T>>, order: Seq<int>) -> bool {
    forall|p: int, q: int|
        0 <= p < q < order.len() ==> le(#[trigger] key_at(nodes, order, p), #[trigger] key_at(nodes, order, q))
}

/// An absent node counts as black.
pub open spec fn black<T>(nodes: Seq<Node<T>>, i: usize) -> bool {
    i == EMPTY || nodes[i as int].color == BLACK
}

/// The black height recorded for `i`; an absent node has none.
pub open spec fn bh_of(bh: Seq<nat>, i: usize) -> nat {
    if i == EMPTY {
        0
    } else {
        bh[i as int]
    }
}

/// Both subtrees of `i` have the same black height, and `bh[i]` counts `i` on top of it.
pub open spec fn bal_ok<T>(nodes: Seq<Node<T>>, bh: Seq<nat>, i: int) -> bool {
    let nd = nodes[i];
    &&& bh_of(bh, nd.left) == bh_of(bh, nd.right)
    &&& bh[i] == bh_of(bh, nd.left) + (if nd.color == BLACK {
        1nat
    } else {
        0nat
    })
}

/// A red node `i` has no red parent.
pub open spec fn rr_ok<T>(nodes: Seq<Node<T>>, i: int) -> bool {
    nodes[i].color == RED && nodes[i].parent != EMPTY ==> nodes[nodes[i].parent as int].color == BLACK
}

/// Every live slot but `skip` is balanced.
pub open spec fn all_bal<T>(nodes: Seq<Node<T>>, bh: Seq<nat>, dead: int, skip: int) -> bool {
    forall|i: int| live(nodes.len(), dead, i) && i != skip ==> #[trigger] bal_ok(nodes, bh, i)
}

/// No live slot but `skip` is a red child of a red parent.
pub open spec fn all_rr<T>(nodes: Seq<Node<T>>, dead: int, skip: int) -> bool {
    forall|i: int| live(nodes.len(), dead, i) && i != skip ==> #[trigger] rr_ok(nodes, i)
}

/// The red-black coloring: a black root, no red node with a red parent, and
/// the same number of black nodes on every path from a node down to an
/// absent child.
pub open spec fn colored<T>(nodes: Seq<Node<T>>, root: usize, bh: Seq<nat>) -> bool {
    &&& black(nodes, root)
    &&& all_bal(nodes, bh, -1, -1)
    &&& all_rr(nodes, -1, -1)
}

/// `n` has the values and links of `o`, slot by slot; only colors may differ.
pub open spec fn same_links<T>(o: Seq<Node<T>>, n: Seq<Node<T>>) -> bool {
    &&& n.len() == o.len()
    &&& forall|i: int| #![trigger n[i]] 0 <= i < o.len() ==> n[i] == Node { color: n[i].color, ..o[i] }
}

/// `n` has the values of `o`, slot by slot.
pub open spec fn same_vals<T>(o: Seq<Node<T>>, n: Seq<Node<T>>) -> bool {
    &&& n.len() == o.len()
    &&& forall|i: int| #![trigger n[i]] 0 <= i < o.len() ==> n[i].val == o[i].val
}

/// Recoloring does not disturb the tree structure.
pub(crate) proof fn lemma_same_links_tree<T>(
    o: Seq<Node<T>>,
    n: Seq<Node<T>>,
    root: usize,
    sh: Shape,
    sh2: Shape,
    dead: int,
)
    requires
        tree_ok(o, root, sh, dead),
        same_links(o, n),
        sh2.span == sh.span,
        sh2.order == sh.order,
        sh2.bh.len() == sh.bh.len(),
    ensures
        tree_ok(n, root, sh2, dead),
{
    assert forall|i: int| live(n.len(), dead, i) implies #[trigger] node_ok(n, sh2, root, dead, i) by {
        assert(node_ok(o, sh, root, dead, i));
    }
    assert forall|p: int| 0 <= p < live_count(n.len(), dead) implies #[trigger] slot_ok(
        n.len(),
        sh2,
        dead,
        p,
    ) by {
        assert(slot_ok(o.len(), sh, dead, p));
    }
}

/// Where the values stay in their slots and the in-order positions stay with
/// their slots, the in-order values stay the same.
pub(crate) proof fn lemma_same_vals_inorder<T: PartialOrd>(
    o: Seq<Node<T>>,
    n: Seq<Node<T>>,
    root: usize,
    sh: Shape,
    dead: int,
)
    requires
        tree_ok(o, root, sh, dead),
        same_vals(o, n),
    ensures
        inorder_of(n, sh.order) == inorder_of(o, sh.order),
        sorted(o, sh.order) ==> sorted(n, sh.order),
{
    assert forall|p: int| 0 <= p < sh.order.len() implies key_at(n, sh.order, p) == key_at(
        o,
        sh.order,
        p,
    ) by {
        assert(slot_ok(o.len(), sh, dead, p));
    }
    assert(inorder_of(n, sh.order) =~= inorder_of(o, sh.order));
    if sorted(o, sh.order) {
        assert forall|p: int, q: int| 0 <= p < q < sh.order.len() implies le(
            #[trigger] key_at(n, sh.order, p),
            #[trigger] key_at(n, sh.order, q),
        ) by {
            assert(le(key_at(o, sh.order, p), key_at(o, sh.order, q)));
        }
    }
}

/// A sequence of values that never decreases.
pub open spec fn seq_sorted<T: PartialOrd>(s: Seq<T>) -> bool {
    forall|p: int, q: int| 0 <= p < q < s.len() ==> le(#[trigger] s[p], #[trigger] s[q])
}

/// The in-order positions are sorted exactly if the in-order values are.
pub(crate) proof fn lemma_sorted_inorder<T: PartialOrd>(nodes: Seq<Node<T>>, order: Seq<int>)
    ensures
        sorted(nodes, order) == seq_sorted(inorder_of(nodes, order)),
{
    let s = inorder_of(nodes, order);
    if sorted(nodes, order) {
        assert forall|p: int, q: int| 0 <= p < q < s.len() implies le(#[trigger] s[p], #[trigger] s[q]) by {
            assert(le(key_at(nodes, order, p), key_at(nodes, order, q)));
        }
    }
    if seq_sorted(s) {
        assert forall|p: int, q: int| 0 <= p < q < order.len() implies le(
            #[trigger] key_at(nodes, order, p),
            #[trigger] key_at(nodes, order, q),
        ) by {
            assert(le(s[p], s[q]));
        }
    }
}

/// Taking one value out of a sorted sequence leaves it sorted.
pub(crate) proof fn lemma_remove_sorted<T: PartialOrd>(s: Seq<T>, at: int)
    requires
        seq_sorted(s),
        0 <= at < s.len(),
    ensures
        seq_sorted(s.remove(at)),
{
    let r = s.remove(at);
    assert forall|p: int, q: int| 0 <= p < q < r.len() implies le(#[trigger] r[p], #[trigger] r[q]) by {
        let from_p = if p < at {
            p
        } else {
            p + 1
        };
        let from_q = if q < at {
            q
        } else {
            q + 1
        };
        assert(le(s[from_p], s[from_q]));
    }
}

} // verus!
