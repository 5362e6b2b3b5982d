//! Insertion: a new red leaf is spliced in below the node that the search
//! ends at, then the coloring is repaired bottom-up by recoloring and at most
//! one rotation step.
use crate::navigate::descend;
use crate::navigate::fits;
use crate::navigate::btree_sib;
use crate::navigate::is_black;
use crate::node::all_bal;
use crate::node::all_rr;
use crate::node::bal_ok;
use crate::node::black;
use crate::node::colored;
use crate::node::inorder_of;
use crate::node::key_at;
use crate::node::lemma_same_links_tree;
use crate::node::lemma_same_vals_inorder;
use crate::node::live;
use crate::node::node_ok;
use crate::node::rr_ok;
use crate::node::same_links;
use crate::node::same_vals;
use crate::node::seq_sorted;
use crate::node::slot_ok;
use crate::node::sorted;
use crate::node::tree_ok;
use crate::node::Node;
use crate::node::Shape;
use crate::node::Span;
use crate::node::BLACK;
use crate::node::EMPTY;
use crate::node::RED;
use crate::order::le;
use crate::order::lt;
use crate::order::total_order;
use crate::rotate::kid;
use crate::rotate::lemma_rotated_same_vals;
use crate::rotate::rotated;
use crate::rotate::rotation;
use crate::rotate::rotation_root;
use crate::rotate::with_kid;
use crate::tree::BTree;
use crate::validate::all_ok;
use vstd::prelude::*;

verus! {

/// The state while an insertion is being repaired: the tree is balanced, and
/// only `z`, which is red, may have a red parent or be a red root.
pub open spec fn insert_pending<T>(nodes: Seq<Node<T>>, root: usize, bh: Seq<nat>, z: usize) -> bool {
    &&& all_bal(nodes, bh, -1, -1)
    &&& all_rr(nodes, -1, z as int)
    &&& nodes[z as int].color == RED
    &&& (black(nodes, root) || root == z)
}

/// A span after a leaf has been added next to the node at position `a`, at
/// position `at`.
pub open spec fn bumped(s: Span, a: int, at: int) -> Span {
    Span {
        lo: if s.lo > a {
            s.lo + 1
        } else {
            s.lo
        },
        pos: if s.pos >= at {
            s.pos + 1
        } else {
            s.pos
        },
        hi: if s.hi > a {
            s.hi + 1
        } else {
            s.hi
        },
    }
}

/// The in-order position that a new child of `q` takes.
pub open spec fn leaf_at(sh: Shape, q: usize, go_left: bool) -> int {
    if go_left {
        sh.span[q as int].pos
    } else {
        sh.span[q as int].pos + 1
    }
}

/// The arena after a red leaf with value `val` has been appended as a child of `q`.
pub open spec fn leaf_nodes<T>(o: Seq<Node<T>>, q: usize, go_left: bool, val: T) -> Seq<Node<T>> {
    o.update(q as int, with_kid(o[q as int], go_left, o.len() as usize)).push(
        Node { val, color: RED, parent: q, left: EMPTY, right: EMPTY },
    )
}

/// The shape after a leaf has been appended as a child of `q`.
pub open spec fn leaf_shape(sh: Shape, q: usize, go_left: bool) -> Shape {
    let a = sh.span[q as int].pos;
    let at = leaf_at(sh, q, go_left);
    let z = sh.span.len() as int;
    Shape {
        span: Seq::new(
            sh.span.len() + 1,
            |i: int|
                if i == z {
                    Span { lo: at, pos: at, hi: at + 1 }
                } else {
                    bumped(sh.span[i], a, at)
                },
        ),
        order: sh.order.insert(at, z),
        bh: sh.bh.push(0),
    }
}

proof fn lemma_leaf_node<T>(o: Seq<Node<T>>, root: usize, sh: Shape, q: usize, go_left: bool, val: T, i: int)
    requires
        tree_ok(o, root, sh, -1),
        q < o.len(),
        o.len() < EMPTY,
        kid(o[q as int], go_left) == EMPTY,
        0 <= i <= o.len(),
    ensures
        node_ok(leaf_nodes(o, q, go_left, val), leaf_shape(sh, q, go_left), root, -1, i),
{
    let n = leaf_nodes(o, q, go_left, val);
    let nsh = leaf_shape(sh, q, go_left);
    let at = leaf_at(sh, q, go_left);
    let z = o.len() as int;
    assert(node_ok(o, sh, root, -1, q as int));
    assert(node_ok(o, sh, root, -1, root as int));
    sh.order.insert_ensures(at, z);
    if i < z {
        assert(node_ok(o, sh, root, -1, i));
        let l = o[i].left;
        let r = o[i].right;
        let p = o[i].parent;
        if l != EMPTY {
            assert(node_ok(o, sh, root, -1, l as int));
        }
        if r != EMPTY {
            assert(node_ok(o, sh, root, -1, r as int));
        }
        if p != EMPTY {
            assert(node_ok(o, sh, root, -1, p as int));
        }
    }
}

/// Appending a leaf below `q` on a side where `q` has no child gives a tree again.
pub(crate) proof fn lemma_leaf_tree<T>(o: Seq<Node<T>>, root: usize, sh: Shape, q: usize, go_left: bool, val: T)
    requires
        tree_ok(o, root, sh, -1),
        q < o.len(),
        o.len() < EMPTY,
        kid(o[q as int], go_left) == EMPTY,
    ensures
        tree_ok(leaf_nodes(o, q, go_left, val), root, leaf_shape(sh, q, go_left), -1),
{
    let n = leaf_nodes(o, q, go_left, val);
    let nsh = leaf_shape(sh, q, go_left);
    let at = leaf_at(sh, q, go_left);
    let z = o.len() as int;
    assert(node_ok(o, sh, root, -1, q as int));
    assert(node_ok(o, sh, root, -1, root as int));
    sh.order.insert_ensures(at, z);
    assert forall|i: int| live(n.len(), -1, i) implies #[trigger] node_ok(n, nsh, root, -1, i) by {
        lemma_leaf_node(o, root, sh, q, go_left, val, i);
    }
    assert forall|p: int| 0 <= p < n.len() implies #[trigger] slot_ok(n.len(), nsh, -1, p) by {
        if p < at {
            assert(slot_ok(o.len(), sh, -1, p));
        } else if p > at {
            assert(slot_ok(o.len(), sh, -1, p - 1));
        }
    }
}

/// Appending a value where it fits keeps the in-order values sorted, and puts
/// the value among them at that position.
pub(crate) proof fn lemma_leaf_sorted<T: PartialOrd>(
    o: Seq<Node<T>>,
    root: usize,
    sh: Shape,
    q: usize,
    go_left: bool,
    val: T,
)
    requires
        total_order::<T>(),
        tree_ok(o, root, sh, -1),
        sorted(o, sh.order),
        q < o.len(),
        fits(o, sh.order, val, leaf_at(sh, q, go_left)),
    ensures
        sorted(leaf_nodes(o, q, go_left, val), leaf_shape(sh, q, go_left).order),
        inorder_of(leaf_nodes(o, q, go_left, val), leaf_shape(sh, q, go_left).order) == inorder_of(
            o,
            sh.order,
        ).insert(leaf_at(sh, q, go_left), val),
{
    let n = leaf_nodes(o, q, go_left, val);
    let nsh = leaf_shape(sh, q, go_left);
    let at = leaf_at(sh, q, go_left);
    let z = o.len() as int;
    assert(node_ok(o, sh, root, -1, q as int));
    sh.order.insert_ensures(at, z);
    inorder_of(o, sh.order).insert_ensures(at, val);
    assert forall|p: int| 0 <= p < nsh.order.len() implies #[trigger] key_at(n, nsh.order, p) == (if p
        < at {
        key_at(o, sh.order, p)
    } else if p == at {
        val
    } else {
        key_at(o, sh.order, p - 1)
    }) by {
        if p < at {
            assert(slot_ok(o.len(), sh, -1, p));
        } else if p > at {
            assert(slot_ok(o.len(), sh, -1, p - 1));
        }
    }
    assert(inorder_of(n, nsh.order) =~= inorder_of(o, sh.order).insert(at, val));
    assert forall|p: int, r: int| 0 <= p < r < nsh.order.len() implies le(
        #[trigger] key_at(n, nsh.order, p),
        #[trigger] key_at(n, nsh.order, r),
    ) by {
        if r < at {
            assert(le(key_at(o, sh.order, p), key_at(o, sh.order, r)));
        } else if r == at {
            assert(le(key_at(o, sh.order, p), val));
        } else if p < at {
            assert(le(key_at(o, sh.order, p), key_at(o, sh.order, r - 1)));
        } else if p == at {
            assert(lt(val, key_at(o, sh.order, r - 1)));
        } else {
            assert(le(key_at(o, sh.order, p - 1), key_at(o, sh.order, r - 1)));
        }
    }
}

/// A freshly appended red leaf leaves the tree balanced; only the leaf may
/// have a red parent.
pub(crate) proof fn lemma_leaf_pending<T>(o: Seq<Node<T>>, root: usize, sh: Shape, q: usize, go_left: bool, val: T)
    requires
        tree_ok(o, root, sh, -1),
        colored(o, root, sh.bh),
        q < o.len(),
        o.len() < EMPTY,
        kid(o[q as int], go_left) == EMPTY,
    ensures
        insert_pending(
            leaf_nodes(o, q, go_left, val),
            root,
            leaf_shape(sh, q, go_left).bh,
            o.len() as usize,
        ),
{
    let n = leaf_nodes(o, q, go_left, val);
    let nbh = leaf_shape(sh, q, go_left).bh;
    let z = o.len() as int;
    assert(node_ok(o, sh, root, -1, q as int));
    assert(node_ok(o, sh, root, -1, root as int));
    assert forall|i: int| live(n.len(), -1, i) implies #[trigger] bal_ok(n, nbh, i) by {
        if i < z {
            assert(bal_ok(o, sh.bh, i));
            assert(node_ok(o, sh, root, -1, i));
        }
    }
    assert forall|i: int| live(n.len(), -1, i) && i != z implies #[trigger] rr_ok(n, i) by {
        assert(rr_ok(o, i));
        assert(node_ok(o, sh, root, -1, i));
    }
}

/// `nd` with color `c`.
pub open spec fn with_color<T>(nd: Node<T>, c: bool) -> Node<T> {
    Node { color: c, ..nd }
}

/// The climb from `z` has ended: `z` has no parent or no grandparent, or its
/// parent is black, or its parent's sibling is.
pub open spec fn climbed_out<T>(nodes: Seq<Node<T>>, z: usize) -> bool {
    let p = nodes[z as int].parent;
    let g = nodes[p as int].parent;
    ||| p == EMPTY
    ||| g == EMPTY
    ||| nodes[p as int].color == BLACK
    ||| black(nodes, kid(nodes[g as int], nodes[g as int].right == p))
}

/// The arena after one recoloring step at `z`: the parent of `z` and the
/// parent's sibling turn black, the grandparent turns red.
pub open spec fn recolored<T>(o: Seq<Node<T>>, z: usize) -> Seq<Node<T>> {
    let p = o[z as int].parent;
    let g = o[p as int].parent;
    let u = kid(o[g as int], o[g as int].right == p);
    o.update(u as int, with_color(o[u as int], BLACK)).update(g as int, with_color(o[g as int], RED)).update(
        p as int,
        with_color(o[p as int], BLACK),
    )
}

/// The black heights after one recoloring step at `z`.
pub open spec fn recolored_bh<T>(o: Seq<Node<T>>, bh: Seq<nat>, z: usize) -> Seq<nat> {
    let p = o[z as int].parent;
    let g = o[p as int].parent;
    let u = kid(o[g as int], o[g as int].right == p);
    bh.update(u as int, bh[u as int] + 1).update(p as int, bh[p as int] + 1)
}

/// The arena after the climb from `z`, and the node at which the climb ends:
/// as long as the climb has not ended, a recoloring step is taken at `z` and
/// the climb goes on from the grandparent of `z`. It takes at most `fuel`
/// steps.
pub open spec fn climb<T>(nodes: Seq<Node<T>>, z: usize, fuel: nat) -> (Seq<Node<T>>, usize)
    decreases fuel,
{
    if fuel == 0 || climbed_out(nodes, z) {
        (nodes, z)
    } else {
        climb(recolored(nodes, z), nodes[nodes[z as int].parent as int].parent, (fuel - 1) as nat)
    }
}

/// One recoloring step moves the possible red-red conflict from `z` to its grandparent.
pub(crate) proof fn lemma_recolor_step<T>(o: Seq<Node<T>>, root: usize, sh: Shape, z: usize)
    requires
        tree_ok(o, root, sh, -1),
        z < o.len(),
        insert_pending(o, root, sh.bh, z),
        !climbed_out(o, z),
    ensures
        same_links(o, recolored(o, z)),
        insert_pending(recolored(o, z), root, recolored_bh(o, sh.bh, z), o[o[z as int].parent as int].parent),
{
    let n = recolored(o, z);
    let nbh = recolored_bh(o, sh.bh, z);
    let p = o[z as int].parent;
    assert(node_ok(o, sh, root, -1, z as int));
    let g = o[p as int].parent;
    assert(node_ok(o, sh, root, -1, p as int));
    assert(node_ok(o, sh, root, -1, g as int));
    let u = kid(o[g as int], o[g as int].right == p);
    assert(node_ok(o, sh, root, -1, u as int));
    assert(rr_ok(o, p as int));
    assert(node_ok(o, sh, root, -1, root as int));
    assert(bal_ok(o, sh.bh, g as int));
    assert(bal_ok(o, sh.bh, p as int));
    assert(bal_ok(o, sh.bh, u as int));
    assert forall|i: int| live(n.len(), -1, i) implies #[trigger] bal_ok(n, nbh, i) by {
        assert(bal_ok(o, sh.bh, i));
        assert(node_ok(o, sh, root, -1, i));
    }
    assert forall|i: int| live(n.len(), -1, i) && i != g implies #[trigger] rr_ok(n, i) by {
        assert(node_ok(o, sh, root, -1, i));
        if i != z {
            assert(rr_ok(o, i));
        }
    }
}

/// The arena after the root has been colored black.
pub open spec fn root_blackened<T>(o: Seq<Node<T>>, root: usize) -> Seq<Node<T>> {
    o.update(root as int, with_color(o[root as int], BLACK))
}

/// The black heights after the root has been colored black.
pub open spec fn root_blackened_bh<T>(o: Seq<Node<T>>, bh: Seq<nat>, root: usize) -> Seq<nat> {
    if o[root as int].color == RED {
        bh.update(root as int, bh[root as int] + 1)
    } else {
        bh
    }
}

/// Coloring the root black settles the repair if `z` is the root, and leaves
/// it pending at `z` otherwise.
pub(crate) proof fn lemma_blacken_root<T>(o: Seq<Node<T>>, root: usize, sh: Shape, z: usize)
    requires
        tree_ok(o, root, sh, -1),
        z < o.len(),
        insert_pending(o, root, sh.bh, z),
    ensures
        same_links(o, root_blackened(o, root)),
        insert_pending(root_blackened(o, root), root, root_blackened_bh(o, sh.bh, root), z) || z == root,
        z == root ==> colored(root_blackened(o, root), root, root_blackened_bh(o, sh.bh, root)),
        black(root_blackened(o, root), root),
        climbed_out(o, z) ==> climbed_out(root_blackened(o, root), z),
{
    let n = root_blackened(o, root);
    let nbh = root_blackened_bh(o, sh.bh, root);
    assert(node_ok(o, sh, root, -1, root as int));
    assert(node_ok(o, sh, root, -1, z as int));
    assert forall|i: int| live(n.len(), -1, i) implies #[trigger] bal_ok(n, nbh, i) by {
        assert(bal_ok(o, sh.bh, i));
        assert(node_ok(o, sh, root, -1, i));
    }
    assert forall|i: int| live(n.len(), -1, i) && i != z implies #[trigger] rr_ok(n, i) by {
        assert(rr_ok(o, i));
        assert(node_ok(o, sh, root, -1, i));
    }
    if z != root {
        let p = o[z as int].parent;
        assert(node_ok(o, sh, root, -1, p as int));
        let g = o[p as int].parent;
        if g != EMPTY {
            assert(node_ok(o, sh, root, -1, g as int));
        }
    }
}

/// The rotation of the inner case keeps the tree balanced and moves the
/// red-red conflict from `z` to its former parent `p`, which is now its child
/// on the outer side.
pub(crate) proof fn lemma_inner_rotation<T>(
    o: Seq<Node<T>>,
    root: usize,
    sh: Shape,
    n: Seq<Node<T>>,
    nroot: usize,
    g: usize,
    p: usize,
    z: usize,
    dir: bool,
)
    requires
        tree_ok(o, root, sh, -1),
        z < o.len(),
        insert_pending(o, root, sh.bh, z),
        black(o, root),
        p == o[z as int].parent,
        p != EMPTY,
        o[p as int].color == RED,
        g == o[p as int].parent,
        g != EMPTY,
        z == kid(o[p as int], !dir),
        p == kid(o[g as int], dir),
        rotated(o, n, root, nroot, p, dir),
    ensures
        insert_pending(n, nroot, sh.bh, p),
        black(n, nroot),
        n[p as int].parent == z,
        n[p as int].color == RED,
        n[z as int].parent == g,
        p == kid(n[z as int], dir),
        z == kid(n[g as int], dir),
        kid(n[g as int], !dir) == kid(o[g as int], !dir),
        black(n, kid(n[g as int], !dir)) == black(o, kid(o[g as int], !dir)),
{
    let bh = sh.bh;
    assert(node_ok(o, sh, root, -1, z as int));
    assert(node_ok(o, sh, root, -1, p as int));
    assert(node_ok(o, sh, root, -1, g as int));
    assert(node_ok(o, sh, root, -1, root as int));
    let bm = kid(o[z as int], dir);
    let u = kid(o[g as int], !dir);
    if bm != EMPTY {
        assert(node_ok(o, sh, root, -1, bm as int));
        assert(rr_ok(o, bm as int));
    }
    if u != EMPTY {
        assert(node_ok(o, sh, root, -1, u as int));
    }
    lemma_rotated_same_vals(o, n, root, nroot, p, dir);
    assert(bal_ok(o, bh, z as int));
    assert(bal_ok(o, bh, p as int));
    assert(bal_ok(o, bh, g as int));
    assert(rr_ok(o, p as int));
    assert forall|i: int| live(n.len(), -1, i) implies #[trigger] bal_ok(n, bh, i) by {
        assert(bal_ok(o, bh, i));
        assert(node_ok(o, sh, root, -1, i));
    }
    assert forall|i: int| live(n.len(), -1, i) && i != p implies #[trigger] rr_ok(n, i) by {
        assert(node_ok(o, sh, root, -1, i));
        if i != z {
            assert(rr_ok(o, i));
        }
    }
}

/// The arena after the final recoloring: `g` red, `top` black.
pub open spec fn outer_fixed<T>(n: Seq<Node<T>>, g: usize, top: usize) -> Seq<Node<T>> {
    n.update(g as int, with_color(n[g as int], RED)).update(top as int, with_color(n[top as int], BLACK))
}

/// The black heights after the final recoloring.
pub open spec fn outer_fixed_bh(bh: Seq<nat>, g: usize, top: usize) -> Seq<nat> {
    bh.update(g as int, (bh[g as int] - 1) as nat).update(top as int, bh[top as int] + 1)
}

/// The arena and the root after the rotation step at the red node `z` under
/// the red parent `p` under `g`. Where `z` is an inner grandchild, `p` is
/// rotated towards `g`'s other side first. Then `g` is rotated away from the
/// side of `p`, `g` turns red and the node that rose to its place black.
pub open spec fn adjusted<T>(o: Seq<Node<T>>, root: usize, g: usize, p: usize, z: usize) -> (
    Seq<Node<T>>,
    usize,
) {
    let z_left = o[p as int].left == z;
    let inner = if z_left {
        o[g as int].right == p
    } else {
        o[g as int].left == p
    };
    let m = if inner {
        rotation(o, p, !z_left)
    } else {
        o
    };
    let mroot = if inner {
        rotation_root(o, root, p, !z_left)
    } else {
        root
    };
    let n = rotation(m, g, inner == z_left);
    (outer_fixed(n, g, n[g as int].parent), rotation_root(m, mroot, g, inner == z_left))
}

/// In the outer case, rotating the grandparent `g` away from the side of the
/// red parent `p` and recoloring `g` red and `p` black gives a red-black
/// coloring.
#[verifier::rlimit(60)]
pub(crate) proof fn lemma_outer_fix<T>(
    o: Seq<Node<T>>,
    root: usize,
    sh: Shape,
    n: Seq<Node<T>>,
    nroot: usize,
    g: usize,
    p: usize,
    z: usize,
    side: bool,
)
    requires
        tree_ok(o, root, sh, -1),
        z < o.len(),
        insert_pending(o, root, sh.bh, z),
        black(o, root),
        p == o[z as int].parent,
        p != EMPTY,
        o[p as int].color == RED,
        g == o[p as int].parent,
        g != EMPTY,
        z == kid(o[p as int], side),
        p == kid(o[g as int], side),
        black(o, kid(o[g as int], !side)),
        rotated(o, n, root, nroot, g, !side),
    ensures
        n[g as int].parent == p,
        same_links(n, outer_fixed(n, g, p)),
        colored(outer_fixed(n, g, p), nroot, outer_fixed_bh(sh.bh, g, p)),
{
    let bh = sh.bh;
    let f = outer_fixed(n, g, p);
    let fbh = outer_fixed_bh(bh, g, p);
    assert(node_ok(o, sh, root, -1, z as int));
    assert(node_ok(o, sh, root, -1, p as int));
    assert(node_ok(o, sh, root, -1, g as int));
    assert(node_ok(o, sh, root, -1, root as int));
    let bm = kid(o[p as int], !side);
    let u = kid(o[g as int], !side);
    let gg = o[g as int].parent;
    if bm != EMPTY {
        assert(node_ok(o, sh, root, -1, bm as int));
        assert(rr_ok(o, bm as int));
    }
    if u != EMPTY {
        assert(node_ok(o, sh, root, -1, u as int));
    }
    if gg != EMPTY {
        assert(node_ok(o, sh, root, -1, gg as int));
    }
    lemma_rotated_same_vals(o, n, root, nroot, g, !side);
    assert(bal_ok(o, bh, z as int));
    assert(bal_ok(o, bh, p as int));
    assert(bal_ok(o, bh, g as int));
    assert(rr_ok(o, p as int));
    assert forall|i: int| live(f.len(), -1, i) implies #[trigger] bal_ok(f, fbh, i) by {
        assert(bal_ok(o, bh, i));
        assert(node_ok(o, sh, root, -1, i));
    }
    assert forall|i: int| live(f.len(), -1, i) implies #[trigger] rr_ok(f, i) by {
        assert(node_ok(o, sh, root, -1, i));
        if i != z {
            assert(rr_ok(o, i));
        }
    }
}

impl<T: PartialOrd> BTree<T> {
    /// Resolves a red node `child_idx` under a red parent whose sibling is
    /// black. Where the child is an inner grandchild, the parent is rotated
    /// first so that the path from the grandparent is straight. Then the
    /// grandparent is rotated away from the parent's side; it turns red and
    /// its new parent black.
    pub(crate) fn adjust_subtrees(b: &mut BTree<T>, g_par_idx: usize, parent_idx: usize, child_idx: usize)
        requires
            old(b).linked(),
            child_idx < old(b).nodes@.len(),
            insert_pending(old(b).nodes@, old(b).root_idx, old(b).shape@.bh, child_idx),
            black(old(b).nodes@, old(b).root_idx),
            parent_idx == old(b).nodes@[child_idx as int].parent,
            parent_idx != EMPTY,
            old(b).nodes@[parent_idx as int].color == RED,
            g_par_idx == old(b).nodes@[parent_idx as int].parent,
            g_par_idx != EMPTY,
            black(
                old(b).nodes@,
                kid(old(b).nodes@[g_par_idx as int], old(b).nodes@[g_par_idx as int].right == parent_idx),
            ),
        ensures
            final(b).linked(),
            final(b).balanced(),
            same_vals(old(b).nodes@, final(b).nodes@),
            final(b).shape@.order == old(b).shape@.order,
            (final(b).nodes@, final(b).root_idx) == adjusted(
                old(b).nodes@,
                old(b).root_idx,
                g_par_idx,
                parent_idx,
                child_idx,
            ),
    {
        let ghost o = b.nodes@;
        let ghost sh0 = b.shape@;
        let ghost root0 = b.root_idx;
        proof {
            assert(node_ok(o, sh0, root0, -1, child_idx as int));
            assert(node_ok(o, sh0, root0, -1, parent_idx as int));
            assert(node_ok(o, sh0, root0, -1, g_par_idx as int));
        }
        // The state before the last rotation, with the roles that the nodes have there.
        let ghost mut m = o;
        let ghost mut msh = sh0;
        let ghost mut mroot = root0;
        let ghost mut mp = parent_idx;
        let ghost mut mz = child_idx;
        let ghost side;
        if b.nodes[parent_idx].left == child_idx {
            if b.nodes[g_par_idx].right == parent_idx {
                // left of parent, right of grandparent
                Self::rotate_right(b, parent_idx);
                proof {
                    lemma_inner_rotation(
                        o,
                        root0,
                        sh0,
                        b.nodes@,
                        b.root_idx,
                        g_par_idx,
                        parent_idx,
                        child_idx,
                        false,
                    );
                    lemma_rotated_same_vals(o, b.nodes@, root0, b.root_idx, parent_idx, false);
                    m = b.nodes@;
                    msh = b.shape@;
                    mroot = b.root_idx;
                    mp = child_idx;
                    mz = parent_idx;
                    side = false;
                }
                // now right of parent and right of grandparent
                Self::rotate_left(b, g_par_idx);
            } else {
                proof {
                    side = true;
                }
                Self::rotate_right(b, g_par_idx);
            }
        } else {
            if b.nodes[g_par_idx].left == parent_idx {
                // right of parent, left of grandparent
                Self::rotate_left(b, parent_idx);
                proof {
                    lemma_inner_rotation(
                        o,
                        root0,
                        sh0,
                        b.nodes@,
                        b.root_idx,
                        g_par_idx,
                        parent_idx,
                        child_idx,
                        true,
                    );
                    lemma_rotated_same_vals(o, b.nodes@, root0, b.root_idx, parent_idx, true);
                    m = b.nodes@;
                    msh = b.shape@;
                    mroot = b.root_idx;
                    mp = child_idx;
                    mz = parent_idx;
                    side = true;
                }
                // now left of parent and left of grandparent
                Self::rotate_right(b, g_par_idx);
            } else {
                proof {
                    side = false;
                }
                Self::rotate_left(b, g_par_idx);
            }
        }
        let ghost n = b.nodes@;
        let ghost nsh = b.shape@;
        proof {
            lemma_outer_fix(m, mroot, msh, n, b.root_idx, g_par_idx, mp, mz, side);
            assert(same_vals(o, m));
        }
        // the grandparent is now a sibling or a child of the node that rose
        b.nodes[g_par_idx].color = RED;
        let new_g_par_idx = b.nodes[g_par_idx].parent;
        b.nodes[new_g_par_idx].color = BLACK;
        proof {
            assert(b.nodes@ =~= outer_fixed(n, g_par_idx, mp));
            b.shape@ = Shape { bh: outer_fixed_bh(msh.bh, g_par_idx, mp), ..nsh };
            lemma_same_links_tree(n, b.nodes@, b.root_idx, nsh, b.shape@, -1);
            lemma_rotated_same_vals(m, n, mroot, b.root_idx, g_par_idx, !side);
        }
    }
}

impl<T: PartialOrd> BTree<T> {
    /// Climbs from the red node `new_idx` while its parent and that parent's
    /// sibling are both red, recoloring as it goes: parent and sibling turn
    /// black, the grandparent turns red and the climb goes on from there.
    /// Returns the node at which the climb ended.
    pub(crate) fn recolor(b: &mut BTree<T>, new_idx: usize) -> (r: usize)
        requires
            old(b).linked(),
            new_idx < old(b).nodes@.len(),
            insert_pending(old(b).nodes@, old(b).root_idx, old(b).shape@.bh, new_idx),
        ensures
            final(b).linked(),
            same_links(old(b).nodes@, final(b).nodes@),
            final(b).root_idx == old(b).root_idx,
            final(b).shape@.span == old(b).shape@.span,
            final(b).shape@.order == old(b).shape@.order,
            r < final(b).nodes@.len(),
            insert_pending(final(b).nodes@, final(b).root_idx, final(b).shape@.bh, r),
            climbed_out(final(b).nodes@, r),
            (final(b).nodes@, r) == climb(old(b).nodes@, new_idx, old(b).nodes@.len()),
    {
        let ghost o = b.nodes@;
        let ghost sh0 = b.shape@;
        let ghost target = climb(o, new_idx, o.len());
        let ghost mut fuel = o.len();
        let mut new_idx = new_idx;
        let mut parent_idx = b.nodes[new_idx].parent;
        proof {
            assert(node_ok(o, sh0, b.root_idx, -1, new_idx as int));
            if parent_idx != EMPTY {
                assert(node_ok(o, sh0, b.root_idx, -1, parent_idx as int));
            }
        }
        while parent_idx != EMPTY && b.nodes[parent_idx].parent != EMPTY && b.nodes[parent_idx].color
            == RED
            invariant
                b.linked(),
                same_links(o, b.nodes@),
                b.root_idx == old(b).root_idx,
                b.shape@.span == sh0.span,
                b.shape@.order == sh0.order,
                new_idx < b.nodes@.len(),
                parent_idx == b.nodes@[new_idx as int].parent,
                parent_idx == EMPTY || parent_idx < b.nodes@.len(),
                insert_pending(b.nodes@, b.root_idx, b.shape@.bh, new_idx),
                climb(b.nodes@, new_idx, fuel) == target,
                fuel > b.nodes@.len() - (b.shape@.span[new_idx as int].hi - b.shape@.span[new_idx as int].lo),
            ensures
                climbed_out(b.nodes@, new_idx),
            decreases b.nodes@.len() - (b.shape@.span[new_idx as int].hi - b.shape@.span[new_idx as int].lo),
        {
            let ghost cur = b.nodes@;
            let ghost csh = b.shape@;
            let g_par_idx = b.nodes[parent_idx].parent;
            proof {
                assert(node_ok(cur, csh, b.root_idx, -1, new_idx as int));
                assert(node_ok(cur, csh, b.root_idx, -1, parent_idx as int));
                assert(node_ok(cur, csh, b.root_idx, -1, g_par_idx as int));
            }
            let uncle_idx = btree_sib(&b.nodes, parent_idx);
            if is_black(&b.nodes, uncle_idx) {
                break ;
            }
            b.nodes[uncle_idx].color = BLACK;
            b.nodes[g_par_idx].color = RED;
            b.nodes[parent_idx].color = BLACK;
            proof {
                assert(b.nodes@ =~= recolored(cur, new_idx));
                lemma_recolor_step(cur, b.root_idx, csh, new_idx);
                b.shape@ = Shape { bh: recolored_bh(cur, csh.bh, new_idx), ..csh };
                lemma_same_links_tree(cur, b.nodes@, b.root_idx, csh, b.shape@, -1);
            }
            new_idx = g_par_idx;
            parent_idx = b.nodes[new_idx].parent;
            proof {
                assert(node_ok(b.nodes@, b.shape@, b.root_idx, -1, new_idx as int));
                fuel = (fuel - 1) as nat;
            }
        }
        new_idx
    }
}

/// The arena and the root after the coloring has been repaired for the new
/// red node `z`: the climb from `z` recolors upwards, the root is colored
/// black, and where the node at which the climb ended is then still red
/// under a red parent, the rotation step is taken there.
pub open spec fn rebalanced<T>(o: Seq<Node<T>>, root: usize, z: usize) -> (Seq<Node<T>>, usize) {
    let (m0, z1) = climb(o, z, o.len());
    let m = root_blackened(m0, root);
    let p = m[z1 as int].parent;
    if black(m, z1) || black(m, p) {
        (m, root)
    } else {
        adjusted(m, root, m[p as int].parent, p, z1)
    }
}

/// The arena and the root after `key` has been inserted: a red leaf with
/// `key` is appended to the arena as a child of the node that the search for
/// its place ends at, as the root if the arena is empty, and the coloring is
/// repaired for it.
pub open spec fn inserted<T: PartialOrd>(o: Seq<Node<T>>, root: usize, key: T) -> (Seq<Node<T>>, usize) {
    if o.len() == 0 {
        rebalanced(seq![Node { val: key, color: RED, parent: EMPTY, left: EMPTY, right: EMPTY }], 0, 0)
    } else {
        let q = descend(o, root, key, o.len());
        rebalanced(leaf_nodes(o, q, lt(key, o[q as int].val), key), root, o.len() as usize)
    }
}

impl<T: PartialOrd> BTree<T> {
    /// Repairs the coloring after the red node `new_idx` has been added:
    /// recolors upwards, colors the root black, and where a red node is then
    /// still left under a red parent, rotates.
    pub(crate) fn balance_insert(b: &mut BTree<T>, new_idx: usize)
        requires
            old(b).linked(),
            new_idx < old(b).nodes@.len(),
            insert_pending(old(b).nodes@, old(b).root_idx, old(b).shape@.bh, new_idx),
        ensures
            final(b).linked(),
            final(b).balanced(),
            same_vals(old(b).nodes@, final(b).nodes@),
            final(b).shape@.order == old(b).shape@.order,
            (final(b).nodes@, final(b).root_idx) == rebalanced(old(b).nodes@, old(b).root_idx, new_idx),
    {
        let ghost o = b.nodes@;
        let new_idx = Self::recolor(b, new_idx);
        let ghost m = b.nodes@;
        let ghost msh = b.shape@;
        proof {
            assert(node_ok(m, msh, b.root_idx, -1, b.root_idx as int));
            assert(node_ok(m, msh, b.root_idx, -1, new_idx as int));
        }
        // make sure the first node inserted is black
        b.nodes[b.root_idx].color = BLACK;
        proof {
            assert(b.nodes@ =~= root_blackened(m, b.root_idx));
            lemma_blacken_root(m, b.root_idx, msh, new_idx);
            b.shape@ = Shape { bh: root_blackened_bh(m, msh.bh, b.root_idx), ..msh };
            lemma_same_links_tree(m, b.nodes@, b.root_idx, msh, b.shape@, -1);
            assert(same_vals(o, b.nodes@));
            assert(node_ok(b.nodes@, b.shape@, b.root_idx, -1, new_idx as int));
        }
        // if black, no need to adjust the tree
        if is_black(&b.nodes, new_idx) {
            return ;
        }
        let parent_idx = b.nodes[new_idx].parent;
        // if the parent is black, there is no red-red path
        if is_black(&b.nodes, parent_idx) {
            proof {
                assert forall|i: int| live(b.nodes@.len(), -1, i) implies #[trigger] rr_ok(b.nodes@, i) by {}
            }
            return ;
        }
        proof {
            assert(node_ok(b.nodes@, b.shape@, b.root_idx, -1, parent_idx as int));
        }
        // a red parent is not the root, so there is a grandparent; and the
        // climb has ended under a red parent only because the uncle is black
        let g_par_idx = b.nodes[parent_idx].parent;
        proof {
            assert(node_ok(b.nodes@, b.shape@, b.root_idx, -1, g_par_idx as int));
        }
        Self::adjust_subtrees(b, g_par_idx, parent_idx, new_idx);
        proof {
            assert(same_vals(o, b.nodes@));
        }
    }

    /// Inserts `key`: a red leaf with `key` is appended to the arena below
    /// the node that the search for its place ends at, and the coloring is
    /// repaired. Among equal values the new one comes last in in-order. The
    /// arena must have room for one more slot.
    pub fn insert(&mut self, key: T)
        requires
            total_order::<T>(),
            old(self).wf(),
            old(self)@.len() < usize::MAX,
        ensures
            final(self).wf(),
            all_ok(final(self).arena(), final(self).root()),
            seq_sorted(final(self).inorder()),
            final(self)@ == old(self)@.insert(key),
            final(self)@.len() == old(self)@.len() + 1,
            (final(self).arena(), final(self).root()) == inserted(old(self).arena(), old(self).root(), key),
            final(self).arena().len() == old(self).arena().len() + 1,
            final(self).arena()[old(self).arena().len() as int].val == key,
            forall|i: int|
                0 <= i < old(self).arena().len() ==> (#[trigger] final(self).arena()[i]).val == old(
                    self,
                ).arena()[i].val,
            (exists|at: int|
                {
                    &&& 0 <= at <= old(self).inorder().len()
                    &&& final(self).inorder() == old(self).inorder().insert(at, key)
                    &&& forall|p: int|
                        at <= p < old(self).inorder().len() ==> lt(key, #[trigger] old(self).inorder()[p])
                }),
    {
        let ghost o = self.nodes@;
        let ghost sh = self.shape@;
        let ghost root = self.root_idx;
        let ghost gkey = key;
        let ghost mut q: usize = 0;
        let ghost mut go_left = false;
        let ghost mut at: int = 0;
        proof {
            self.unfold();
            vstd::seq_lib::to_multiset_len(inorder_of(o, sh.order));
        }
        // new elements are appended to the end of the arena
        let new_idx = self.nodes.len();
        let mut n = Node { val: key, color: RED, parent: EMPTY, left: EMPTY, right: EMPTY };
        if new_idx > 0 {
            // the parent of where the value should go
            let idx = Self::find_available_parent(self, &n.val);
            n.parent = idx;
            let left = n.val.lt(&self.nodes[idx].val);
            proof {
                q = idx;
                go_left = left;
                at = leaf_at(sh, q, go_left);
                assert(node_ok(o, sh, root, -1, idx as int));
            }
            if left {
                self.nodes[idx].left = new_idx;
            } else {
                self.nodes[idx].right = new_idx;
            }
        } else {
            self.root_idx = new_idx;
        }
        self.nodes.push(n);
        proof {
            if new_idx > 0 {
                assert(self.nodes@ =~= leaf_nodes(o, q, go_left, gkey));
                self.shape@ = leaf_shape(sh, q, go_left);
                lemma_leaf_tree(o, root, sh, q, go_left, gkey);
                lemma_leaf_sorted(o, root, sh, q, go_left, gkey);
                lemma_leaf_pending(o, root, sh, q, go_left, gkey);
            } else {
                self.shape@ = Shape {
                    span: seq![Span { lo: 0, pos: 0, hi: 1 }],
                    order: seq![0int],
                    bh: seq![0nat],
                };
                assert(node_ok(self.nodes@, self.shape@, self.root_idx, -1, 0));
                assert(slot_ok(self.nodes@.len(), self.shape@, -1, 0));
                assert(inorder_of(self.nodes@, self.shape@.order) =~= inorder_of(o, sh.order).insert(0, gkey));
                assert(bal_ok(self.nodes@, self.shape@.bh, 0));
                assert(self.nodes@ =~= seq![
                    Node { val: gkey, color: RED, parent: EMPTY, left: EMPTY, right: EMPTY },
                ]);
            }
        }
        let ghost m = self.nodes@;
        let ghost mroot = self.root_idx;
        let ghost msh = self.shape@;
        Self::balance_insert(self, new_idx);
        proof {
            assert forall|i: int| 0 <= i < o.len() implies (#[trigger] self.nodes@[i]).val == o[i].val by {
                assert(m[i].val == o[i].val);
            }
            lemma_same_vals_inorder(m, self.nodes@, mroot, msh, -1);
            vstd::seq_lib::to_multiset_insert(inorder_of(o, sh.order), at, gkey);
            vstd::seq_lib::to_multiset_len(inorder_of(self.nodes@, self.shape@.order));
            self.unfold();
            self.law_valid();
            self.law_inorder_sorted();
            assert(self.inorder() == old(self).inorder().insert(at, gkey));
            assert forall|p: int| at <= p < old(self).inorder().len() implies lt(
                gkey,
                #[trigger] old(self).inorder()[p],
            ) by {
                assert(lt(gkey, key_at(o, sh.order, p)));
            }
        }
    }
}

} // verus!
