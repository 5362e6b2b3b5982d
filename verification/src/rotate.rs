//! Structural primitives: re-pointing a parent at another child, re-linking
//! children to their parent, and the single rotation.
use crate::node::live;
use crate::node::node_ok;
use crate::node::same_vals;
use crate::node::slot_ok;
use crate::node::tree_ok;
use crate::node::Node;
use crate::node::Shape;
use crate::node::Span;
use crate::node::EMPTY;
use crate::tree::BTree;
use vstd::prelude::*;

verus! {

/// The left child of `nd` if `left`, else its right child.
pub open spec fn kid<T>(nd: Node<T>, left: bool) -> usize {
    if left {
        nd.left
    } else {
        nd.right
    }
}

/// `nd` with `c` in its left child slot if `left`, else in its right one.
pub open spec fn with_kid<T>(nd: Node<T>, left: bool, c: usize) -> Node<T> {
    if left {
        Node { left: c, ..nd }
    } else {
        Node { right: c, ..nd }
    }
}

/// The arena after the parent of `old_child` has been made to point at
/// `new_child` in the slot where it pointed at `old_child` (its right slot if
/// it pointed at `old_child` in neither).
pub open spec fn child_replaced<T>(s: Seq<Node<T>>, old_child: usize, new_child: usize) -> Seq<Node<T>> {
    let p = s[old_child as int].parent;
    if p == EMPTY {
        s
    } else {
        s.update(p as int, with_kid(s[p as int], s[p as int].left == old_child, new_child))
    }
}

/// The arena after the children of `idx` have been made to name `idx` as their parent.
pub open spec fn children_linked<T>(s: Seq<Node<T>>, idx: usize) -> Seq<Node<T>> {
    let l = s[idx as int].left;
    let s1 = if l == EMPTY {
        s
    } else {
        s.update(l as int, Node { parent: idx, ..s[l as int] })
    };
    let r = s1[idx as int].right;
    if r == EMPTY {
        s1
    } else {
        s1.update(r as int, Node { parent: idx, ..s1[r as int] })
    }
}

/// Links the parent of `old_child` with `new_child`. The parent link of
/// `old_child` itself is left as it is.
pub(crate) fn replace_child<T>(nodes: &mut Vec<Node<T>>, old_child: usize, new_child: usize)
    requires
        old_child < old(nodes)@.len(),
        old(nodes)@[old_child as int].parent == EMPTY || old(nodes)@[old_child as int].parent < old(
            nodes,
        )@.len(),
    ensures
        final(nodes)@ == child_replaced(old(nodes)@, old_child, new_child),
{
    let p = nodes[old_child].parent;
    if p != EMPTY {
        if nodes[p].left == old_child {
            nodes[p].left = new_child;
        } else {
            nodes[p].right = new_child;
        }
    }
}

/// Makes the children of `idx` name `idx` as their parent.
pub(crate) fn link_with_children<T>(nodes: &mut Vec<Node<T>>, idx: usize)
    requires
        idx < old(nodes)@.len(),
        old(nodes)@[idx as int].left == EMPTY || old(nodes)@[idx as int].left < old(nodes)@.len(),
        old(nodes)@[idx as int].right == EMPTY || old(nodes)@[idx as int].right < old(nodes)@.len(),
    ensures
        final(nodes)@ == children_linked(old(nodes)@, idx),
{
    let left_idx = nodes[idx].left;
    if left_idx != EMPTY {
        nodes[left_idx].parent = idx;
    }
    let right_idx = nodes[idx].right;
    if right_idx != EMPTY {
        nodes[right_idx].parent = idx;
    }
}

/// The arena after a rotation at `x`. With `to_left`, the right child `y` of
/// `x` takes the place of `x` under the parent of `x`, `x` becomes the left
/// child of `y`, and the former left child of `y` becomes the right child of
/// `x`; without it, the mirror image.
pub open spec fn rotation<T>(o: Seq<Node<T>>, x: usize, to_left: bool) -> Seq<Node<T>> {
    let y = kid(o[x as int], !to_left);
    let bm = kid(o[y as int], to_left);
    let p = o[x as int].parent;
    let s1 = o.update(x as int, with_kid(Node { parent: y, ..o[x as int] }, !to_left, bm)).update(
        y as int,
        with_kid(Node { parent: p, ..o[y as int] }, to_left, x),
    );
    let s2 = if bm == EMPTY {
        s1
    } else {
        s1.update(bm as int, Node { parent: x, ..o[bm as int] })
    };
    if p == EMPTY {
        s2
    } else {
        s2.update(p as int, with_kid(o[p as int], o[p as int].left == x, y))
    }
}

/// The root after a rotation at `x`: the child that rose, if `x` was the root.
pub open spec fn rotation_root<T>(o: Seq<Node<T>>, root: usize, x: usize, to_left: bool) -> usize {
    if root == x {
        kid(o[x as int], !to_left)
    } else {
        root
    }
}

/// What a rotation at `x` does to the links. With `to_left`, the right child
/// `y` of `x` takes the place of `x`, `x` becomes the left child of `y`, and
/// the former left child of `y` becomes the right child of `x`; without it,
/// the mirror image. Values and colors stay in their slots.
pub open spec fn rotated<T>(
    o: Seq<Node<T>>,
    n: Seq<Node<T>>,
    oroot: usize,
    nroot: usize,
    x: usize,
    to_left: bool,
) -> bool {
    let y = kid(o[x as int], !to_left);
    let bm = kid(o[y as int], to_left);
    let p = o[x as int].parent;
    &&& n.len() == o.len()
    &&& forall|i: int|
        #![trigger n[i]]
        0 <= i < o.len() && i != x && i != y && i != bm && i != p ==> n[i] == o[i]
    &&& n[x as int] == with_kid(Node { parent: y, ..o[x as int] }, !to_left, bm)
    &&& n[y as int] == with_kid(Node { parent: p, ..o[y as int] }, to_left, x)
    &&& bm != EMPTY ==> n[bm as int] == Node { parent: x, ..o[bm as int] }
    &&& p != EMPTY ==> n[p as int] == with_kid(o[p as int], o[p as int].left == x, y)
    &&& nroot == if oroot == x {
        y
    } else {
        oroot
    }
}

/// The spans after a rotation at `x`: only those of `x` and of the child that
/// rises change.
pub open spec fn rotated_shape<T>(o: Seq<Node<T>>, sh: Shape, x: usize, to_left: bool) -> Shape {
    let y = kid(o[x as int], !to_left);
    let sx = sh.span[x as int];
    let sy = sh.span[y as int];
    let nsx = if to_left {
        Span { lo: sx.lo, pos: sx.pos, hi: sy.pos }
    } else {
        Span { lo: sy.pos + 1, pos: sx.pos, hi: sx.hi }
    };
    let nsy = Span { lo: sx.lo, pos: sy.pos, hi: sx.hi };
    Shape { span: sh.span.update(x as int, nsx).update(y as int, nsy), order: sh.order, bh: sh.bh }
}

/// After a rotation the links and the span of slot `i` agree with its neighbors.
proof fn lemma_rotate_node<T>(
    o: Seq<Node<T>>,
    oroot: usize,
    osh: Shape,
    n: Seq<Node<T>>,
    nroot: usize,
    x: usize,
    to_left: bool,
    i: int,
)
    requires
        tree_ok(o, oroot, osh, -1),
        x < o.len(),
        kid(o[x as int], !to_left) != EMPTY,
        rotated(o, n, oroot, nroot, x, to_left),
        live(o.len(), -1, i),
    ensures
        node_ok(n, rotated_shape(o, osh, x, to_left), nroot, -1, i),
{
    let nsh = rotated_shape(o, osh, x, to_left);
    let y = kid(o[x as int], !to_left);
    assert(node_ok(o, osh, oroot, -1, x as int));
    assert(node_ok(o, osh, oroot, -1, y as int));
    let bm = kid(o[y as int], to_left);
    let p = o[x as int].parent;
    if bm != EMPTY {
        assert(node_ok(o, osh, oroot, -1, bm as int));
    }
    if p != EMPTY {
        assert(node_ok(o, osh, oroot, -1, p as int));
    }
    assert(node_ok(o, osh, oroot, -1, i));
    let l = o[i].left;
    let r = o[i].right;
    let q = o[i].parent;
    if l != EMPTY {
        assert(node_ok(o, osh, oroot, -1, l as int));
    }
    if r != EMPTY {
        assert(node_ok(o, osh, oroot, -1, r as int));
    }
    if q != EMPTY {
        assert(node_ok(o, osh, oroot, -1, q as int));
    }
}

/// A rotation turns one tree into another over the same in-order positions.
pub(crate) proof fn lemma_rotate<T>(
    o: Seq<Node<T>>,
    oroot: usize,
    osh: Shape,
    n: Seq<Node<T>>,
    nroot: usize,
    x: usize,
    to_left: bool,
)
    requires
        tree_ok(o, oroot, osh, -1),
        x < o.len(),
        kid(o[x as int], !to_left) != EMPTY,
        rotated(o, n, oroot, nroot, x, to_left),
    ensures
        tree_ok(n, nroot, rotated_shape(o, osh, x, to_left), -1),
{
    let nsh = rotated_shape(o, osh, x, to_left);
    let y = kid(o[x as int], !to_left);
    assert(node_ok(o, osh, oroot, -1, x as int));
    assert(node_ok(o, osh, oroot, -1, y as int));
    assert(node_ok(o, osh, oroot, -1, oroot as int));
    assert forall|i: int| live(n.len(), -1, i) implies #[trigger] node_ok(n, nsh, nroot, -1, i) by {
        lemma_rotate_node(o, oroot, osh, n, nroot, x, to_left, i);
    }
    assert forall|q: int| 0 <= q < n.len() implies #[trigger] slot_ok(n.len(), nsh, -1, q) by {
        assert(slot_ok(o.len(), osh, -1, q));
    }
}

/// A rotation leaves every value in its slot, and every color too.
pub(crate) proof fn lemma_rotated_same_vals<T>(
    o: Seq<Node<T>>,
    n: Seq<Node<T>>,
    oroot: usize,
    nroot: usize,
    x: usize,
    to_left: bool,
)
    requires
        o.len() <= EMPTY,
        x < o.len(),
        kid(o[x as int], !to_left) < o.len(),
        rotated(o, n, oroot, nroot, x, to_left),
    ensures
        same_vals(o, n),
        forall|i: int| #![trigger n[i]] 0 <= i < o.len() ==> n[i].color == o[i].color,
{
}

impl<T: PartialOrd> BTree<T> {
    /// Rotates at `x`, to the left if `to_left` and to the right otherwise. The
    /// child of `x` on the other side must exist; it takes the place of `x`.
    pub(crate) fn rotate(b: &mut BTree<T>, x: usize, to_left: bool)
        requires
            old(b).linked(),
            x < old(b).nodes@.len(),
            kid(old(b).nodes@[x as int], !to_left) != EMPTY,
        ensures
            final(b).linked(),
            final(b).nodes@ == rotation(old(b).nodes@, x, to_left),
            final(b).root_idx == rotation_root(old(b).nodes@, old(b).root_idx, x, to_left),
            rotated(old(b).nodes@, final(b).nodes@, old(b).root_idx, final(b).root_idx, x, to_left),
            final(b).shape@ == rotated_shape(old(b).nodes@, old(b).shape@, x, to_left),
    {
        let ghost o = b.nodes@;
        let ghost sh = b.shape@;
        let ghost oroot = b.root_idx;
        proof {
            assert(node_ok(o, sh, oroot, -1, x as int));
        }
        let y = if to_left {
            b.nodes[x].right
        } else {
            b.nodes[x].left
        };
        proof {
            assert(node_ok(o, sh, oroot, -1, y as int));
        }
        let bm = if to_left {
            b.nodes[y].left
        } else {
            b.nodes[y].right
        };
        let p = b.nodes[x].parent;
        proof {
            if bm != EMPTY {
                assert(node_ok(o, sh, oroot, -1, bm as int));
            }
            if p != EMPTY {
                assert(node_ok(o, sh, oroot, -1, p as int));
            }
        }
        if bm != EMPTY {
            b.nodes[bm].parent = x;
        }
        if to_left {
            b.nodes[x].right = bm;
        } else {
            b.nodes[x].left = bm;
        }
        replace_child(&mut b.nodes, x, y);
        b.nodes[y].parent = p;
        b.nodes[x].parent = y;
        if to_left {
            b.nodes[y].left = x;
        } else {
            b.nodes[y].right = x;
        }
        if x == b.root_idx {
            b.root_idx = y;
        }
        proof {
            assert(rotated(o, b.nodes@, oroot, b.root_idx, x, to_left));
            assert(b.nodes@ =~= rotation(o, x, to_left));
            lemma_rotate(o, oroot, sh, b.nodes@, b.root_idx, x, to_left);
            b.shape@ = rotated_shape(o, sh, x, to_left);
        }
    }

    /// The left rotation at `x`: its right child, which must exist, rises.
    pub(crate) fn rotate_left(b: &mut BTree<T>, x: usize)
        requires
            old(b).linked(),
            x < old(b).nodes@.len(),
            old(b).nodes@[x as int].right != EMPTY,
        ensures
            final(b).linked(),
            final(b).nodes@ == rotation(old(b).nodes@, x, true),
            final(b).root_idx == rotation_root(old(b).nodes@, old(b).root_idx, x, true),
            rotated(old(b).nodes@, final(b).nodes@, old(b).root_idx, final(b).root_idx, x, true),
            final(b).shape@ == rotated_shape(old(b).nodes@, old(b).shape@, x, true),
    {
        Self::rotate(b, x, true)
    }

    /// The right rotation at `x`: its left child, which must exist, rises.
    pub(crate) fn rotate_right(b: &mut BTree<T>, x: usize)
        requires
            old(b).linked(),
            x < old(b).nodes@.len(),
            old(b).nodes@[x as int].left != EMPTY,
        ensures
            final(b).linked(),
            final(b).nodes@ == rotation(old(b).nodes@, x, false),
            final(b).root_idx == rotation_root(old(b).nodes@, old(b).root_idx, x, false),
            rotated(old(b).nodes@, final(b).nodes@, old(b).root_idx, final(b).root_idx, x, false),
            final(b).shape@ == rotated_shape(old(b).nodes@, old(b).shape@, x, false),
    {
        Self::rotate(b, x, false)
    }
}

} // verus!
