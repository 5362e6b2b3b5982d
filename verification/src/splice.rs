//! What taking a node out of the tree does to the arena: a node with at most
//! one child is spliced out, a node takes over the place of another, and the
//! vacated last slot is dropped.
use crate::node::inorder_of;
use crate::node::live;
use crate::node::live_count;
use crate::node::node_ok;
use crate::node::slot_ok;
use crate::node::tree_ok;
use crate::node::Node;
use crate::node::Shape;
use crate::node::Span;
use crate::node::EMPTY;
use crate::rotate::child_replaced;
use crate::rotate::kid;
use vstd::prelude::*;

verus! {

/// The index `x` after slot `from` has been renamed to `to`.
pub open spec fn ren(x: usize, from: usize, to: usize) -> usize {
    if x == from {
        to
    } else {
        x
    }
}

/// The arena after `src` has been shifted up into the place of `dest`: `src`,
/// if there is one, gets the parent of `dest`, and that parent points at `src`
/// where it pointed at `dest`.
pub open spec fn shifted_up<T>(s: Seq<Node<T>>, src: usize, dest: usize) -> Seq<Node<T>> {
    let s1 = if src == EMPTY {
        s
    } else {
        s.update(src as int, Node { parent: s[dest as int].parent, ..s[src as int] })
    };
    child_replaced(s1, dest, src)
}

/// A span after the in-order position `a` has been taken out.
pub open spec fn dropped(s: Span, a: int) -> Span {
    Span {
        lo: if s.lo > a {
            s.lo - 1
        } else {
            s.lo
        },
        pos: if s.pos > a {
            s.pos - 1
        } else {
            s.pos
        },
        hi: if s.hi > a {
            s.hi - 1
        } else {
            s.hi
        },
    }
}

/// The shape after the node at in-order position `a` has been spliced out.
pub open spec fn dropped_shape(sh: Shape, a: int) -> Shape {
    Shape { span: Seq::new(sh.span.len(), |i: int| dropped(sh.span[i], a)), order: sh.order.remove(a), bh: sh.bh }
}

/// What splicing out `u` does to the links: the child `c` of `u`, if there
/// is one, gets the parent of `u`, that parent gets `c` in the place of `u`,
/// and no other slot changes.
pub open spec fn spliced<T>(o: Seq<Node<T>>, n: Seq<Node<T>>, u: usize, c: usize) -> bool {
    let up = o[u as int].parent;
    &&& n.len() == o.len()
    &&& forall|i: int| #![trigger n[i]] 0 <= i < o.len() && i != c && i != up ==> n[i] == o[i]
    &&& c != EMPTY ==> n[c as int] == Node { parent: up, ..o[c as int] }
    &&& up != EMPTY ==> n[up as int] == crate::rotate::with_kid(o[up as int], o[up as int].left == u, c)
}

/// Shifting the only child of `u` up splices `u` out.
pub(crate) proof fn lemma_shifted_up_spliced<T>(o: Seq<Node<T>>, root: usize, sh: Shape, u: usize, side: bool)
    requires
        tree_ok(o, root, sh, -1),
        u < o.len(),
    ensures
        spliced(o, shifted_up(o, kid(o[u as int], side), u), u, kid(o[u as int], side)),
{
    let c = kid(o[u as int], side);
    let up = o[u as int].parent;
    assert(node_ok(o, sh, root, -1, u as int));
    if c != EMPTY {
        assert(node_ok(o, sh, root, -1, c as int));
    }
    if up != EMPTY {
        assert(node_ok(o, sh, root, -1, up as int));
    }
}

proof fn lemma_splice_node<T>(
    o: Seq<Node<T>>,
    root: usize,
    sh: Shape,
    n: Seq<Node<T>>,
    u: usize,
    side: bool,
    i: int,
)
    requires
        tree_ok(o, root, sh, -1),
        u < o.len(),
        kid(o[u as int], !side) == EMPTY,
        spliced(o, n, u, kid(o[u as int], side)),
        live(o.len(), u as int, i),
    ensures
        node_ok(n, dropped_shape(sh, sh.span[u as int].pos), ren(root, u, kid(o[u as int], side)), u as int, i),
{
    let c = kid(o[u as int], side);
    let a = sh.span[u as int].pos;
    assert(node_ok(o, sh, root, -1, u as int));
    sh.order.remove_ensures(a);
    assert(node_ok(o, sh, root, -1, root as int));
    let up = o[u as int].parent;
    if up != EMPTY {
        assert(node_ok(o, sh, root, -1, up as int));
    }
    if c != EMPTY {
        assert(node_ok(o, sh, root, -1, c as int));
    }
    assert(node_ok(o, sh, root, -1, i));
    let l = o[i].left;
    let r = o[i].right;
    let p = o[i].parent;
    if l != EMPTY {
        assert(node_ok(o, sh, root, -1, l as int));
    }
    if r != EMPTY {
        assert(node_ok(o, sh, root, -1, r as int));
    }
    if p != EMPTY {
        assert(node_ok(o, sh, root, -1, p as int));
    }
}

/// Splicing out a node `u` that has no child on one side, by shifting its
/// other child up into its place, leaves a tree over the other slots.
pub(
    crate) proof fn lemma_splice_tree<T>(o: Seq<Node<T>>,
    root: usize,
    sh: Shape,
    n: Seq<Node<T>>,
    u: usize,
    side: bool,
)
    requires
        tree_ok(o, root, sh, -1),
        u < o.len(),
        kid(o[u as int], !side) == EMPTY,
        spliced(o, n, u, kid(o[u as int], side)),
    ensures
        tree_ok(n, ren(root, u, kid(o[u as int], side)), dropped_shape(sh, sh.span[u as int].pos), u as int),
{
    let c = kid(o[u as int], side);
    let a = sh.span[u as int].pos;
    let nsh = dropped_shape(sh, a);
    let nroot = ren(root, u, c);
    assert(node_ok(o, sh, root, -1, u as int));
    assert(node_ok(o, sh, root, -1, root as int));
    if c != EMPTY {
        assert(node_ok(o, sh, root, -1, c as int));
    }
    sh.order.remove_ensures(a);
    assert forall|i: int| live(n.len(), u as int, i) implies #[trigger] node_ok(n, nsh, nroot, u as int, i) by {
        lemma_splice_node(o, root, sh, n, u, side, i);
    }
    assert forall|p: int| 0 <= p < live_count(n.len(), u as int) implies #[trigger] slot_ok(
        n.len(),
        nsh,
        u as int,
        p,
    ) by {
        if p < a {
            assert(slot_ok(o.len(), sh, -1, p));
        } else {
            assert(slot_ok(o.len(), sh, -1, p + 1));
        }
    }
}

/// `nd` with every link to `from` turned into a link to `to`.
pub open spec fn renamed<T>(nd: Node<T>, from: usize, to: usize) -> Node<T> {
    Node {
        parent: ren(nd.parent, from, to),
        left: ren(nd.left, from, to),
        right: ren(nd.right, from, to),
        ..nd
    }
}

/// Slot `to` has taken over the place of slot `from`: it has the links that
/// `from` had, and every other slot that pointed at `from` points at `to`.
/// Nothing is said of slot `from` itself, nor of the value and color in `to`.
pub open spec fn took_over<T>(m: Seq<Node<T>>, n: Seq<Node<T>>, from: usize, to: usize) -> bool {
    &&& n.len() == m.len()
    &&& n[to as int].parent == m[from as int].parent
    &&& n[to as int].left == m[from as int].left
    &&& n[to as int].right == m[from as int].right
    &&& forall|i: int|
        #![trigger n[i]]
        0 <= i < m.len() && i != from && i != to ==> n[i] == renamed(m[i], from, to)
}

/// The shape after slot `to` has taken over the place of slot `from`.
pub open spec fn took_shape(sh: Shape, from: usize, to: usize) -> Shape {
    Shape {
        span: sh.span.update(to as int, sh.span[from as int]),
        order: sh.order.update(sh.span[from as int].pos, to as int),
        bh: sh.bh.update(to as int, sh.bh[from as int]),
    }
}

proof fn lemma_takeover_node<T>(
    m: Seq<Node<T>>,
    root: usize,
    sh: Shape,
    n: Seq<Node<T>>,
    from: usize,
    to: usize,
    i: int,
)
    requires
        tree_ok(m, root, sh, to as int),
        to < m.len(),
        live(m.len(), to as int, from as int),
        took_over(m, n, from, to),
        live(m.len(), from as int, i),
    ensures
        node_ok(n, took_shape(sh, from, to), ren(root, from, to), from as int, i),
{
    assert(node_ok(m, sh, root, to as int, from as int));
    assert(node_ok(m, sh, root, to as int, root as int));
    let j = if i == to {
        from as int
    } else {
        i
    };
    assert(node_ok(m, sh, root, to as int, j));
    let l = m[j].left;
    let r = m[j].right;
    let p = m[j].parent;
    if l != EMPTY {
        assert(node_ok(m, sh, root, to as int, l as int));
    }
    if r != EMPTY {
        assert(node_ok(m, sh, root, to as int, r as int));
    }
    if p != EMPTY {
        assert(node_ok(m, sh, root, to as int, p as int));
    }
}

/// Where the vacant slot `to` takes over the place of `from`, the tree is the
/// same tree with `from` vacant instead.
pub(crate) proof fn lemma_takeover_tree<T>(
    m: Seq<Node<T>>,
    root: usize,
    sh: Shape,
    n: Seq<Node<T>>,
    from: usize,
    to: usize,
)
    requires
        tree_ok(m, root, sh, to as int),
        to < m.len(),
        live(m.len(), to as int, from as int),
        took_over(m, n, from, to),
    ensures
        tree_ok(n, ren(root, from, to), took_shape(sh, from, to), from as int),
{
    let nsh = took_shape(sh, from, to);
    let nroot = ren(root, from, to);
    assert(node_ok(m, sh, root, to as int, from as int));
    assert(node_ok(m, sh, root, to as int, root as int));
    assert forall|i: int| live(n.len(), from as int, i) implies #[trigger] node_ok(
        n,
        nsh,
        nroot,
        from as int,
        i,
    ) by {
        lemma_takeover_node(m, root, sh, n, from, to, i);
    }
    assert forall|p: int| 0 <= p < live_count(n.len(), from as int) implies #[trigger] slot_ok(
        n.len(),
        nsh,
        from as int,
        p,
    ) by {
        assert(slot_ok(m.len(), sh, to as int, p));
    }
}

/// The shape without the entries of the last slot.
pub open spec fn short_shape(sh: Shape) -> Shape {
    Shape { span: sh.span.drop_last(), order: sh.order, bh: sh.bh.drop_last() }
}

/// Where the last slot is vacant, the arena without it is a tree.
pub(crate) proof fn lemma_drop_last_tree<T>(n: Seq<Node<T>>, root: usize, sh: Shape)
    requires
        n.len() > 0,
        tree_ok(n, root, sh, n.len() - 1),
    ensures
        tree_ok(n.drop_last(), root, short_shape(sh), -1),
{
    let d = n.drop_last();
    let dsh = short_shape(sh);
    let last = n.len() - 1;
    assert forall|i: int| live(d.len(), -1, i) implies #[trigger] node_ok(d, dsh, root, -1, i) by {
        assert(node_ok(n, sh, root, last, i));
    }
    assert forall|p: int| 0 <= p < d.len() implies #[trigger] slot_ok(d.len(), dsh, -1, p) by {
        assert(slot_ok(n.len(), sh, last, p));
    }
}

/// The in-order values after a splice at in-order position `a`: the value at
/// `a` is gone.
pub(crate) proof fn lemma_splice_inorder<T>(o: Seq<Node<T>>, root: usize, sh: Shape, n: Seq<Node<T>>, u: usize)
    requires
        tree_ok(o, root, sh, -1),
        u < o.len(),
        n.len() == o.len(),
        forall|i: int| #![trigger n[i]] 0 <= i < o.len() && i != u ==> n[i].val == o[i].val,
    ensures
        inorder_of(n, sh.order.remove(sh.span[u as int].pos)) == inorder_of(o, sh.order).remove(
            sh.span[u as int].pos,
        ),
{
    let a = sh.span[u as int].pos;
    assert(node_ok(o, sh, root, -1, u as int));
    sh.order.remove_ensures(a);
    let lhs = inorder_of(n, sh.order.remove(a));
    let rhs = inorder_of(o, sh.order).remove(a);
    inorder_of(o, sh.order).remove_ensures(a);
    assert forall|p: int| 0 <= p < lhs.len() implies lhs[p] == rhs[p] by {
        if p < a {
            assert(slot_ok(o.len(), sh, -1, p));
        } else {
            assert(slot_ok(o.len(), sh, -1, p + 1));
        }
        let j = sh.order.remove(a)[p];
        assert(node_ok(o, sh, root, -1, j));
    }
    assert(lhs =~= rhs);
}

/// The in-order values after a takeover: the position of `from` now shows
/// the value that is in `to`.
pub(crate) proof fn lemma_takeover_inorder<T>(
    m: Seq<Node<T>>,
    root: usize,
    sh: Shape,
    n: Seq<Node<T>>,
    from: usize,
    to: usize,
)
    requires
        tree_ok(m, root, sh, to as int),
        to < m.len(),
        live(m.len(), to as int, from as int),
        n.len() == m.len(),
        forall|i: int| #![trigger n[i]] 0 <= i < m.len() && i != from && i != to ==> n[i].val == m[i].val,
    ensures
        inorder_of(n, took_shape(sh, from, to).order) == inorder_of(m, sh.order).update(
            sh.span[from as int].pos,
            n[to as int].val,
        ),
{
    let a = sh.span[from as int].pos;
    assert(node_ok(m, sh, root, to as int, from as int));
    let lhs = inorder_of(n, took_shape(sh, from, to).order);
    let rhs = inorder_of(m, sh.order).update(a, n[to as int].val);
    assert forall|p: int| 0 <= p < lhs.len() implies lhs[p] == rhs[p] by {
        assert(slot_ok(m.len(), sh, to as int, p));
        let j = sh.order[p];
        assert(node_ok(m, sh, root, to as int, j));
    }
    assert(lhs =~= rhs);
}

/// Dropping the vacant last slot does not change the in-order values.
pub(crate) proof fn lemma_drop_last_inorder<T>(n: Seq<Node<T>>, root: usize, sh: Shape)
    requires
        n.len() > 0,
        tree_ok(n, root, sh, n.len() - 1),
    ensures
        inorder_of(n.drop_last(), sh.order) == inorder_of(n, sh.order),
{
    let lhs = inorder_of(n.drop_last(), sh.order);
    let rhs = inorder_of(n, sh.order);
    assert forall|p: int| 0 <= p < lhs.len() implies lhs[p] == rhs[p] by {
        assert(slot_ok(n.len(), sh, n.len() - 1, p));
    }
    assert(lhs =~= rhs);
}

} // verus!
