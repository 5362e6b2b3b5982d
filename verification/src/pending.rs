//! The coloring between the splice and the end of the repair: what a removal
//! leaves to be fixed, and how the splice steps carry it along.
use crate::node::all_bal;
use crate::node::all_rr;
use crate::node::bal_ok;
use crate::node::bh_of;
use crate::node::black;
use crate::node::colored;
use crate::node::live;
use crate::node::node_ok;
use crate::node::rr_ok;
use crate::node::tree_ok;
use crate::node::Node;
use crate::node::Shape;
use crate::node::BLACK;
use crate::node::EMPTY;
use crate::node::RED;
use crate::rotate::kid;
use crate::splice::ren;
use crate::splice::short_shape;
use crate::splice::spliced;
use crate::splice::took_over;
use crate::splice::took_shape;
use vstd::prelude::*;

verus! {

/// The subtree in the child slot of `par` that holds `x` is one black node
/// short of the subtree in the other slot, and `bh[par]` counts the taller one.
pub open spec fn deficit_ok<T>(nodes: Seq<Node<T>>, bh: Seq<nat>, par: usize, x: usize) -> bool {
    let nd = nodes[par as int];
    let s = kid(nd, nd.left != x);
    &&& (nd.left == x || nd.right == x)
    &&& bh_of(bh, x) + 1 == bh_of(bh, s)
    &&& bh[par as int] == bh_of(bh, s) + (if nd.color == BLACK {
        1nat
    } else {
        0nat
    })
}

/// What a splice leaves to be repaired. `k` is the color that the spliced-out
/// node had, `x` the node that was shifted into its place (possibly none) and
/// `par` the parent of that place.
///
/// After a red node nothing is left to repair. After a black one the subtree
/// at `x` is one black node short under `par`, and `x` alone may be red
/// under a red parent, or a red root.
pub open spec fn remove_pending<T>(
    nodes: Seq<Node<T>>,
    root: usize,
    bh: Seq<nat>,
    dead: int,
    par: usize,
    x: usize,
    k: bool,
) -> bool {
    if k == RED {
        &&& black(nodes, root)
        &&& all_bal(nodes, bh, dead, -1)
        &&& all_rr(nodes, dead, -1)
    } else {
        &&& all_rr(nodes, dead, x as int)
        &&& (black(nodes, root) || root == x)
        &&& x != EMPTY ==> live(nodes.len(), dead, x as int) && nodes[x as int].parent == par
        &&& if par == EMPTY {
            &&& root == x
            &&& all_bal(nodes, bh, dead, -1)
        } else {
            &&& live(nodes.len(), dead, par as int)
            &&& all_bal(nodes, bh, dead, par as int)
            &&& deficit_ok(nodes, bh, par, x)
        }
    }
}

/// Splicing a node out of a red-black tree leaves exactly what
/// `remove_pending` describes.
pub(
    crate) proof fn lemma_splice_colors<T>(o: Seq<Node<T>>,
    root: usize,
    sh: Shape,
    n: Seq<Node<T>>,
    u: usize,
    side: bool,
)
    requires
        tree_ok(o, root, sh, -1),
        colored(o, root, sh.bh),
        u < o.len(),
        kid(o[u as int], !side) == EMPTY,
        spliced(o, n, u, kid(o[u as int], side)),
    ensures
        remove_pending(
            n,
            ren(root, u, kid(o[u as int], side)),
            sh.bh,
            u as int,
            o[u as int].parent,
            kid(o[u as int], side),
            o[u as int].color,
        ),
{
    let c = kid(o[u as int], side);
    let up = o[u as int].parent;
    let bh = sh.bh;
    assert(node_ok(o, sh, root, -1, u as int));
    assert(node_ok(o, sh, root, -1, root as int));
    assert(bal_ok(o, bh, u as int));
    assert(rr_ok(o, u as int));
    if c != EMPTY {
        assert(node_ok(o, sh, root, -1, c as int));
        assert(bal_ok(o, bh, c as int));
        assert(rr_ok(o, c as int));
    }
    if up != EMPTY {
        assert(node_ok(o, sh, root, -1, up as int));
        assert(bal_ok(o, bh, up as int));
        let sb = kid(o[up as int], o[up as int].left != u);
        if sb != EMPTY {
            assert(node_ok(o, sh, root, -1, sb as int));
        }
    }
    assert forall|i: int| live(n.len(), u as int, i) && i != up implies #[trigger] bal_ok(n, bh, i) by {
        assert(bal_ok(o, bh, i));
        assert(node_ok(o, sh, root, -1, i));
    }
    assert forall|i: int| live(n.len(), u as int, i) && i != c implies #[trigger] rr_ok(n, i) by {
        assert(rr_ok(o, i));
        assert(node_ok(o, sh, root, -1, i));
    }
}

/// A takeover carries the pending repair along, under the new name of the
/// slot that moved.
pub(crate) proof fn lemma_takeover_colors<T>(
    m: Seq<Node<T>>,
    root: usize,
    sh: Shape,
    n: Seq<Node<T>>,
    from: usize,
    to: usize,
    par: usize,
    x: usize,
    k: bool,
)
    requires
        tree_ok(m, root, sh, to as int),
        to < m.len(),
        live(m.len(), to as int, from as int),
        took_over(m, n, from, to),
        n[to as int].color == m[from as int].color,
        remove_pending(m, root, sh.bh, to as int, par, x, k),
    ensures
        remove_pending(
            n,
            ren(root, from, to),
            took_shape(sh, from, to).bh,
            from as int,
            ren(par, from, to),
            ren(x, from, to),
            k,
        ),
{
    let bh = sh.bh;
    let nbh = took_shape(sh, from, to).bh;
    let npar = ren(par, from, to);
    let nx = ren(x, from, to);
    assert(node_ok(m, sh, root, to as int, from as int));
    assert(node_ok(m, sh, root, to as int, root as int));
    if par != EMPTY && k == BLACK {
        assert(node_ok(m, sh, root, to as int, par as int));
    }
    if x != EMPTY && k == BLACK {
        assert(node_ok(m, sh, root, to as int, x as int));
    }
    assert forall|i: int| live(n.len(), from as int, i) && (k == RED || i != npar) implies #[trigger] bal_ok(
        n,
        nbh,
        i,
    ) by {
        let j = if i == to {
            from as int
        } else {
            i
        };
        assert(bal_ok(m, bh, j));
        assert(node_ok(m, sh, root, to as int, j));
    }
    assert forall|i: int| live(n.len(), from as int, i) && (k == RED || i != nx) implies #[trigger] rr_ok(
        n,
        i,
    ) by {
        let j = if i == to {
            from as int
        } else {
            i
        };
        assert(rr_ok(m, j));
        assert(node_ok(m, sh, root, to as int, j));
        let p = m[j].parent;
        if p != EMPTY {
            assert(node_ok(m, sh, root, to as int, p as int));
        }
    }
}

/// Dropping the vacant last slot does not change what is pending.
pub(crate) proof fn lemma_drop_last_colors<T>(
    n: Seq<Node<T>>,
    root: usize,
    sh: Shape,
    par: usize,
    x: usize,
    k: bool,
)
    requires
        n.len() > 0,
        tree_ok(n, root, sh, n.len() - 1),
        remove_pending(n, root, sh.bh, n.len() - 1, par, x, k),
    ensures
        remove_pending(n.drop_last(), root, short_shape(sh).bh, -1, par, x, k),
{
    let d = n.drop_last();
    let dbh = short_shape(sh).bh;
    let last = n.len() - 1;
    if root != EMPTY {
        assert(node_ok(n, sh, root, last, root as int));
    }
    if par != EMPTY && k == BLACK {
        assert(node_ok(n, sh, root, last, par as int));
    }
    assert forall|i: int| live(d.len(), -1, i) && (k == RED || i != par) implies #[trigger] bal_ok(d, dbh, i) by {
        assert(bal_ok(n, sh.bh, i));
        assert(node_ok(n, sh, root, last, i));
    }
    assert forall|i: int| live(d.len(), -1, i) && (k == RED || i != x) implies #[trigger] rr_ok(d, i) by {
        assert(rr_ok(n, i));
        assert(node_ok(n, sh, root, last, i));
    }
}

} // verus!
