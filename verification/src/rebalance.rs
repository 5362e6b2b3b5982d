//! The repair of the coloring after a black node has been spliced out: the
//! missing black node is made up for by recoloring and rotating along the
//! path to the root.
use crate::insert::with_color;
use crate::navigate::get_sib;
use crate::navigate::is_black;
use crate::node::bal_ok;
use crate::node::black;
use crate::node::colored;
use crate::node::lemma_same_links_tree;
use crate::node::live;
use crate::node::node_ok;
use crate::node::rr_ok;
use crate::node::same_links;
use crate::node::same_vals;
use crate::node::tree_ok;
use crate::node::Node;
use crate::node::Shape;
use crate::node::Span;
use crate::node::BLACK;
use crate::node::EMPTY;
use crate::node::RED;
use crate::pending::remove_pending;
use crate::rotate::kid;
use crate::rotate::lemma_rotated_same_vals;
use crate::rotate::rotated;
use crate::rotate::rotation;
use crate::rotate::rotation_root;
use crate::tree::BTree;
use vstd::prelude::*;

verus! {

/// The sibling of `x` under `par`.
pub open spec fn sib_of<T>(nodes: Seq<Node<T>>, par: usize, x: usize) -> usize {
    kid(nodes[par as int], nodes[par as int].left != x)
}

/// The arena after the red sibling case: `par` red, `sib` black.
pub open spec fn sib_red_fixed<T>(n: Seq<Node<T>>, par: usize, sib: usize) -> Seq<Node<T>> {
    n.update(par as int, with_color(n[par as int], RED)).update(sib as int, with_color(n[sib as int], BLACK))
}

/// The black heights after `a` and `b` have exchanged theirs.
pub open spec fn bh_swapped(bh: Seq<nat>, a: usize, b: usize) -> Seq<nat> {
    bh.update(a as int, bh[b as int]).update(b as int, bh[a as int])
}

/// Red sibling: rotating `par` towards `x` and recoloring `par` red and the
/// former sibling black leaves the same deficit at `x` under `par`, now with
/// a black sibling.
pub(crate) proof fn lemma_case_sib_red<T>(
    o: Seq<Node<T>>,
    root: usize,
    sh: Shape,
    n: Seq<Node<T>>,
    nroot: usize,
    par: usize,
    x: usize,
)
    requires
        tree_ok(o, root, sh, -1),
        par != EMPTY,
        remove_pending(o, root, sh.bh, -1, par, x, BLACK),
        black(o, x),
        sib_of(o, par, x) != EMPTY,
        o[sib_of(o, par, x) as int].color == RED,
        rotated(o, n, root, nroot, par, o[par as int].right == sib_of(o, par, x)),
    ensures
        same_links(n, sib_red_fixed(n, par, sib_of(o, par, x))),
        remove_pending(
            sib_red_fixed(n, par, sib_of(o, par, x)),
            nroot,
            bh_swapped(sh.bh, par, sib_of(o, par, x)),
            -1,
            par,
            x,
            BLACK,
        ),
        black(sib_red_fixed(n, par, sib_of(o, par, x)), x),
        sib_red_fixed(n, par, sib_of(o, par, x))[par as int].color == RED,
{
    let bh = sh.bh;
    let sib = sib_of(o, par, x);
    let to_left = o[par as int].right == sib;
    let f = sib_red_fixed(n, par, sib);
    let fbh = bh_swapped(bh, par, sib);
    assert(node_ok(o, sh, root, -1, par as int));
    assert(node_ok(o, sh, root, -1, sib as int));
    assert(node_ok(o, sh, root, -1, root as int));
    assert(rr_ok(o, sib as int));
    assert(bal_ok(o, bh, sib as int));
    let nn = kid(o[sib as int], to_left);
    let fn_ = kid(o[sib as int], !to_left);
    assert(node_ok(o, sh, root, -1, nn as int));
    assert(node_ok(o, sh, root, -1, fn_ as int));
    assert(rr_ok(o, nn as int));
    assert(rr_ok(o, fn_ as int));
    let gp = o[par as int].parent;
    if gp != EMPTY {
        assert(node_ok(o, sh, root, -1, gp as int));
    }
    if x != EMPTY {
        assert(node_ok(o, sh, root, -1, x as int));
    }
    lemma_rotated_same_vals(o, n, root, nroot, par, to_left);
    assert forall|i: int| live(f.len(), -1, i) && i != par implies #[trigger] bal_ok(f, fbh, i) by {
        assert(node_ok(o, sh, root, -1, i));
        assert(bal_ok(o, bh, i));
    }
    assert forall|i: int| live(f.len(), -1, i) && i != x implies #[trigger] rr_ok(f, i) by {
        assert(node_ok(o, sh, root, -1, i));
        assert(rr_ok(o, i));
    }
}

/// The arena after the case of two black nephews under a red parent: `sib`
/// red, `par` black.
pub open spec fn both_black_fixed<T>(o: Seq<Node<T>>, par: usize, sib: usize) -> Seq<Node<T>> {
    o.update(sib as int, with_color(o[sib as int], RED)).update(par as int, with_color(o[par as int], BLACK))
}

/// Black sibling with two black nephews under a red parent: recoloring the
/// sibling red and the parent black ends the repair.
pub(crate) proof fn lemma_case_both_black_stop<T>(o: Seq<Node<T>>, root: usize, sh: Shape, par: usize, x: usize)
    requires
        tree_ok(o, root, sh, -1),
        par != EMPTY,
        remove_pending(o, root, sh.bh, -1, par, x, BLACK),
        black(o, x),
        sib_of(o, par, x) != EMPTY,
        o[sib_of(o, par, x) as int].color == BLACK,
        black(o, o[sib_of(o, par, x) as int].left),
        black(o, o[sib_of(o, par, x) as int].right),
        o[par as int].color == RED,
    ensures
        same_links(o, both_black_fixed(o, par, sib_of(o, par, x))),
        colored(
            both_black_fixed(o, par, sib_of(o, par, x)),
            root,
            sh.bh.update(sib_of(o, par, x) as int, (sh.bh[sib_of(o, par, x) as int] - 1) as nat),
        ),
{
    let bh = sh.bh;
    let sib = sib_of(o, par, x);
    let f = both_black_fixed(o, par, sib);
    let fbh = bh.update(sib as int, (bh[sib as int] - 1) as nat);
    assert(node_ok(o, sh, root, -1, par as int));
    assert(node_ok(o, sh, root, -1, sib as int));
    assert(node_ok(o, sh, root, -1, root as int));
    assert(bal_ok(o, bh, sib as int));
    assert(rr_ok(o, par as int));
    if x != EMPTY {
        assert(node_ok(o, sh, root, -1, x as int));
    }
    assert forall|i: int| live(f.len(), -1, i) implies #[trigger] bal_ok(f, fbh, i) by {
        assert(node_ok(o, sh, root, -1, i));
        if i != par {
            assert(bal_ok(o, bh, i));
        }
    }
    assert forall|i: int| live(f.len(), -1, i) implies #[trigger] rr_ok(f, i) by {
        assert(node_ok(o, sh, root, -1, i));
        if i != x {
            assert(rr_ok(o, i));
        }
    }
}

/// The black heights after the case of two black nephews under a black
/// parent: sibling and parent each lose one.
pub open spec fn both_black_bh(bh: Seq<nat>, par: usize, sib: usize) -> Seq<nat> {
    bh.update(sib as int, (bh[sib as int] - 1) as nat).update(par as int, (bh[par as int] - 1) as nat)
}

/// Black sibling with two black nephews under a black parent: recoloring the
/// sibling red moves the deficit up to the parent.
pub(crate) proof fn lemma_case_both_black_up<T>(o: Seq<Node<T>>, root: usize, sh: Shape, par: usize, x: usize)
    requires
        tree_ok(o, root, sh, -1),
        par != EMPTY,
        remove_pending(o, root, sh.bh, -1, par, x, BLACK),
        black(o, x),
        sib_of(o, par, x) != EMPTY,
        o[sib_of(o, par, x) as int].color == BLACK,
        black(o, o[sib_of(o, par, x) as int].left),
        black(o, o[sib_of(o, par, x) as int].right),
        o[par as int].color == BLACK,
    ensures
        same_links(
            o,
            o.update(sib_of(o, par, x) as int, with_color(o[sib_of(o, par, x) as int], RED)),
        ),
        remove_pending(
            o.update(sib_of(o, par, x) as int, with_color(o[sib_of(o, par, x) as int], RED)),
            root,
            both_black_bh(sh.bh, par, sib_of(o, par, x)),
            -1,
            o[par as int].parent,
            par,
            BLACK,
        ),
{
    let bh = sh.bh;
    let sib = sib_of(o, par, x);
    let f = o.update(sib as int, with_color(o[sib as int], RED));
    let fbh = both_black_bh(bh, par, sib);
    let gp = o[par as int].parent;
    assert(node_ok(o, sh, root, -1, par as int));
    assert(node_ok(o, sh, root, -1, sib as int));
    assert(node_ok(o, sh, root, -1, root as int));
    assert(bal_ok(o, bh, sib as int));
    if x != EMPTY {
        assert(node_ok(o, sh, root, -1, x as int));
    }
    if gp != EMPTY {
        assert(node_ok(o, sh, root, -1, gp as int));
        assert(bal_ok(o, bh, gp as int));
        let ps = sib_of(o, gp, par);
        if ps != EMPTY {
            assert(node_ok(o, sh, root, -1, ps as int));
        }
    }
    assert forall|i: int| live(f.len(), -1, i) && i != gp implies #[trigger] bal_ok(f, fbh, i) by {
        assert(node_ok(o, sh, root, -1, i));
        if i != par {
            assert(bal_ok(o, bh, i));
        }
    }
    assert forall|i: int| live(f.len(), -1, i) && i != par implies #[trigger] rr_ok(f, i) by {
        assert(node_ok(o, sh, root, -1, i));
        if i != x {
            assert(rr_ok(o, i));
        }
    }
}

/// The arena after the recoloring of the near-nephew case: the near nephew
/// black, `sib` red.
pub open spec fn near_recolored<T>(o: Seq<Node<T>>, near: usize, sib: usize) -> Seq<Node<T>> {
    o.update(near as int, with_color(o[near as int], BLACK)).update(sib as int, with_color(o[sib as int], RED))
}

/// Black sibling, red near nephew, black far nephew: recoloring the near
/// nephew black and the sibling red and rotating the sibling away from `x`
/// leaves the same deficit, now with a black sibling whose far child is red.
pub(crate) proof fn lemma_case_near_red<T>(
    o: Seq<Node<T>>,
    root: usize,
    sh: Shape,
    n: Seq<Node<T>>,
    nroot: usize,
    par: usize,
    x: usize,
)
    requires
        tree_ok(o, root, sh, -1),
        par != EMPTY,
        remove_pending(o, root, sh.bh, -1, par, x, BLACK),
        black(o, x),
        sib_of(o, par, x) != EMPTY,
        o[sib_of(o, par, x) as int].color == BLACK,
        !black(o, kid(o[sib_of(o, par, x) as int], o[par as int].right == sib_of(o, par, x))),
        black(o, kid(o[sib_of(o, par, x) as int], o[par as int].right != sib_of(o, par, x))),
        rotated(
            near_recolored(
                o,
                kid(o[sib_of(o, par, x) as int], o[par as int].right == sib_of(o, par, x)),
                sib_of(o, par, x),
            ),
            n,
            root,
            nroot,
            sib_of(o, par, x),
            o[par as int].right != sib_of(o, par, x),
        ),
    ensures
        remove_pending(
            n,
            nroot,
            bh_swapped(
                sh.bh,
                sib_of(o, par, x),
                kid(o[sib_of(o, par, x) as int], o[par as int].right == sib_of(o, par, x)),
            ),
            -1,
            par,
            x,
            BLACK,
        ),
        black(n, x),
        nroot == root,
        n[par as int].color == o[par as int].color,
        sib_of(n, par, x) == kid(o[sib_of(o, par, x) as int], o[par as int].right == sib_of(o, par, x)),
        (n[par as int].right == sib_of(n, par, x)) == (o[par as int].right == sib_of(o, par, x)),
        n[sib_of(n, par, x) as int].color == BLACK,
        !black(n, kid(n[sib_of(n, par, x) as int], n[par as int].right != sib_of(n, par, x))),
{
    let bh = sh.bh;
    let sib = sib_of(o, par, x);
    let sib_right = o[par as int].right == sib;
    let near = kid(o[sib as int], sib_right);
    let far = kid(o[sib as int], !sib_right);
    let c = near_recolored(o, near, sib);
    let fbh = bh_swapped(bh, sib, near);
    assert(node_ok(o, sh, root, -1, par as int));
    assert(node_ok(o, sh, root, -1, sib as int));
    assert(node_ok(o, sh, root, -1, near as int));
    assert(node_ok(o, sh, root, -1, root as int));
    assert(bal_ok(o, bh, sib as int));
    assert(bal_ok(o, bh, near as int));
    let a = kid(o[near as int], sib_right);
    let b = kid(o[near as int], !sib_right);
    if a != EMPTY {
        assert(node_ok(o, sh, root, -1, a as int));
        assert(rr_ok(o, a as int));
    }
    if b != EMPTY {
        assert(node_ok(o, sh, root, -1, b as int));
        assert(rr_ok(o, b as int));
    }
    if far != EMPTY {
        assert(node_ok(o, sh, root, -1, far as int));
    }
    if x != EMPTY {
        assert(node_ok(o, sh, root, -1, x as int));
    }
    assert(c.len() == o.len());
    lemma_rotated_same_vals(c, n, root, nroot, sib, !sib_right);
    assert forall|i: int| live(n.len(), -1, i) && i != par implies #[trigger] bal_ok(n, fbh, i) by {
        assert(node_ok(o, sh, root, -1, i));
        assert(bal_ok(o, bh, i));
    }
    assert forall|i: int| live(n.len(), -1, i) && i != x implies #[trigger] rr_ok(n, i) by {
        assert(node_ok(o, sh, root, -1, i));
        assert(rr_ok(o, i));
    }
}

/// The arena after the recoloring of the far-nephew case: the far nephew
/// black, `par` black, and `sib` in the color `c` that `par` had.
pub open spec fn far_fixed<T>(n: Seq<Node<T>>, par: usize, sib: usize, far: usize, c: bool) -> Seq<Node<T>> {
    let n1 = n.update(far as int, with_color(n[far as int], BLACK));
    let n2 = n1.update(par as int, with_color(n1[par as int], BLACK));
    n2.update(sib as int, with_color(n2[sib as int], c))
}

/// The black heights after the far-nephew case.
pub open spec fn far_fixed_bh(bh: Seq<nat>, par: usize, sib: usize, far: usize) -> Seq<nat> {
    bh.update(far as int, bh[far as int] + 1).update(par as int, bh[sib as int]).update(sib as int, bh[par as int])
}

/// Black sibling with a red far nephew: rotating `par` towards `x`, giving
/// the sibling the color of `par`, and coloring `par` and the far nephew
/// black ends the repair.
#[verifier::rlimit(60)]
pub(crate) proof fn lemma_case_far_red<T>(
    o: Seq<Node<T>>,
    root: usize,
    sh: Shape,
    n: Seq<Node<T>>,
    nroot: usize,
    par: usize,
    x: usize,
)
    requires
        tree_ok(o, root, sh, -1),
        par != EMPTY,
        remove_pending(o, root, sh.bh, -1, par, x, BLACK),
        black(o, x),
        sib_of(o, par, x) != EMPTY,
        o[sib_of(o, par, x) as int].color == BLACK,
        !black(o, kid(o[sib_of(o, par, x) as int], o[par as int].right != sib_of(o, par, x))),
        rotated(o, n, root, nroot, par, o[par as int].right == sib_of(o, par, x)),
    ensures
        ({
            let sib = sib_of(o, par, x);
            let far = kid(o[sib as int], o[par as int].right != sib);
            let f = far_fixed(n, par, sib, far, o[par as int].color);
            &&& same_links(n, f)
            &&& colored(f, nroot, far_fixed_bh(sh.bh, par, sib, far))
            &&& far == kid(n[sib as int], o[par as int].right != sib)
            &&& n[sib as int].color == BLACK
            &&& n[par as int].color == o[par as int].color
        }),
{
    let bh = sh.bh;
    let sib = sib_of(o, par, x);
    let sib_right = o[par as int].right == sib;
    let near = kid(o[sib as int], sib_right);
    let far = kid(o[sib as int], !sib_right);
    let f = far_fixed(n, par, sib, far, o[par as int].color);
    let fbh = far_fixed_bh(bh, par, sib, far);
    assert(node_ok(o, sh, root, -1, par as int));
    assert(node_ok(o, sh, root, -1, sib as int));
    assert(node_ok(o, sh, root, -1, far as int));
    assert(node_ok(o, sh, root, -1, root as int));
    assert(bal_ok(o, bh, sib as int));
    assert(bal_ok(o, bh, far as int));
    assert(rr_ok(o, par as int));
    if near != EMPTY {
        assert(node_ok(o, sh, root, -1, near as int));
    }
    if x != EMPTY {
        assert(node_ok(o, sh, root, -1, x as int));
    }
    let gp = o[par as int].parent;
    if gp != EMPTY {
        assert(node_ok(o, sh, root, -1, gp as int));
    }
    lemma_rotated_same_vals(o, n, root, nroot, par, sib_right);
    assert forall|i: int| live(f.len(), -1, i) implies #[trigger] bal_ok(f, fbh, i) by {
        assert(node_ok(o, sh, root, -1, i));
        if i != par {
            assert(bal_ok(o, bh, i));
        }
    }
    assert forall|i: int| live(f.len(), -1, i) implies #[trigger] rr_ok(f, i) by {
        assert(node_ok(o, sh, root, -1, i));
        if i != x {
            assert(rr_ok(o, i));
        }
    }
}

/// A red node that took the place of a black one makes up for it by turning black.
pub(crate) proof fn lemma_blacken_shifted<T>(o: Seq<Node<T>>, root: usize, sh: Shape, par: usize, x: usize)
    requires
        tree_ok(o, root, sh, -1),
        remove_pending(o, root, sh.bh, -1, par, x, BLACK),
        !black(o, x),
    ensures
        same_links(o, o.update(x as int, with_color(o[x as int], BLACK))),
        colored(
            o.update(x as int, with_color(o[x as int], BLACK)),
            root,
            sh.bh.update(x as int, sh.bh[x as int] + 1),
        ),
{
    let bh = sh.bh;
    let f = o.update(x as int, with_color(o[x as int], BLACK));
    let fbh = bh.update(x as int, bh[x as int] + 1);
    assert(node_ok(o, sh, root, -1, x as int));
    assert(node_ok(o, sh, root, -1, root as int));
    if par != EMPTY {
        assert(node_ok(o, sh, root, -1, par as int));
        let s = sib_of(o, par, x);
        if s != EMPTY {
            assert(node_ok(o, sh, root, -1, s as int));
        }
    }
    assert forall|i: int| live(f.len(), -1, i) implies #[trigger] bal_ok(f, fbh, i) by {
        assert(node_ok(o, sh, root, -1, i));
        if i != par {
            assert(bal_ok(o, bh, i));
        }
    }
    assert forall|i: int| live(f.len(), -1, i) implies #[trigger] rr_ok(f, i) by {
        assert(node_ok(o, sh, root, -1, i));
        if i != x {
            assert(rr_ok(o, i));
        }
    }
}

/// The arena and the root after the step for a red sibling `sib` under
/// `par`: `par` is rotated towards the other side, so that `sib` rises, and
/// turns red; `sib` turns black.
pub open spec fn sib_red_step<T>(o: Seq<Node<T>>, root: usize, par: usize, sib: usize) -> (Seq<Node<T>>, usize) {
    let to_left = o[par as int].right == sib;
    (sib_red_fixed(rotation(o, par, to_left), par, sib), rotation_root(o, root, par, to_left))
}

/// The arena and the root after the step for a black sibling `sib` under
/// `par` whose near child is red and whose far child is black: the near child
/// turns black and `sib` red, and `sib` is rotated towards its far side, so
/// that the near child rises.
pub open spec fn near_red_step<T>(o: Seq<Node<T>>, root: usize, par: usize, sib: usize) -> (Seq<Node<T>>, usize) {
    let sib_right = o[par as int].right == sib;
    let c = near_recolored(o, kid(o[sib as int], sib_right), sib);
    (rotation(c, sib, !sib_right), rotation_root(c, root, sib, !sib_right))
}

/// The arena and the root after the step for a black sibling `sib` under
/// `par` whose far child is red: `par` is rotated towards the other side, so
/// that `sib` rises; `sib` takes the color of `par`, and `par` and the far
/// child turn black.
pub open spec fn far_red_step<T>(o: Seq<Node<T>>, root: usize, par: usize, sib: usize) -> (Seq<Node<T>>, usize) {
    let sib_right = o[par as int].right == sib;
    let n = rotation(o, par, sib_right);
    (
        far_fixed(n, par, sib, kid(n[sib as int], !sib_right), o[par as int].color),
        rotation_root(o, root, par, sib_right),
    )
}

/// The arena and the root after the repair for the black node `x` (possibly
/// absent) under `par`, whose subtree is one black node short. It takes at
/// most `fuel` steps.
///
/// With no `par` nothing is left to do. With a red sibling, the step for it
/// is taken and the repair goes on at the same place. With a black sibling
/// that has two black children, the sibling turns red; a red `par` then
/// turns black and ends the repair, and under a black `par` the repair goes
/// on for `par` under its own parent. Else the step for a red near child is
/// taken if the far child is black, and the step for a red far child ends
/// the repair.
pub open spec fn repaired<T>(o: Seq<Node<T>>, root: usize, par: usize, x: usize, fuel: nat) -> (
    Seq<Node<T>>,
    usize,
)
    decreases fuel,
{
    if par == EMPTY || fuel == 0 {
        (o, root)
    } else {
        let sib = sib_of(o, par, x);
        let sib_right = o[par as int].right == sib;
        let near = kid(o[sib as int], sib_right);
        let far = kid(o[sib as int], !sib_right);
        if o[sib as int].color == RED {
            let (a, r) = sib_red_step(o, root, par, sib);
            repaired(a, r, par, x, (fuel - 1) as nat)
        } else if black(o, near) && black(o, far) {
            if o[par as int].color == RED {
                (both_black_fixed(o, par, sib), root)
            } else {
                repaired(
                    o.update(sib as int, with_color(o[sib as int], RED)),
                    root,
                    o[par as int].parent,
                    par,
                    (fuel - 1) as nat,
                )
            }
        } else if black(o, far) {
            let (a, r) = near_red_step(o, root, par, sib);
            far_red_step(a, r, par, sib_of(a, par, x))
        } else {
            far_red_step(o, root, par, sib)
        }
    }
}

/// How far the repair is from its end: nothing is left after a step at a
/// red `par`, and a step at a black `par` leads to a larger subtree.
pub open spec fn repair_measure<T>(nodes: Seq<Node<T>>, span: Seq<Span>, par: usize) -> int {
    if par == EMPTY || nodes[par as int].color == RED {
        0
    } else {
        1 + nodes.len() - (span[par as int].hi - span[par as int].lo)
    }
}

impl<T: PartialOrd> BTree<T> {
    /// The sibling `sib` of `shift` under `idx` is red: rotates `idx`
    /// towards the side of `shift` and colors `idx` red and `sib` black.
    /// `shift` is then still a child of `idx`, with a black sibling.
    pub(crate) fn case_sib_is_red(b: &mut BTree<T>, idx: usize, sib: usize, Ghost(shift): Ghost<usize>)
        requires
            old(b).linked(),
            idx != EMPTY,
            remove_pending(old(b).nodes@, old(b).root_idx, old(b).shape@.bh, -1, idx, shift, BLACK),
            black(old(b).nodes@, shift),
            sib == sib_of(old(b).nodes@, idx, shift),
            sib != EMPTY,
            old(b).nodes@[sib as int].color == RED,
        ensures
            final(b).linked(),
            remove_pending(final(b).nodes@, final(b).root_idx, final(b).shape@.bh, -1, idx, shift, BLACK),
            black(final(b).nodes@, shift),
            final(b).nodes@[idx as int].color == RED,
            same_vals(old(b).nodes@, final(b).nodes@),
            final(b).shape@.order == old(b).shape@.order,
            (final(b).nodes@, final(b).root_idx) == sib_red_step(old(b).nodes@, old(b).root_idx, idx, sib),
    {
        let ghost o = b.nodes@;
        let ghost sh = b.shape@;
        let ghost root = b.root_idx;
        proof {
            assert(node_ok(o, sh, root, -1, idx as int));
            assert(node_ok(o, sh, root, -1, sib as int));
        }
        if b.nodes[idx].right == sib {
            Self::rotate_left(b, idx);
        } else {
            Self::rotate_right(b, idx);
        }
        let ghost n = b.nodes@;
        let ghost nsh = b.shape@;
        b.nodes[idx].color = RED;
        b.nodes[sib].color = BLACK;
        proof {
            assert(b.nodes@ =~= sib_red_fixed(n, idx, sib));
            lemma_case_sib_red(o, root, sh, n, b.root_idx, idx, shift);
            lemma_rotated_same_vals(o, n, root, b.root_idx, idx, o[idx as int].right == sib);
            b.shape@ = Shape { bh: bh_swapped(sh.bh, idx, sib), ..nsh };
            lemma_same_links_tree(n, b.nodes@, b.root_idx, nsh, b.shape@, -1);
        }
    }

    /// The sibling `sib` of `shift` under `idx` is black, its child on the
    /// side of `shift` is red and its other child is black: colors that
    /// child black and `sib` red and rotates `sib` away from `shift`. The new
    /// sibling of `shift` is black and has a red child on the far side.
    pub(crate) fn case_near_nephew_red(b: &mut BTree<T>, idx: usize, sib: usize, Ghost(shift): Ghost<usize>)
        requires
            old(b).linked(),
            idx != EMPTY,
            remove_pending(old(b).nodes@, old(b).root_idx, old(b).shape@.bh, -1, idx, shift, BLACK),
            black(old(b).nodes@, shift),
            sib == sib_of(old(b).nodes@, idx, shift),
            sib != EMPTY,
            old(b).nodes@[sib as int].color == BLACK,
            !black(old(b).nodes@, kid(old(b).nodes@[sib as int], old(b).nodes@[idx as int].right == sib)),
            black(old(b).nodes@, kid(old(b).nodes@[sib as int], old(b).nodes@[idx as int].right != sib)),
        ensures
            final(b).linked(),
            remove_pending(final(b).nodes@, final(b).root_idx, final(b).shape@.bh, -1, idx, shift, BLACK),
            black(final(b).nodes@, shift),
            same_vals(old(b).nodes@, final(b).nodes@),
            final(b).shape@.order == old(b).shape@.order,
            sib_of(final(b).nodes@, idx, shift) != EMPTY,
            final(b).nodes@[sib_of(final(b).nodes@, idx, shift) as int].color == BLACK,
            !black(
                final(b).nodes@,
                kid(
                    final(b).nodes@[sib_of(final(b).nodes@, idx, shift) as int],
                    final(b).nodes@[idx as int].right != sib_of(final(b).nodes@, idx, shift),
                ),
            ),
            (final(b).nodes@, final(b).root_idx) == near_red_step(old(b).nodes@, old(b).root_idx, idx, sib),
    {
        let ghost o = b.nodes@;
        let ghost sh = b.shape@;
        let ghost root = b.root_idx;
        proof {
            assert(node_ok(o, sh, root, -1, idx as int));
            assert(node_ok(o, sh, root, -1, sib as int));
        }
        let sib_right = b.nodes[idx].right == sib;
        let near = if sib_right {
            b.nodes[sib].left
        } else {
            b.nodes[sib].right
        };
        proof {
            assert(node_ok(o, sh, root, -1, near as int));
        }
        b.nodes[near].color = BLACK;
        b.nodes[sib].color = RED;
        let ghost c = b.nodes@;
        proof {
            assert(c =~= near_recolored(o, near, sib));
            lemma_same_links_tree(o, c, root, sh, sh, -1);
        }
        if sib_right {
            Self::rotate_right(b, sib);
        } else {
            Self::rotate_left(b, sib);
        }
        proof {
            let n = b.nodes@;
            let nsh = b.shape@;
            lemma_case_near_red(o, root, sh, n, b.root_idx, idx, shift);
            lemma_rotated_same_vals(c, n, root, b.root_idx, sib, !sib_right);
            b.shape@ = Shape { bh: bh_swapped(sh.bh, sib, near), ..nsh };
            lemma_same_links_tree(n, n, b.root_idx, nsh, b.shape@, -1);
        }
    }

    /// The sibling `sib` of `shift` under `idx` is black and its child on
    /// the far side is red: rotates `idx` towards the side of `shift`,
    /// colors that child black and exchanges the colors of `idx` and `sib`.
    /// This ends the repair.
    pub(crate) fn case_far_nephew_red(b: &mut BTree<T>, idx: usize, sib: usize, Ghost(shift): Ghost<usize>)
        requires
            old(b).linked(),
            idx != EMPTY,
            remove_pending(old(b).nodes@, old(b).root_idx, old(b).shape@.bh, -1, idx, shift, BLACK),
            black(old(b).nodes@, shift),
            sib == sib_of(old(b).nodes@, idx, shift),
            sib != EMPTY,
            old(b).nodes@[sib as int].color == BLACK,
            !black(old(b).nodes@, kid(old(b).nodes@[sib as int], old(b).nodes@[idx as int].right != sib)),
        ensures
            final(b).linked(),
            final(b).balanced(),
            same_vals(old(b).nodes@, final(b).nodes@),
            final(b).shape@.order == old(b).shape@.order,
            (final(b).nodes@, final(b).root_idx) == far_red_step(old(b).nodes@, old(b).root_idx, idx, sib),
    {
        let ghost o = b.nodes@;
        let ghost sh = b.shape@;
        let ghost root = b.root_idx;
        proof {
            assert(node_ok(o, sh, root, -1, idx as int));
            assert(node_ok(o, sh, root, -1, sib as int));
        }
        let ghost sib_right = o[idx as int].right == sib;
        let neph = if b.nodes[idx].right == sib {
            Self::rotate_left(b, idx);
            b.nodes[sib].right
        } else {
            Self::rotate_right(b, idx);
            b.nodes[sib].left
        };
        let ghost n = b.nodes@;
        let ghost nsh = b.shape@;
        proof {
            lemma_case_far_red(o, root, sh, n, b.root_idx, idx, shift);
            lemma_rotated_same_vals(o, n, root, b.root_idx, idx, sib_right);
            assert(node_ok(o, sh, root, -1, neph as int));
        }
        b.nodes[neph].color = BLACK;
        let holder = b.nodes[idx].color;
        let sib_color = b.nodes[sib].color;
        b.nodes[idx].color = sib_color;
        b.nodes[sib].color = holder;
        proof {
            assert(b.nodes@ =~= far_fixed(n, idx, sib, neph, o[idx as int].color));
            b.shape@ = Shape { bh: far_fixed_bh(sh.bh, idx, sib, neph), ..nsh };
            lemma_same_links_tree(n, b.nodes@, b.root_idx, nsh, b.shape@, -1);
        }
    }

    /// Repairs the coloring after a black node has been spliced out from
    /// under `idx`, where the black node `shift` (possibly absent) has taken
    /// its place.
    pub(crate) fn balance_remove(b: &mut BTree<T>, idx: usize, shift: usize)
        requires
            old(b).linked(),
            remove_pending(old(b).nodes@, old(b).root_idx, old(b).shape@.bh, -1, idx, shift, BLACK),
            black(old(b).nodes@, shift),
        ensures
            final(b).linked(),
            final(b).balanced(),
            same_vals(old(b).nodes@, final(b).nodes@),
            final(b).shape@.order == old(b).shape@.order,
            (final(b).nodes@, final(b).root_idx) == repaired(
                old(b).nodes@,
                old(b).root_idx,
                idx,
                shift,
                old(b).nodes@.len() + 1,
            ),
    {
        let ghost o = b.nodes@;
        let ghost order = b.shape@.order;
        let ghost target = repaired(o, b.root_idx, idx, shift, o.len() + 1);
        let ghost mut fuel = o.len() + 1;
        let mut idx = idx;
        let mut shift = shift;
        proof {
            if idx != EMPTY {
                assert(node_ok(o, b.shape@, b.root_idx, -1, idx as int));
            }
        }
        while idx != EMPTY
            invariant_except_break
                remove_pending(b.nodes@, b.root_idx, b.shape@.bh, -1, idx, shift, BLACK),
                black(b.nodes@, shift),
                repaired(b.nodes@, b.root_idx, idx, shift, fuel) == target,
                fuel > repair_measure(b.nodes@, b.shape@.span, idx),
            invariant
                b.linked(),
                same_vals(o, b.nodes@),
                b.shape@.order == order,
            ensures
                b.balanced(),
                (b.nodes@, b.root_idx) == target,
            decreases repair_measure(b.nodes@, b.shape@.span, idx),
        {
            let ghost cur = b.nodes@;
            let ghost csh = b.shape@;
            proof {
                assert(node_ok(cur, csh, b.root_idx, -1, idx as int));
            }
            // the sibling subtree holds a black node more, so it is not empty
            let sib = get_sib(&b.nodes, idx, shift);
            proof {
                assert(node_ok(cur, csh, b.root_idx, -1, sib as int));
            }
            if b.nodes[sib].color == RED {
                proof {
                    assert(rr_ok(cur, sib as int));
                }
                Self::case_sib_is_red(b, idx, sib, Ghost(shift));
                proof {
                    assert(repair_measure(cur, csh.span, idx) >= 1);
                    fuel = (fuel - 1) as nat;
                }
            } else {
                let sib_right = b.nodes[idx].right == sib;
                let near = if sib_right {
                    b.nodes[sib].left
                } else {
                    b.nodes[sib].right
                };
                let far = if sib_right {
                    b.nodes[sib].right
                } else {
                    b.nodes[sib].left
                };
                if is_black(&b.nodes, near) && is_black(&b.nodes, far) {
                    b.nodes[sib].color = RED;
                    if b.nodes[idx].color == RED {
                        b.nodes[idx].color = BLACK;
                        proof {
                            assert(b.nodes@ =~= both_black_fixed(cur, idx, sib));
                            lemma_case_both_black_stop(cur, b.root_idx, csh, idx, shift);
                            b.shape@ = Shape {
                                bh: csh.bh.update(sib as int, (csh.bh[sib as int] - 1) as nat),
                                ..csh
                            };
                            lemma_same_links_tree(cur, b.nodes@, b.root_idx, csh, b.shape@, -1);
                        }
                        break ;
                    }
                    proof {
                        lemma_case_both_black_up(cur, b.root_idx, csh, idx, shift);
                        b.shape@ = Shape { bh: both_black_bh(csh.bh, idx, sib), ..csh };
                        lemma_same_links_tree(cur, b.nodes@, b.root_idx, csh, b.shape@, -1);
                        let gp = cur[idx as int].parent;
                        if gp != EMPTY {
                            assert(node_ok(cur, csh, b.root_idx, -1, gp as int));
                            assert(csh.span[gp as int].hi - csh.span[gp as int].lo > csh.span[idx as int].hi
                                - csh.span[idx as int].lo);
                            assert(b.nodes@[gp as int].color == cur[gp as int].color);
                        }
                        assert(repair_measure(cur, csh.span, idx) >= 1);
                        assert(b.nodes@ =~= cur.update(sib as int, with_color(cur[sib as int], RED)));
                        fuel = (fuel - 1) as nat;
                    }
                    shift = idx;
                    idx = b.nodes[idx].parent;
                } else {
                    let mut sib = sib;
                    if is_black(&b.nodes, far) {
                        Self::case_near_nephew_red(b, idx, sib, Ghost(shift));
                        sib = get_sib(&b.nodes, idx, shift);
                    }
                    Self::case_far_nephew_red(b, idx, sib, Ghost(shift));
                    break ;
                }
            }
        }
    }
}

} // verus!
