//! Removal: the node that holds the value is spliced out of the tree, the
//! vacated arena slot is filled with the last node of the arena, and the
//! coloring is repaired.
use crate::node::colored;
use crate::node::inorder_of;
use crate::node::key_at;
use crate::node::lemma_remove_sorted;
use crate::node::lemma_sorted_inorder;
use crate::node::same_vals;
use crate::node::seq_sorted;
use crate::node::slot_ok;
use crate::node::live;
use crate::node::node_ok;
use crate::node::tree_ok;
use crate::node::Node;
use crate::node::Shape;
use crate::pending::lemma_drop_last_colors;
use crate::pending::lemma_splice_colors;
use crate::pending::lemma_takeover_colors;
use crate::pending::remove_pending;
use crate::rotate::kid;
use crate::splice::dropped_shape;
use crate::splice::lemma_drop_last_inorder;
use crate::splice::lemma_shifted_up_spliced;
use crate::splice::lemma_splice_inorder;
use crate::splice::lemma_splice_tree;
use crate::splice::lemma_drop_last_tree;
use crate::splice::lemma_takeover_inorder;
use crate::splice::lemma_takeover_tree;
use crate::splice::renamed;
use crate::splice::short_shape;
use crate::splice::took_over;
use crate::splice::took_shape;
use crate::node::EMPTY;
use crate::node::RED;
use crate::insert::with_color;
use crate::navigate::is_black;
use crate::navigate::leftmost;
use crate::navigate::search;
use crate::node::lemma_same_links_tree;
use crate::node::lemma_same_vals_inorder;
use crate::node::BLACK;
use crate::order::total_order;
use crate::node::black;
use crate::rebalance::lemma_blacken_shifted;
use crate::rebalance::repaired;
use crate::rotate::child_replaced;
use crate::rotate::children_linked;
use crate::rotate::link_with_children;
use crate::rotate::replace_child;
use crate::splice::ren;
use crate::splice::shifted_up;
use crate::tree::BTree;
use crate::validate::all_ok;
use vstd::prelude::*;

verus! {

/// What the splice hands to the repair: the parent of the place that was
/// vacated in the tree, the node that was shifted into that place (possibly
/// none), the color of the node that was spliced out, and the removed value.
#[derive(Debug)]
pub struct RemovalData<T> {
    pub parent: usize,
    pub shifted: usize,
    pub color: bool,
    pub val: T,
}

/// The arena after `src` has been moved over the top of `dest`: `src` gets
/// the links of `dest`, the children of `dest` get `src` as their parent, and
/// the parent of `dest` points at `src`.
pub open spec fn overwritten<T>(s: Seq<Node<T>>, src: usize, dest: usize) -> Seq<Node<T>> {
    let d = s[dest as int];
    let s1 = if src == EMPTY {
        s
    } else {
        children_linked(
            s.update(src as int, Node { left: d.left, right: d.right, parent: d.parent, ..s[src as int] }),
            src,
        )
    };
    child_replaced(s1, dest, src)
}

/// The arena after the parent of `child`, if `child` names one that is a
/// slot of the arena, has been made to hold no child where it named `child`.
/// No other field changes.
pub open spec fn child_cleared<T>(s: Seq<Node<T>>, child: usize) -> Seq<Node<T>> {
    let p = s[child as int].parent;
    if p < s.len() {
        let nd = s[p as int];
        s.update(
            p as int,
            Node {
                left: if nd.left == child {
                    EMPTY
                } else {
                    nd.left
                },
                right: if nd.right == child {
                    EMPTY
                } else {
                    nd.right
                },
                ..nd
            },
        )
    } else {
        s
    }
}

/// The arena after slot `to` has been vacated, one slot shorter. Where `to`
/// is the last slot, it is dropped, and a parent that it names and that
/// still names it as a child holds no child there afterwards. Else the last
/// node is moved into slot `to`, and its parent and children are pointed at
/// its new slot.
pub open spec fn compacted<T>(s: Seq<Node<T>>, to: usize) -> Seq<Node<T>> {
    let last = (s.len() - 1) as usize;
    if to == last {
        child_cleared(s, last).drop_last()
    } else {
        let s1 = child_replaced(s, last, to);
        children_linked(s1.update(to as int, s1.last()).drop_last(), to)
    }
}

/// The arena after `min`, the right child of `idx` with no left child of its
/// own, has been put into the place of `idx`: it gets the left child and the
/// parent of `idx` and keeps its own right child.
pub open spec fn adopted<T>(s: Seq<Node<T>>, idx: usize, min: usize) -> Seq<Node<T>> {
    let d = s[idx as int];
    children_linked(
        child_replaced(s.update(min as int, Node { left: d.left, parent: d.parent, ..s[min as int] }), idx, min),
        min,
    )
}

/// Moving the vacant slot `to` over the top of `from` is a takeover.
pub(crate) proof fn lemma_overwritten_took_over<T>(m: Seq<Node<T>>, root: usize, sh: Shape, from: usize, to: usize)
    requires
        tree_ok(m, root, sh, to as int),
        to < m.len(),
        live(m.len(), to as int, from as int),
    ensures
        took_over(m, overwritten(m, to, from), from, to),
        same_vals(m, overwritten(m, to, from)),
        overwritten(m, to, from)[to as int].color == m[to as int].color,
        overwritten(m, to, from)[from as int].color == m[from as int].color,
{
    let n = overwritten(m, to, from);
    assert(node_ok(m, sh, root, to as int, from as int));
    let l = m[from as int].left;
    let r = m[from as int].right;
    let p = m[from as int].parent;
    if l != EMPTY {
        assert(node_ok(m, sh, root, to as int, l as int));
    }
    if r != EMPTY {
        assert(node_ok(m, sh, root, to as int, r as int));
    }
    if p != EMPTY {
        assert(node_ok(m, sh, root, to as int, p as int));
    }
    assert forall|i: int| #![trigger n[i]] 0 <= i < m.len() && i != from && i != to implies n[i] == renamed(
        m[i],
        from,
        to,
    ) by {
        assert(node_ok(m, sh, root, to as int, i));
    }
}

/// Putting the right child `min` of `idx` into the place of `idx` comes to
/// the same as shifting the right child of `min` up and then letting `min`
/// take over from `idx`.
pub(crate) proof fn lemma_adopted_took_over<T>(o: Seq<Node<T>>, root: usize, sh: Shape, idx: usize, min: usize)
    requires
        tree_ok(o, root, sh, -1),
        idx < o.len(),
        min == o[idx as int].right,
        min != EMPTY,
        o[min as int].left == EMPTY,
    ensures
        took_over(shifted_up(o, o[min as int].right, min), adopted(o, idx, min), idx, min),
        same_vals(o, adopted(o, idx, min)),
        adopted(o, idx, min)[min as int].color == o[min as int].color,
        adopted(o, idx, min)[idx as int].color == o[idx as int].color,
{
    let c = o[min as int].right;
    let m = shifted_up(o, c, min);
    let n = adopted(o, idx, min);
    assert(node_ok(o, sh, root, -1, idx as int));
    assert(node_ok(o, sh, root, -1, min as int));
    let l = o[idx as int].left;
    let p = o[idx as int].parent;
    if l != EMPTY {
        assert(node_ok(o, sh, root, -1, l as int));
    }
    if c != EMPTY {
        assert(node_ok(o, sh, root, -1, c as int));
    }
    if p != EMPTY {
        assert(node_ok(o, sh, root, -1, p as int));
    }
    assert forall|i: int| #![trigger n[i]] 0 <= i < m.len() && i != idx && i != min implies n[i] == renamed(
        m[i],
        idx,
        min,
    ) by {
        assert(node_ok(o, sh, root, -1, i));
    }
}

/// Filling the vacant slot `to` with the last node is a takeover, after
/// which the last slot is dropped.
pub(crate) proof fn lemma_compacted_took_over<T>(m: Seq<Node<T>>, root: usize, sh: Shape, to: usize)
    requires
        tree_ok(m, root, sh, to as int),
        to < m.len() - 1,
    ensures
        took_over(m, compacted(m, to).push(m.last()), (m.len() - 1) as usize, to),
        compacted(m, to).push(m.last())[to as int].val == m.last().val,
        compacted(m, to).push(m.last())[to as int].color == m.last().color,
        compacted(m, to).push(m.last()).drop_last() == compacted(m, to),
{
    let last = (m.len() - 1) as usize;
    let n = compacted(m, to).push(m.last());
    assert(node_ok(m, sh, root, to as int, last as int));
    let l = m[last as int].left;
    let r = m[last as int].right;
    let p = m[last as int].parent;
    if l != EMPTY {
        assert(node_ok(m, sh, root, to as int, l as int));
    }
    if r != EMPTY {
        assert(node_ok(m, sh, root, to as int, r as int));
    }
    if p != EMPTY {
        assert(node_ok(m, sh, root, to as int, p as int));
    }
    assert forall|i: int| #![trigger n[i]] 0 <= i < m.len() && i != last && i != to implies n[i] == renamed(
        m[i],
        last,
        to,
    ) by {
        assert(node_ok(m, sh, root, to as int, i));
    }
    assert(n.drop_last() =~= compacted(m, to));
}

/// The values of `n` are those of `o` after slot `idx` has been vacated and
/// filled with the last node of `o`.
pub open spec fn slot_vacated<T>(o: Seq<Node<T>>, n: Seq<Node<T>>, idx: int) -> bool {
    &&& n.len() == o.len() - 1
    &&& forall|i: int|
        #![trigger n[i]]
        0 <= i < n.len() ==> n[i].val == if i == idx {
            o.last().val
        } else {
            o[i].val
        }
}

/// The shape after slot `to` of an arena of `len` slots has been vacated and
/// filled with the last node.
pub open spec fn compacted_shape(sh: Shape, len: nat, to: usize) -> Shape {
    let last = (len - 1) as usize;
    if to == last {
        short_shape(sh)
    } else {
        short_shape(took_shape(sh, last, to))
    }
}

/// Filling the vacant slot with the last node gives a tree over the whole,
/// shorter arena, with the same in-order values and the same repair pending
/// under the new name of the node that moved.
pub(crate) proof fn lemma_compaction<T>(
    m: Seq<Node<T>>,
    root: usize,
    sh: Shape,
    to: usize,
    par: usize,
    x: usize,
    k: bool,
)
    requires
        tree_ok(m, root, sh, to as int),
        to < m.len(),
        remove_pending(m, root, sh.bh, to as int, par, x, k),
    ensures
        ({
            let last = (m.len() - 1) as usize;
            let n = compacted(m, to);
            let nsh = compacted_shape(sh, m.len(), to);
            let nroot = ren(root, last, to);
            &&& tree_ok(n, nroot, nsh, -1)
            &&& remove_pending(n, nroot, nsh.bh, -1, ren(par, last, to), ren(x, last, to), k)
            &&& inorder_of(n, nsh.order) == inorder_of(m, sh.order)
            &&& slot_vacated(m, n, to as int)
        }),
{
    let last = (m.len() - 1) as usize;
    if to == last {
        let p = m[last as int].parent;
        if p < m.len() && p != last {
            assert(node_ok(m, sh, root, to as int, p as int));
        }
        assert(compacted(m, to) =~= m.drop_last());
        lemma_drop_last_tree(m, root, sh);
        lemma_drop_last_colors(m, root, sh, par, x, k);
        lemma_drop_last_inorder(m, root, sh);
        if root != EMPTY {
            assert(node_ok(m, sh, root, to as int, root as int));
        }
    } else {
        let f = compacted(m, to).push(m.last());
        let fsh = took_shape(sh, last, to);
        let froot = ren(root, last, to);
        lemma_compacted_took_over(m, root, sh, to);
        lemma_takeover_tree(m, root, sh, f, last, to);
        lemma_takeover_colors(m, root, sh, f, last, to, par, x, k);
        lemma_takeover_inorder(m, root, sh, f, last, to);
        assert(node_ok(m, sh, root, to as int, last as int));
        assert(inorder_of(m, sh.order).update(sh.span[last as int].pos, f[to as int].val) =~= inorder_of(
            m,
            sh.order,
        ));
        lemma_drop_last_tree(f, froot, fsh);
        lemma_drop_last_colors(f, froot, fsh, ren(par, last, to), ren(x, last, to), k);
        lemma_drop_last_inorder(f, froot, fsh);
    }
}

/// An arena with its root after a splice, and what the splice hands to the
/// repair: the parent of the place that was vacated in the tree, the node
/// that was shifted into that place, and the color of the node that was
/// spliced out.
pub struct Spliced<T> {
    pub nodes: Seq<Node<T>>,
    pub root: usize,
    pub parent: usize,
    pub shifted: usize,
    pub color: bool,
}

/// The splice of the node `idx` out of the tree; slot `idx` is not part of
/// the tree afterwards.
///
/// A node with no right child is replaced by its left child and one with no
/// left child by its right child; the color handed on is that of the node.
/// A node with two children is replaced by the leftmost node `s` of its right
/// subtree: the right child of `s` takes the place of `s`, `s` takes the
/// place and the color of `idx`, and the color handed on is the one that `s`
/// had.
pub open spec fn splice_out<T>(o: Seq<Node<T>>, root: usize, idx: usize) -> Spliced<T> {
    let nd = o[idx as int];
    if nd.right == EMPTY || nd.left == EMPTY {
        let c = if nd.right == EMPTY {
            nd.left
        } else {
            nd.right
        };
        Spliced {
            nodes: shifted_up(o, c, idx),
            root: ren(root, idx, c),
            parent: nd.parent,
            shifted: c,
            color: nd.color,
        }
    } else {
        let s = leftmost(o, nd.right, o.len());
        let c = o[s as int].right;
        let n = if o[s as int].parent == idx {
            adopted(o, idx, s)
        } else {
            overwritten(shifted_up(o, c, s), s, idx)
        };
        Spliced {
            nodes: n.update(s as int, with_color(n[s as int], n[idx as int].color)),
            root: ren(root, idx, s),
            parent: ren(o[s as int].parent, idx, s),
            shifted: c,
            color: n[s as int].color,
        }
    }
}

/// The result of a splice after slot `idx` has been vacated in the arena and
/// filled with the last node, under whose new index the bookkeeping goes on.
pub open spec fn vacated<T>(sp: Spliced<T>, idx: usize) -> Spliced<T> {
    let last = (sp.nodes.len() - 1) as usize;
    Spliced {
        nodes: compacted(sp.nodes, idx),
        root: ren(sp.root, last, idx),
        parent: ren(sp.parent, last, idx),
        shifted: ren(sp.shifted, last, idx),
        color: sp.color,
    }
}

/// The arena after `key` has been taken out as out of a plain search tree:
/// the first node on the search path that holds `key` is spliced out and its
/// slot is vacated.
pub open spec fn bst_removed<T: PartialOrd>(o: Seq<Node<T>>, root: usize, key: T) -> Spliced<T> {
    let idx = search(o, root, key, o.len());
    vacated(splice_out(o, root, idx), idx)
}

/// The state after a node `idx` with no child on one side has been spliced out.
pub(crate) proof fn lemma_splice_one<T>(o: Seq<Node<T>>, root: usize, sh: Shape, idx: usize, side: bool)
    requires
        tree_ok(o, root, sh, -1),
        colored(o, root, sh.bh),
        idx < o.len(),
        kid(o[idx as int], !side) == EMPTY,
    ensures
        ({
            let c = kid(o[idx as int], side);
            let m = shifted_up(o, c, idx);
            let mroot = ren(root, idx, c);
            let msh = dropped_shape(sh, sh.span[idx as int].pos);
            &&& tree_ok(m, mroot, msh, idx as int)
            &&& remove_pending(m, mroot, msh.bh, idx as int, o[idx as int].parent, c, o[idx as int].color)
            &&& inorder_of(m, msh.order) == inorder_of(o, sh.order).remove(sh.span[idx as int].pos)
            &&& same_vals(o, m)
        }),
{
    let c = kid(o[idx as int], side);
    let m = shifted_up(o, c, idx);
    lemma_shifted_up_spliced(o, root, sh, idx, side);
    lemma_splice_tree(o, root, sh, m, idx, side);
    lemma_splice_colors(o, root, sh, m, idx, side);
    lemma_splice_inorder(o, root, sh, m, idx);
    assert(node_ok(o, sh, root, -1, idx as int));
}

/// The state after a node `idx` with two children has been replaced in the
/// tree by its in-order successor `s`, which takes its color.
pub(
    crate) proof fn lemma_splice_two<T>(o: Seq<Node<T>>,
    root: usize,
    sh: Shape,
    n: Seq<Node<T>>,
    idx: usize,
    s: usize,
)
    requires
        tree_ok(o, root, sh, -1),
        colored(o, root, sh.bh),
        idx < o.len(),
        s < o.len(),
        s != idx,
        o[s as int].left == EMPTY,
        o[s as int].parent != EMPTY,
        sh.span[s as int].pos == sh.span[idx as int].pos + 1,
        took_over(shifted_up(o, o[s as int].right, s), n, idx, s),
        n[s as int].val == o[s as int].val,
        n[s as int].color == o[idx as int].color,
        n[idx as int].val == o[idx as int].val,
    ensures
        ({
            let mroot = ren(root, idx, s);
            let msh = took_shape(dropped_shape(sh, sh.span[s as int].pos), idx, s);
            &&& tree_ok(n, mroot, msh, idx as int)
            &&& remove_pending(
                n,
                mroot,
                msh.bh,
                idx as int,
                ren(o[s as int].parent, idx, s),
                o[s as int].right,
                o[s as int].color,
            )
            &&& inorder_of(n, msh.order) == inorder_of(o, sh.order).remove(sh.span[idx as int].pos)
        }),
{
    let c = o[s as int].right;
    let m0 = shifted_up(o, c, s);
    let sh0 = dropped_shape(sh, sh.span[s as int].pos);
    assert(node_ok(o, sh, root, -1, s as int));
    assert(node_ok(o, sh, root, -1, idx as int));
    assert(node_ok(o, sh, root, -1, root as int));
    if c != EMPTY {
        assert(node_ok(o, sh, root, -1, c as int));
    }
    lemma_shifted_up_spliced(o, root, sh, s, false);
    lemma_splice_tree(o, root, sh, m0, s, false);
    lemma_splice_colors(o, root, sh, m0, s, false);
    lemma_splice_inorder(o, root, sh, m0, s);
    lemma_takeover_tree(m0, root, sh0, n, idx, s);
    lemma_takeover_colors(m0, root, sh0, n, idx, s, o[s as int].parent, c, o[s as int].color);
    lemma_takeover_inorder(m0, root, sh0, n, idx, s);
    let a = sh.span[idx as int].pos;
    let io = inorder_of(o, sh.order);
    io.remove_ensures(a);
    io.remove_ensures(a + 1);
    assert(slot_ok(o.len(), sh, -1, a + 1));
    assert(io.remove(a + 1).update(a, n[s as int].val) =~= io.remove(a));
}

/// Records for the repair that `shift` takes the place of `idx`.
pub(crate) fn set_r_data<T>(nodes: &Vec<Node<T>>, idx: usize, shift: usize, r_data: &mut RemovalData<T>)
    requires
        idx < nodes@.len(),
    ensures
        final(r_data).shifted == shift,
        final(r_data).parent == nodes@[idx as int].parent,
        final(r_data).color == nodes@[idx as int].color,
        final(r_data).val == old(r_data).val,
{
    r_data.shifted = shift;
    r_data.parent = nodes[idx].parent;
    r_data.color = nodes[idx].color;
}

/// Removes slot `to_remove` from the arena and returns the node that was in
/// it. The slot is filled with the last node of the arena, whose parent and
/// children are pointed at the new slot. Where `to_remove` is the last slot
/// itself, it is only dropped, after a parent that still names it as a child
/// has been made to hold no child there.
pub(crate) fn remove_node<T>(nodes: &mut Vec<Node<T>>, to_remove: usize) -> (r: Node<T>)
    requires
        to_remove < old(nodes)@.len(),
        to_remove != old(nodes)@.len() - 1 ==> ({
            let nd = old(nodes)@.last();
            let n = old(nodes)@.len();
            &&& nd.parent == EMPTY || nd.parent < n
            &&& nd.left == EMPTY || nd.left < n - 1
            &&& nd.right == EMPTY || nd.right < n - 1
        }),
    ensures
        final(nodes)@ == compacted(old(nodes)@, to_remove),
        r == if to_remove == old(nodes)@.len() - 1 {
            child_cleared(old(nodes)@, to_remove)[to_remove as int]
        } else {
            child_replaced(old(nodes)@, (old(nodes)@.len() - 1) as usize, to_remove)[to_remove as int]
        },
{
    let last = nodes.len() - 1;
    if to_remove == last {
        let p = nodes[last].parent;
        if p < nodes.len() {
            if nodes[p].left == last {
                nodes[p].left = EMPTY;
            }
            if nodes[p].right == last {
                nodes[p].right = EMPTY;
            }
        }
        proof {
            assert(nodes@ =~= child_cleared(old(nodes)@, last));
        }
        let hold_this = nodes.swap_remove(to_remove);
        proof {
            assert(nodes@ =~= child_cleared(old(nodes)@, last).drop_last());
        }
        hold_this
    } else {
        replace_child(nodes, last, to_remove);
        let hold_this = nodes.swap_remove(to_remove);
        link_with_children(nodes, to_remove);
        hold_this
    }
}

impl<T: PartialOrd> BTree<T> {
    /// Shifts `src` up into the place of `dest`, whose other child must be
    /// absent. `dest` is then no longer part of the tree. Returns `dest`.
    pub(crate) fn shift_up(b: &mut BTree<T>, src: usize, dest: usize) -> (r: usize)
        requires
            dest < old(b).nodes@.len(),
            src == EMPTY || src < old(b).nodes@.len(),
            old(b).nodes@[dest as int].parent == EMPTY || old(b).nodes@[dest as int].parent < old(
                b,
            ).nodes@.len(),
        ensures
            final(b).nodes@ == shifted_up(old(b).nodes@, src, dest),
            final(b).root_idx == ren(old(b).root_idx, dest, src),
            final(b).shape@ == old(b).shape@,
            r == dest,
    {
        if src != EMPTY {
            let p = b.nodes[dest].parent;
            b.nodes[src].parent = p;
        }
        replace_child(&mut b.nodes, dest, src);
        if b.root_idx == dest {
            b.root_idx = src;
        }
        dest
    }

    /// Moves `src` over the top of `dest`: `src` takes the links of `dest`,
    /// and `dest` is then no longer part of the tree. Returns `dest`.
    pub(crate) fn overwrite(b: &mut BTree<T>, src: usize, dest: usize) -> (r: usize)
        requires
            dest < old(b).nodes@.len(),
            src == EMPTY || src < old(b).nodes@.len(),
            ({
                let d = old(b).nodes@[dest as int];
                let n = old(b).nodes@.len();
                &&& d.parent == EMPTY || d.parent < n
                &&& d.left == EMPTY || d.left < n
                &&& d.right == EMPTY || d.right < n
            }),
        ensures
            final(b).nodes@ == overwritten(old(b).nodes@, src, dest),
            final(b).root_idx == ren(old(b).root_idx, dest, src),
            final(b).shape@ == old(b).shape@,
            r == dest,
    {
        if src != EMPTY {
            let l = b.nodes[dest].left;
            let r = b.nodes[dest].right;
            let p = b.nodes[dest].parent;
            b.nodes[src].left = l;
            b.nodes[src].right = r;
            b.nodes[src].parent = p;
            proof {
                let o = old(b).nodes@;
                assert(b.nodes@ =~= o.update(
                    src as int,
                    Node { left: l, right: r, parent: p, ..o[src as int] },
                ));
            }
            link_with_children(&mut b.nodes, src);
        }
        replace_child(&mut b.nodes, dest, src);
        if b.root_idx == dest {
            b.root_idx = src;
        }
        dest
    }

    /// Puts `min`, the in-order successor of `idx`, into the place of `idx`
    /// in the tree, after the right child `right_of_min` of `min` has taken
    /// the place of `min`. `idx` is then no longer part of the tree. Returns
    /// the parent of the place that `min` left.
    pub(crate) fn min_shift(b: &mut BTree<T>, idx: usize, min: usize, right_of_min: usize) -> (parent: usize)
        requires
            old(b).linked(),
            idx < old(b).nodes@.len(),
            min < old(b).nodes@.len(),
            min != idx,
            old(b).nodes@[min as int].left == EMPTY,
            old(b).nodes@[min as int].parent != EMPTY,
            old(b).nodes@[min as int].parent == idx ==> old(b).nodes@[idx as int].right == min,
            right_of_min == old(b).nodes@[min as int].right,
        ensures
            final(b).nodes@ == if old(b).nodes@[min as int].parent == idx {
                adopted(old(b).nodes@, idx, min)
            } else {
                overwritten(shifted_up(old(b).nodes@, right_of_min, min), min, idx)
            },
            took_over(shifted_up(old(b).nodes@, right_of_min, min), final(b).nodes@, idx, min),
            same_vals(old(b).nodes@, final(b).nodes@),
            final(b).nodes@[min as int].color == old(b).nodes@[min as int].color,
            final(b).nodes@[idx as int].color == old(b).nodes@[idx as int].color,
            final(b).root_idx == ren(old(b).root_idx, idx, min),
            final(b).shape@ == old(b).shape@,
            parent == ren(old(b).nodes@[min as int].parent, idx, min),
    {
        let ghost o = b.nodes@;
        let ghost sh = b.shape@;
        let ghost root = b.root_idx;
        proof {
            assert(node_ok(o, sh, root, -1, idx as int));
            assert(node_ok(o, sh, root, -1, min as int));
            assert(node_ok(o, sh, root, -1, root as int));
            if right_of_min != EMPTY {
                assert(node_ok(o, sh, root, -1, right_of_min as int));
            }
        }
        let parent = if b.nodes[min].parent == idx {
            min
        } else {
            b.nodes[min].parent
        };
        if parent == min {
            // min is the right child of idx
            let l = b.nodes[idx].left;
            let p = b.nodes[idx].parent;
            b.nodes[min].left = l;
            b.nodes[min].parent = p;
            proof {
                assert(b.nodes@ =~= o.update(min as int, Node { left: l, parent: p, ..o[min as int] }));
            }
            replace_child(&mut b.nodes, idx, min);
            link_with_children(&mut b.nodes, min);
            if b.root_idx == idx {
                b.root_idx = min;
            }
            proof {
                lemma_adopted_took_over(o, root, sh, idx, min);
            }
        } else {
            Self::shift_up(b, right_of_min, min);
            proof {
                lemma_shifted_up_spliced(o, root, sh, min, false);
                lemma_splice_tree(o, root, sh, b.nodes@, min, false);
                let m = b.nodes@;
                let msh = dropped_shape(sh, sh.span[min as int].pos);
                assert(node_ok(m, msh, b.root_idx, min as int, idx as int));
                lemma_overwritten_took_over(m, b.root_idx, msh, idx, min);
                assert(same_vals(o, m));
                assert(m[idx as int].color == o[idx as int].color);
                assert(m[min as int].color == o[min as int].color);
            }
            Self::overwrite(b, min, idx);
        }
        parent
    }

    /// Renames the last slot of the arena to `idx` in the bookkeeping of a
    /// removal and in the root index, ahead of the move of the last node
    /// into slot `idx`.
    pub(crate) fn adjust_for_removal(b: &mut BTree<T>, idx: usize, r_data: &mut RemovalData<T>)
        requires
            old(b).nodes@.len() > 0,
        ensures
            final(b).nodes@ == old(b).nodes@,
            final(b).shape@ == old(b).shape@,
            final(b).root_idx == ren(old(b).root_idx, (old(b).nodes@.len() - 1) as usize, idx),
            final(r_data).parent == ren(old(r_data).parent, (old(b).nodes@.len() - 1) as usize, idx),
            final(r_data).shifted == ren(old(r_data).shifted, (old(b).nodes@.len() - 1) as usize, idx),
            final(r_data).color == old(r_data).color,
            final(r_data).val == old(r_data).val,
    {
        let last = b.nodes.len() - 1;
        if r_data.parent == last {
            r_data.parent = idx;
        }
        if r_data.shifted == last {
            r_data.shifted = idx;
        }
        if b.root_idx == last {
            b.root_idx = idx;
        }
    }
}

impl<T: PartialOrd> BTree<T> {
    /// Takes `key`, which the tree must hold, out of the tree as out of a
    /// plain binary search tree, and vacates its arena slot. The coloring is
    /// left to be repaired as the result says.
    ///
    /// A node without a right child is replaced by its left child, one
    /// without a left child by its right child. A node with two children is
    /// replaced by its in-order successor, which takes its color and leaves
    /// its own place to its right child.
    #[verifier::rlimit(80)]
    pub fn bst_remove(b: &mut BTree<T>, key: T) -> (r: RemovalData<T>)
        requires
            total_order::<T>(),
            old(b).wf(),
            old(b)@.count(key) > 0,
        ensures
            final(b).is_linked(),
            final(b).is_bst(),
            final(b).pending(r.parent, r.shifted, r.color),
            r.color == RED ==> final(b).wf(),
            r.val == key,
            bst_removed(old(b).arena(), old(b).root(), key) == (Spliced {
                nodes: final(b).arena(),
                root: final(b).root(),
                parent: r.parent,
                shifted: r.shifted,
                color: r.color,
            }),
            final(b)@ == old(b)@.remove(key),
            final(b)@.len() == old(b)@.len() - 1,
            exists|at: int|
                0 <= at < old(b).inorder().len() && old(b).inorder()[at] == key
                    && final(b).inorder() == old(b).inorder().remove(at),
            exists|idx: int|
                0 <= idx < old(b).arena().len() && old(b).arena()[idx].val == key && slot_vacated(
                    old(b).arena(),
                    final(b).arena(),
                    idx,
                ),
    {
        let ghost o = b.nodes@;
        let ghost sh = b.shape@;
        let ghost root = b.root_idx;
        let ghost io = inorder_of(o, sh.order);
        proof {
            b.unfold();
            vstd::seq_lib::to_multiset_contains(io, key);
        }
        let idx = Self::find_index(b, &key);
        proof {
            if idx == EMPTY {
                let p = choose|p: int| 0 <= p < io.len() && io[p] == key;
                assert(key_at(o, sh.order, p) == key);
            }
            assert(node_ok(o, sh, root, -1, idx as int));
        }
        let ghost at = sh.span[idx as int].pos;
        let mut r_data = RemovalData { parent: EMPTY, shifted: EMPTY, color: RED, val: key };
        if b.nodes[idx].right == EMPTY {
            let left = b.nodes[idx].left;
            set_r_data(&b.nodes, idx, left, &mut r_data);
            Self::shift_up(b, r_data.shifted, idx);  // idx is now an orphan
            proof {
                lemma_splice_one(o, root, sh, idx, true);
                b.shape@ = dropped_shape(sh, at);
                assert(splice_out(o, root, idx).nodes == b.nodes@);
            }
        } else if b.nodes[idx].left == EMPTY {
            let right = b.nodes[idx].right;
            set_r_data(&b.nodes, idx, right, &mut r_data);
            Self::shift_up(b, r_data.shifted, idx);  // idx is now an orphan
            proof {
                lemma_splice_one(o, root, sh, idx, false);
                b.shape@ = dropped_shape(sh, at);
                assert(splice_out(o, root, idx).nodes == b.nodes@);
            }
        } else {
            // two children: the in-order successor takes the place
            let right = b.nodes[idx].right;
            proof {
                assert(node_ok(o, sh, root, -1, right as int));
            }
            let min = Self::min_in_subtree(b, right);
            proof {
                assert(node_ok(o, sh, root, -1, min as int));
            }
            r_data.shifted = b.nodes[min].right;
            r_data.parent = Self::min_shift(b, idx, min, r_data.shifted);
            r_data.color = b.nodes[min].color;
            let c = b.nodes[idx].color;
            b.nodes[min].color = c;
            proof {
                lemma_splice_two(o, root, sh, b.nodes@, idx, min);
                b.shape@ = took_shape(dropped_shape(sh, sh.span[min as int].pos), idx, min);
                assert(splice_out(o, root, idx).nodes == b.nodes@);
            }
        }
        let ghost m = b.nodes@;
        let ghost mroot = b.root_idx;
        let ghost msh = b.shape@;
        let ghost last = (m.len() - 1) as usize;
        let ghost sp = splice_out(o, root, idx);
        proof {
            assert(sp == (Spliced {
                nodes: m,
                root: mroot,
                parent: r_data.parent,
                shifted: r_data.shifted,
                color: r_data.color,
            }));
            assert(tree_ok(m, mroot, msh, idx as int));
            assert(remove_pending(m, mroot, msh.bh, idx as int, r_data.parent, r_data.shifted, r_data.color));
            assert(inorder_of(m, msh.order) == io.remove(at));
            assert(same_vals(o, m));
            assert(m[idx as int].val == key);
            if idx != last {
                assert(node_ok(m, msh, mroot, idx as int, last as int));
                let l = m[last as int].left;
                let r = m[last as int].right;
                if l != EMPTY {
                    assert(node_ok(m, msh, mroot, idx as int, l as int));
                }
                if r != EMPTY {
                    assert(node_ok(m, msh, mroot, idx as int, r as int));
                }
            }
        }
        let ghost par = r_data.parent;
        let ghost x = r_data.shifted;
        Self::adjust_for_removal(b, idx, &mut r_data);
        // remove idx from the arena and put the last node of the arena in its slot
        let hold = remove_node(&mut b.nodes, idx);
        r_data.val = hold.val;
        proof {
            lemma_compaction(m, mroot, msh, idx, par, x, r_data.color);
            b.shape@ = compacted_shape(msh, m.len(), idx);
            lemma_sorted_inorder(o, sh.order);
            lemma_remove_sorted(io, at);
            lemma_sorted_inorder(b.nodes@, b.shape@.order);
            vstd::seq_lib::to_multiset_remove(io, at);
            vstd::seq_lib::to_multiset_len(io);
            vstd::seq_lib::to_multiset_len(io.remove(at));
            b.unfold();
            assert(key_at(o, sh.order, at) == key);
            assert(io[at] == key);
            assert(b.inorder() == old(b).inorder().remove(at));
            assert(slot_vacated(o, b.nodes@, idx as int));
        }
        r_data
    }
}

/// The arena and the root after the removal of `key`. Where the search
/// finds no node that holds `key`, nothing changes. Else `key` is taken out
/// as out of a plain search tree, and where the node that was spliced out
/// was black, the coloring is repaired: a red node that took its place turns
/// black, and for a black or absent one the repair runs up the tree.
pub open spec fn removed<T: PartialOrd>(o: Seq<Node<T>>, root: usize, key: T) -> (Seq<Node<T>>, usize) {
    let sp = bst_removed(o, root, key);
    if search(o, root, key, o.len()) == EMPTY {
        (o, root)
    } else if sp.color == RED {
        (sp.nodes, sp.root)
    } else if black(sp.nodes, sp.shifted) {
        repaired(sp.nodes, sp.root, sp.parent, sp.shifted, sp.nodes.len() + 1)
    } else {
        (sp.nodes.update(sp.shifted as int, with_color(sp.nodes[sp.shifted as int], BLACK)), sp.root)
    }
}

/// Why an operation on the tree failed.
#[derive(Debug, PartialEq, Eq, Clone, Copy)]
pub enum TreeError {
    /// The value to be removed is not in the tree.
    KeyNotFound,
}

impl<T: PartialOrd> BTree<T> {
    /// Removes one occurrence of `key` and returns the removed value; fails
    /// with `KeyNotFound`, leaving the tree as it is, if the tree does not
    /// hold `key`. The node is spliced out of the tree, its arena slot is
    /// filled with the last node of the arena, and the coloring is repaired.
    pub fn remove(&mut self, key: T) -> (r: Result<T, TreeError>)
        requires
            total_order::<T>(),
            old(self).wf(),
        ensures
            final(self).wf(),
            all_ok(final(self).arena(), final(self).root()),
            seq_sorted(final(self).inorder()),
            r == if old(self)@.count(key) > 0 {
                Ok::<T, TreeError>(key)
            } else {
                Err::<T, TreeError>(TreeError::KeyNotFound)
            },
            (final(self).arena(), final(self).root()) == removed(old(self).arena(), old(self).root(), key),
            final(self)@ == old(self)@.remove(key),
            old(self)@.count(key) == 0 ==> final(self).arena() == old(self).arena(),
            old(self)@.count(key) == 0 ==> final(self).root() == old(self).root(),
            old(self)@.count(key) == 0 ==> final(self).inorder() == old(self).inorder(),
            old(self)@.count(key) == 0 ==> final(self)@ == old(self)@,
            old(self)@.count(key) > 0 ==> final(self)@.len() == old(self)@.len() - 1,
            old(self)@.count(key) > 0 ==> (exists|at: int|
                0 <= at < old(self).inorder().len() && old(self).inorder()[at] == key
                    && final(self).inorder() == old(self).inorder().remove(at)),
            old(self)@.count(key) > 0 ==> (exists|idx: int|
                0 <= idx < old(self).arena().len() && old(self).arena()[idx].val == key && slot_vacated(
                    old(self).arena(),
                    final(self).arena(),
                    idx,
                )),
    {
        let ghost o = self.nodes@;
        let ghost io = inorder_of(o, self.shape@.order);
        proof {
            self.unfold();
            vstd::seq_lib::to_multiset_contains(io, key);
        }
        let found = Self::find_index(self, &key);
        proof {
            if found != EMPTY {
                assert(node_ok(o, self.shape@, self.root_idx, -1, found as int));
                assert(io[self.shape@.span[found as int].pos] == key);
            } else if io.contains(key) {
                let p = choose|p: int| 0 <= p < io.len() && io[p] == key;
                assert(key_at(o, self.shape@.order, p) == key);
            }
        }
        if found == EMPTY {
            proof {
                broadcast use vstd::multiset::group_multiset_axioms;

                assert(self@.remove(key) =~= self@);
                self.law_valid();
                self.law_inorder_sorted();
            }
            return Err(TreeError::KeyNotFound);
        }
        let res = Self::bst_remove(self, key);
        let ghost m = self.nodes@;
        let ghost msh = self.shape@;
        let ghost mroot = self.root_idx;
        proof {
            self.unfold();
        }
        // was the node that was spliced out black
        if res.color == BLACK {
            if is_black(&self.nodes, res.shifted) {
                // the replacement is black, the tree must be fixed
                Self::balance_remove(self, res.parent, res.shifted);
            } else {
                // the replacement is red
                self.nodes[res.shifted].color = BLACK;
                proof {
                    lemma_blacken_shifted(m, mroot, msh, res.parent, res.shifted);
                    self.shape@ = Shape {
                        bh: msh.bh.update(res.shifted as int, msh.bh[res.shifted as int] + 1),
                        ..msh
                    };
                    lemma_same_links_tree(m, self.nodes@, mroot, msh, self.shape@, -1);
                }
            }
        }
        proof {
            lemma_same_vals_inorder(m, self.nodes@, mroot, msh, -1);
            self.unfold();
            old(self).unfold();
            let idx = choose|idx: int| 0 <= idx < o.len() && o[idx].val == key && slot_vacated(o, m, idx);
            assert(slot_vacated(o, self.nodes@, idx));
            self.law_valid();
            self.law_inorder_sorted();
        }
        Ok(res.val)
    }
}

} // verus!
