//! Lookups that read the tree without changing it.
use crate::node::black;
use crate::node::inorder_of;
use crate::node::key_at;
use crate::node::node_ok;
use crate::node::Node;
use crate::node::BLACK;
use crate::node::EMPTY;
use crate::order::le;
use crate::order::lt;
use crate::order::total_order;
use crate::rotate::kid;
use crate::tree::BTree;
use vstd::prelude::*;

verus! {

/// A value `v` goes to in-order position `at`: nothing before `at` is above
/// `v`, and everything from `at` on is strictly above it. So `v` comes after
/// the values that equal it.
pub open spec fn fits<T: PartialOrd>(nodes: Seq<Node<T>>, order: Seq<int>, v: T, at: int) -> bool {
    &&& forall|p: int| 0 <= p < at && p < order.len() ==> le(#[trigger] key_at(nodes, order, p), v)
    &&& forall|p: int| at <= p < order.len() ==> lt(v, #[trigger] key_at(nodes, order, p))
}

/// The node that the search for a place for `key` ends at, from `idx` down
/// through at most `fuel` levels: the path goes left where `key` is strictly
/// below a node and right otherwise, and ends at the node that has no child
/// on that side.
pub open spec fn descend<T: PartialOrd>(nodes: Seq<Node<T>>, idx: usize, key: T, fuel: nat) -> usize
    decreases fuel,
{
    let next = kid(nodes[idx as int], lt(key, nodes[idx as int].val));
    if fuel == 0 || next == EMPTY {
        idx
    } else {
        descend(nodes, next, key, (fuel - 1) as nat)
    }
}

/// The first node that holds `key` on the search path from `idx` down
/// through at most `fuel` levels, or `EMPTY` if the path ends without one.
/// The path goes left where `key` is strictly below a node and right
/// otherwise.
pub open spec fn search<T: PartialOrd>(nodes: Seq<Node<T>>, idx: usize, key: T, fuel: nat) -> usize
    decreases fuel,
{
    if idx == EMPTY || fuel == 0 {
        EMPTY
    } else if key == nodes[idx as int].val {
        idx
    } else {
        search(nodes, kid(nodes[idx as int], lt(key, nodes[idx as int].val)), key, (fuel - 1) as nat)
    }
}

/// The node that the path from `idx` along the left children ends at,
/// through at most `fuel` levels.
pub open spec fn leftmost<T>(nodes: Seq<Node<T>>, idx: usize, fuel: nat) -> usize
    decreases fuel,
{
    if fuel == 0 || nodes[idx as int].left == EMPTY {
        idx
    } else {
        leftmost(nodes, nodes[idx as int].left, (fuel - 1) as nat)
    }
}

/// Every occurrence of `v` among the in-order values lies in `lo..hi`.
pub open spec fn confined<T>(nodes: Seq<Node<T>>, order: Seq<int>, v: T, lo: int, hi: int) -> bool {
    forall|p: int| 0 <= p < order.len() && #[trigger] key_at(nodes, order, p) == v ==> lo <= p < hi
}

/// The other child of the parent of `idx`; that parent must exist.
pub(crate) fn btree_sib<T>(nodes: &Vec<Node<T>>, idx: usize) -> (sib: usize)
    requires
        idx < nodes@.len(),
        nodes@[idx as int].parent < nodes@.len(),
    ensures
        sib == kid(
            nodes@[nodes@[idx as int].parent as int],
            nodes@[nodes@[idx as int].parent as int].right == idx,
        ),
{
    let par_idx = nodes[idx].parent;
    if nodes[par_idx].right == idx {
        nodes[par_idx].left
    } else {
        nodes[par_idx].right
    }
}

/// The child of `idx` that is not `shift`: the right one if `shift` is the
/// left one, else the left one.
pub(crate) fn get_sib<T>(nodes: &Vec<Node<T>>, idx: usize, shift: usize) -> (sib: usize)
    requires
        idx < nodes@.len(),
    ensures
        sib == kid(nodes@[idx as int], nodes@[idx as int].left != shift),
{
    if nodes[idx].left == shift {
        nodes[idx].right
    } else {
        nodes[idx].left
    }
}

/// Whether `idx` is black; an absent node is.
pub(crate) fn is_black<T>(n: &Vec<Node<T>>, idx: usize) -> (r: bool)
    requires
        idx == EMPTY || idx < n@.len(),
    ensures
        r == black(n@, idx),
{
    idx == EMPTY || n[idx].color == BLACK
}

impl<T: PartialOrd> BTree<T> {
    /// The node under which `val` is to be inserted: the last node on the
    /// path that goes left where `val` is strictly below a node and right
    /// otherwise. The tree must not be empty.
    pub(crate) fn find_available_parent(b: &BTree<T>, val: &T) -> (q: usize)
        requires
            total_order::<T>(),
            b.linked(),
            b.ordered(),
            b.nodes@.len() > 0,
        ensures
            q == descend(b.nodes@, b.root_idx, *val, b.nodes@.len()),
            q < b.nodes@.len(),
            kid(b.nodes@[q as int], lt(*val, b.nodes@[q as int].val)) == EMPTY,
            fits(
                b.nodes@,
                b.shape@.order,
                *val,
                if lt(*val, b.nodes@[q as int].val) {
                    b.shape@.span[q as int].pos
                } else {
                    b.shape@.span[q as int].pos + 1
                },
            ),
    {
        let ghost nodes = b.nodes@;
        let ghost sh = b.shape@;
        let mut idx = b.root_idx;
        let mut idx_ret = idx;
        let ghost mut fuel = nodes.len();
        proof {
            assert(node_ok(nodes, sh, b.root_idx, -1, idx as int));
        }
        loop
            invariant_except_break
                idx < nodes.len(),
                fuel >= sh.span[idx as int].hi - sh.span[idx as int].lo,
                descend(nodes, idx, *val, fuel) == descend(nodes, b.root_idx, *val, nodes.len()),
                forall|p: int| 0 <= p < sh.span[idx as int].lo ==> le(#[trigger] key_at(nodes, sh.order, p), *val),
                forall|p: int|
                    sh.span[idx as int].hi <= p < nodes.len() ==> lt(
                        *val,
                        #[trigger] key_at(nodes, sh.order, p),
                    ),
            invariant
                total_order::<T>(),
                b.linked(),
                b.ordered(),
                nodes == b.nodes@,
                sh == b.shape@,
            ensures
                idx_ret == descend(nodes, b.root_idx, *val, nodes.len()),
                idx_ret < nodes.len(),
                kid(nodes[idx_ret as int], lt(*val, nodes[idx_ret as int].val)) == EMPTY,
                fits(
                    nodes,
                    sh.order,
                    *val,
                    if lt(*val, nodes[idx_ret as int].val) {
                        sh.span[idx_ret as int].pos
                    } else {
                        sh.span[idx_ret as int].pos + 1
                    },
                ),
            decreases sh.span[idx as int].hi - sh.span[idx as int].lo,
        {
            idx_ret = idx;
            let go_left = val.lt(&b.nodes[idx].val);
            proof {
                assert(node_ok(nodes, sh, b.root_idx, -1, idx as int));
                let c = sh.span[idx as int].pos;
                assert(key_at(nodes, sh.order, c) == nodes[idx as int].val);
                if go_left {
                    assert forall|p: int| c <= p < nodes.len() implies lt(
                        *val,
                        #[trigger] key_at(nodes, sh.order, p),
                    ) by {
                        assert(lt(*val, key_at(nodes, sh.order, c)));
                        if p > c {
                            assert(le(key_at(nodes, sh.order, c), key_at(nodes, sh.order, p)));
                        }
                    }
                } else {
                    assert forall|p: int| 0 <= p < c + 1 implies le(
                        #[trigger] key_at(nodes, sh.order, p),
                        *val,
                    ) by {
                        if p < c {
                            assert(le(key_at(nodes, sh.order, p), key_at(nodes, sh.order, c)));
                        }
                    }
                }
            }
            idx = if go_left {
                b.nodes[idx].left
            } else {
                b.nodes[idx].right
            };
            if idx == EMPTY {
                break ;
            }
            proof {
                assert(node_ok(nodes, sh, b.root_idx, -1, idx as int));
                fuel = (fuel - 1) as nat;
            }
        }
        idx_ret
    }

    /// The index of a node that holds `val`, or `EMPTY` if no node does.
    pub(crate) fn find_index(b: &BTree<T>, val: &T) -> (r: usize)
        requires
            total_order::<T>(),
            b.linked(),
            b.ordered(),
        ensures
            r == search(b.nodes@, b.root_idx, *val, b.nodes@.len()),
            r == EMPTY || r < b.nodes@.len(),
            r != EMPTY ==> b.nodes@[r as int].val == *val,
            r == EMPTY ==> confined(b.nodes@, b.shape@.order, *val, 0, 0),
    {
        let ghost nodes = b.nodes@;
        let ghost sh = b.shape@;
        let mut idx = b.root_idx;
        let ghost mut lo: int = 0;
        let ghost mut hi: int = nodes.len() as int;
        let ghost mut fuel = nodes.len();
        proof {
            if idx != EMPTY {
                assert(node_ok(nodes, sh, b.root_idx, -1, idx as int));
            }
        }
        while idx != EMPTY
            invariant
                search(nodes, idx, *val, fuel) == search(nodes, b.root_idx, *val, nodes.len()),
                fuel >= hi - lo,
                total_order::<T>(),
                b.linked(),
                b.ordered(),
                nodes == b.nodes@,
                sh == b.shape@,
                idx == EMPTY || idx < nodes.len(),
                idx != EMPTY ==> sh.span[idx as int].lo == lo && sh.span[idx as int].hi == hi,
                idx == EMPTY ==> lo == hi,
                0 <= lo <= hi <= nodes.len(),
                confined(nodes, sh.order, *val, lo, hi),
            decreases hi - lo,
        {
            proof {
                assert(node_ok(nodes, sh, b.root_idx, -1, idx as int));
            }
            if val.eq(&b.nodes[idx].val) {
                return idx;
            }
            let go_left = val.lt(&b.nodes[idx].val);
            proof {
                let c = sh.span[idx as int].pos;
                assert(key_at(nodes, sh.order, c) == nodes[idx as int].val);
                if go_left {
                    assert forall|p: int|
                        0 <= p < sh.order.len() && #[trigger] key_at(nodes, sh.order, p) == *val implies lo
                        <= p < c by {
                        assert(lt(*val, key_at(nodes, sh.order, c)));
                        if p > c {
                            assert(le(key_at(nodes, sh.order, c), key_at(nodes, sh.order, p)));
                            assert(lt(*val, *val));
                        }
                    }
                    hi = c;
                } else {
                    assert forall|p: int|
                        0 <= p < sh.order.len() && #[trigger] key_at(nodes, sh.order, p) == *val implies c
                        + 1 <= p < hi by {
                        assert(lt(key_at(nodes, sh.order, c), *val));
                        if p < c {
                            assert(le(key_at(nodes, sh.order, p), key_at(nodes, sh.order, c)));
                            assert(lt(*val, *val));
                        }
                    }
                    lo = c + 1;
                }
            }
            idx = if go_left {
                b.nodes[idx].left
            } else {
                b.nodes[idx].right
            };
            proof {
                if idx != EMPTY {
                    assert(node_ok(nodes, sh, b.root_idx, -1, idx as int));
                }
                fuel = (fuel - 1) as nat;
            }
        }
        EMPTY
    }

    /// Whether the tree holds `value`.
    pub fn find(&self, value: &T) -> (r: bool)
        requires
            total_order::<T>(),
            self.is_linked(),
            self.is_bst(),
        ensures
            r == (self@.count(*value) > 0),
            r == self.inorder().contains(*value),
    {
        proof {
            self.unfold();
            vstd::seq_lib::to_multiset_contains(self.inorder(), *value);
        }
        let idx = Self::find_index(self, value);
        proof {
            let io = inorder_of(self.nodes@, self.shape@.order);
            if idx != EMPTY {
                assert(node_ok(self.nodes@, self.shape@, self.root_idx, -1, idx as int));
                let p = self.shape@.span[idx as int].pos;
                assert(io[p] == *value);
            } else {
                if io.contains(*value) {
                    let p = choose|p: int| 0 <= p < io.len() && io[p] == *value;
                    assert(key_at(self.nodes@, self.shape@.order, p) == *value);
                }
            }
        }
        idx != EMPTY
    }

    /// The leftmost node of the subtree rooted at `idx`.
    pub(crate) fn min_in_subtree(b: &BTree<T>, idx: usize) -> (r: usize)
        requires
            b.linked(),
            idx < b.nodes@.len(),
        ensures
            r == leftmost(b.nodes@, idx, b.nodes@.len()),
            r < b.nodes@.len(),
            b.nodes@[r as int].left == EMPTY,
            b.shape@.span[r as int].lo == b.shape@.span[idx as int].lo,
            b.shape@.span[r as int].pos == b.shape@.span[idx as int].lo,
            b.shape@.span[r as int].hi <= b.shape@.span[idx as int].hi,
            r == idx || b.nodes@[r as int].parent != EMPTY,
    {
        let ghost start = idx;
        let mut idx = idx;
        let ghost mut fuel = b.nodes@.len();
        proof {
            assert(node_ok(b.nodes@, b.shape@, b.root_idx, -1, idx as int));
        }
        while b.nodes[idx].left != EMPTY
            invariant
                leftmost(b.nodes@, idx, fuel) == leftmost(b.nodes@, start, b.nodes@.len()),
                fuel >= b.shape@.span[idx as int].hi - b.shape@.span[idx as int].lo,
                b.linked(),
                idx < b.nodes@.len(),
                start < b.nodes@.len(),
                b.shape@.span[idx as int].lo == b.shape@.span[start as int].lo,
                b.shape@.span[idx as int].hi <= b.shape@.span[start as int].hi,
                idx == start || b.nodes@[idx as int].parent != EMPTY,
                node_ok(b.nodes@, b.shape@, b.root_idx, -1, idx as int),
            decreases b.shape@.span[idx as int].hi - b.shape@.span[idx as int].lo,
        {
            idx = b.nodes[idx].left;
            proof {
                assert(node_ok(b.nodes@, b.shape@, b.root_idx, -1, idx as int));
                fuel = (fuel - 1) as nat;
            }
        }
        idx
    }
}

} // verus!
