use rbtree::assert_all;
use rbtree::assert_black_count;
use rbtree::assert_colors;
use rbtree::assert_is_bst;
use rbtree::assert_is_dlinked;
use rbtree::assert_is_rbtree;
use rbtree::BTree;
use rbtree::Node;
use rbtree::TreeError;
use rbtree::BLACK;
use rbtree::EMPTY;
use rbtree::RED;

fn build(values: &[i32]) -> BTree<i32> {
    let mut b = BTree::new();
    for v in values {
        b.insert(*v);
    }
    b
}

fn walk(nodes: &Vec<Node<i32>>, idx: usize, out: &mut Vec<i32>) {
    if idx == EMPTY {
        return;
    }
    walk(nodes, nodes[idx].left, out);
    out.push(nodes[idx].val);
    walk(nodes, nodes[idx].right, out);
}

fn in_order(b: &BTree<i32>) -> Vec<i32> {
    let mut out = Vec::new();
    walk(b.nodes(), b.root_idx(), &mut out);
    out
}

fn walk_slots(nodes: &Vec<Node<i32>>, idx: usize, out: &mut Vec<usize>) {
    if idx == EMPTY {
        return;
    }
    walk_slots(nodes, nodes[idx].left, out);
    out.push(idx);
    walk_slots(nodes, nodes[idx].right, out);
}

fn sorted_copy(values: &[i32]) -> Vec<i32> {
    let mut v = values.to_vec();
    v.sort();
    v
}

fn node(val: i32, color: bool, parent: usize, left: usize, right: usize) -> Node<i32> {
    Node { val, color, parent, left, right }
}

#[test]
fn single_insert_gives_a_black_root() {
    let mut b = BTree::new();
    b.insert(43);
    assert_eq!(b.size(), 1);
    let root = b.root_idx();
    assert_eq!(b.nodes()[root].val, 43);
    assert_eq!(b.nodes()[root].color, BLACK);
    assert_eq!(b.nodes()[root].parent, EMPTY);
    assert!(assert_all(&b));
}

#[test]
fn seven_ascending_values() {
    let b = build(&[1, 2, 3, 4, 5, 6, 7]);
    assert_eq!(b.size(), 7);
    let root = b.root_idx();
    assert_eq!(b.nodes()[root].color, BLACK);
    assert_eq!(b.nodes()[root].val, 2);
    assert!(assert_colors(b.nodes(), root));
    assert_eq!(assert_black_count(b.nodes(), root), Some(3));
    assert!(assert_is_rbtree(&b));
    assert!(assert_all(&b));
    assert_eq!(in_order(&b), vec![1, 2, 3, 4, 5, 6, 7]);
}

#[test]
fn red_uncle_is_recolored_without_rotation() {
    let mut b = build(&[15, 5, 20]);
    let root = b.root_idx();
    assert_eq!(b.nodes()[root].val, 15);
    b.insert(10);
    // the red uncle is recolored; no node changes its place
    assert_eq!(b.root_idx(), root);
    let nodes = b.nodes();
    let five = nodes[root].left;
    let twenty = nodes[root].right;
    assert_eq!(nodes[five].val, 5);
    assert_eq!(nodes[twenty].val, 20);
    assert_eq!(nodes[five].color, BLACK);
    assert_eq!(nodes[twenty].color, BLACK);
    assert_eq!(nodes[root].color, BLACK);
    let ten = nodes[five].right;
    assert_eq!(nodes[ten].val, 10);
    assert_eq!(nodes[ten].color, RED);
    assert_eq!(nodes[five].left, EMPTY);
    assert!(assert_all(&b));

    b.insert(17);
    assert!(assert_all(&b));
    assert_eq!(in_order(&b), vec![5, 10, 15, 17, 20]);
    assert_eq!(b.size(), 5);
}

#[test]
fn outer_grandchild_takes_one_rotation() {
    // 3 goes below the red 2 below the black 1 with no sibling: one rotation
    let b = build(&[1, 2, 3]);
    let root = b.root_idx();
    let nodes = b.nodes();
    assert_eq!(nodes[root].val, 2);
    assert_eq!(nodes[root].color, BLACK);
    assert_eq!(nodes[nodes[root].left].val, 1);
    assert_eq!(nodes[nodes[root].right].val, 3);
    assert_eq!(nodes[nodes[root].left].color, RED);
    assert_eq!(nodes[nodes[root].right].color, RED);
    assert!(assert_all(&b));
}

#[test]
fn inner_grandchild_takes_two_rotations() {
    // 2 is an inner grandchild of 1: two rotations
    let b = build(&[1, 3, 2]);
    let root = b.root_idx();
    let nodes = b.nodes();
    assert_eq!(nodes[root].val, 2);
    assert_eq!(nodes[root].color, BLACK);
    assert_eq!(nodes[nodes[root].left].val, 1);
    assert_eq!(nodes[nodes[root].right].val, 3);
    assert!(assert_all(&b));

    let c = build(&[3, 1, 2]);
    let root = c.root_idx();
    assert_eq!(c.nodes()[root].val, 2);
    assert_eq!(in_order(&c), vec![1, 2, 3]);
    assert!(assert_all(&c));
}

#[test]
fn remove_a_node_with_one_child() {
    let mut b = build(&[15, 5, 20, 17]);
    assert_eq!(b.remove(20), Ok(20));
    assert_eq!(b.size(), 3);
    assert_eq!(in_order(&b), vec![5, 15, 17]);
    assert!(assert_all(&b));
}

#[test]
fn remove_roots_until_empty() {
    let mut b = build(&[0, 1, 2, 3, 4, 5, 6]);
    let mut expected = 7;
    while b.size() > 0 {
        let root_val = b.nodes()[b.root_idx()].val;
        assert_eq!(b.remove(root_val), Ok(root_val));
        expected -= 1;
        assert_eq!(b.size(), expected);
        assert!(assert_all(&b));
    }
    assert_eq!(expected, 0);
    assert_eq!(b.root_idx(), EMPTY);
}

#[test]
fn invariants_hold_after_every_operation() {
    let mut b = BTree::new();
    let mut held: Vec<i32> = Vec::new();
    let mut x: i32 = 7;
    let mut step = 0;
    while step < 400 {
        x = (x * 73 + 41) % 101;
        if step % 3 == 2 && !held.is_empty() {
            let pick = held.remove((x as usize) % held.len());
            assert_eq!(b.remove(pick), Ok(pick));
        } else {
            b.insert(x);
            held.push(x);
        }
        assert!(assert_all(&b));
        assert_eq!(b.size(), held.len());
        assert_eq!(in_order(&b), sorted_copy(&held));
        step += 1;
    }
    while let Some(v) = held.pop() {
        assert_eq!(b.remove(v), Ok(v));
        assert!(assert_all(&b));
        assert_eq!(in_order(&b), sorted_copy(&held));
    }
    assert_eq!(b.size(), 0);
}

#[test]
fn in_order_never_decreases() {
    let b = build(&[9, 3, 7, 3, 1, 9, 4, 4, 8, 0, 2]);
    let seq = in_order(&b);
    assert_eq!(seq, vec![0, 1, 2, 3, 3, 4, 4, 7, 8, 9, 9]);
    let mut i = 1;
    while i < seq.len() {
        assert!(seq[i - 1] <= seq[i]);
        i += 1;
    }
}

#[test]
fn size_counts_inserts_minus_successful_removes() {
    let mut b = BTree::new();
    assert_eq!(b.size(), 0);
    b.insert(4);
    b.insert(8);
    b.insert(4);
    assert_eq!(b.size(), 3);
    assert_eq!(b.remove(5), Err(TreeError::KeyNotFound));
    assert_eq!(b.size(), 3);
    assert_eq!(b.remove(4), Ok(4));
    assert_eq!(b.size(), 2);
    assert_eq!(b.remove(4), Ok(4));
    assert_eq!(b.remove(4), Err(TreeError::KeyNotFound));
    assert_eq!(b.size(), 1);
    assert_eq!(b.remove(8), Ok(8));
    assert_eq!(b.size(), 0);
}

#[test]
fn remove_takes_exactly_one_occurrence() {
    let mut b = build(&[5, 3, 5, 8, 5, 1]);
    assert_eq!(b.remove(5), Ok(5));
    assert_eq!(in_order(&b), vec![1, 3, 5, 5, 8]);
    assert_eq!(b.remove(5), Ok(5));
    assert_eq!(in_order(&b), vec![1, 3, 5, 8]);
    assert_eq!(b.remove(1), Ok(1));
    assert_eq!(in_order(&b), vec![3, 5, 8]);
    assert!(assert_all(&b));
}

#[test]
fn equal_values_keep_their_order_of_arrival() {
    let b = build(&[5, 5, 2, 5, 9, 5, 5, 5]);
    let mut slots = Vec::new();
    walk_slots(b.nodes(), b.root_idx(), &mut slots);
    // slots are handed out in order of arrival, and nothing was removed
    let fives: Vec<usize> = slots.iter().copied().filter(|s| b.nodes()[*s].val == 5).collect();
    assert_eq!(fives, vec![0, 1, 3, 5, 6, 7]);
    assert!(assert_all(&b));
}

#[test]
fn insert_appends_to_the_arena() {
    let mut b = build(&[10, 20, 30, 40]);
    assert_eq!(b.nodes().len(), 4);
    b.insert(25);
    assert_eq!(b.nodes().len(), 5);
    assert_eq!(b.nodes()[4].val, 25);
    assert_eq!(b.nodes()[0].val, 10);
    assert_eq!(b.nodes()[1].val, 20);
    assert_eq!(b.nodes()[2].val, 30);
    assert_eq!(b.nodes()[3].val, 40);
}

#[test]
fn remove_fills_the_slot_with_the_last_node() {
    let mut b = build(&[10, 20, 30, 40, 50]);
    assert_eq!(b.remove(20), Ok(20));
    let nodes = b.nodes();
    assert_eq!(nodes.len(), 4);
    assert_eq!(nodes[0].val, 10);
    assert_eq!(nodes[1].val, 50);
    assert_eq!(nodes[2].val, 30);
    assert_eq!(nodes[3].val, 40);
    assert!(assert_all(&b));
}

#[test]
fn remove_of_the_last_slot_keeps_the_sibling() {
    // 1 sits in the last slot and is a left child whose parent has a right child
    let mut b = build(&[2, 3, 1]);
    assert_eq!(b.remove(1), Ok(1));
    assert_eq!(in_order(&b), vec![2, 3]);
    assert_eq!(b.size(), 2);
    assert!(assert_all(&b));
}

#[test]
fn remove_node_with_two_children() {
    let mut b = build(&[8, 4, 12, 2, 6, 10, 14, 1, 3, 5, 7, 9, 11, 13, 15]);
    assert_eq!(b.remove(8), Ok(8));
    assert!(assert_all(&b));
    assert_eq!(in_order(&b), vec![1, 2, 3, 4, 5, 6, 7, 9, 10, 11, 12, 13, 14, 15]);
    assert_eq!(b.remove(4), Ok(4));
    assert!(assert_all(&b));
    assert_eq!(b.remove(12), Ok(12));
    assert!(assert_all(&b));
    assert_eq!(in_order(&b), vec![1, 2, 3, 5, 6, 7, 9, 10, 11, 13, 14, 15]);
}

#[test]
fn remove_descending_and_ascending() {
    let mut b = BTree::new();
    let mut i = 0;
    while i < 64 {
        b.insert(i);
        i += 1;
    }
    while i > 32 {
        i -= 1;
        assert_eq!(b.remove(i), Ok(i));
        assert!(assert_all(&b));
    }
    let mut j = 0;
    while j < 32 {
        assert_eq!(b.remove(j), Ok(j));
        assert!(assert_all(&b));
        j += 1;
    }
    assert_eq!(b.size(), 0);
}

#[test]
fn insert_after_the_tree_was_emptied() {
    let mut b = build(&[1]);
    assert_eq!(b.remove(1), Ok(1));
    assert_eq!(b.size(), 0);
    assert_eq!(b.root_idx(), EMPTY);
    b.insert(2);
    b.insert(1);
    assert_eq!(b.size(), 2);
    assert_eq!(in_order(&b), vec![1, 2]);
    assert!(assert_all(&b));
}

#[test]
fn remove_of_an_absent_value_fails() {
    let mut b = build(&[15, 5, 20, 17]);
    assert_eq!(b.remove(16), Err(TreeError::KeyNotFound));
    assert_eq!(in_order(&b), vec![5, 15, 17, 20]);
    assert_eq!(b.size(), 4);
    let mut e: BTree<i32> = BTree::new();
    assert_eq!(e.remove(0), Err(TreeError::KeyNotFound));
    assert_eq!(e.size(), 0);
}

#[test]
fn find_tells_presence() {
    let mut b = build(&[15, 5, 20, 17]);
    assert!(b.find(&15));
    assert!(b.find(&17));
    assert!(!b.find(&16));
    assert!(!b.find(&-1));
    assert_eq!(b.remove(17), Ok(17));
    assert!(!b.find(&17));
    let e: BTree<i32> = BTree::new();
    assert!(!e.find(&0));
}

#[test]
fn bst_remove_reports_what_is_left_to_repair() {
    // 1 is black with no child: its place is left empty under 2
    let mut b = build(&[2, 1, 3, 4]);
    let r = BTree::bst_remove(&mut b, 1);
    assert_eq!(r.val, 1);
    assert_eq!(r.color, BLACK);
    assert_eq!(r.shifted, EMPTY);
    assert_eq!(b.nodes()[r.parent].val, 2);
    assert_eq!(b.size(), 3);
    assert!(assert_is_dlinked(b.nodes(), b.root_idx()));
    assert!(assert_is_bst(b.nodes(), b.root_idx()));
    assert_eq!(assert_black_count(b.nodes(), b.root_idx()), None);

    // 4 is a red leaf: nothing is left to repair
    let mut c = build(&[2, 1, 3, 4]);
    let r = BTree::bst_remove(&mut c, 4);
    assert_eq!(r.val, 4);
    assert_eq!(r.color, RED);
    assert_eq!(r.shifted, EMPTY);
    assert!(assert_all(&c));
}

#[test]
fn validator_accepts_the_empty_tree() {
    let b: BTree<i32> = BTree::new();
    assert!(assert_all(&b));
    assert_eq!(assert_black_count(b.nodes(), b.root_idx()), Some(1));
}

#[test]
fn validator_counts_black_nodes() {
    // one black node and the absent child below it
    let b = build(&[1]);
    assert_eq!(assert_black_count(b.nodes(), b.root_idx()), Some(2));
    let b = build(&[1, 2, 3, 4]);
    assert_eq!(assert_black_count(b.nodes(), b.root_idx()), Some(3));
    let mut c = BTree::new();
    let mut i = 0;
    while i < 100 {
        c.insert(i);
        i += 1;
    }
    let count = assert_black_count(c.nodes(), c.root_idx());
    assert!(count.is_some());
    assert!(count.unwrap() >= 4);
}

#[test]
fn validator_rejects_a_red_child_of_a_red_node() {
    let nodes = vec![node(2, BLACK, EMPTY, 1, EMPTY), node(1, RED, 0, 2, EMPTY), node(0, RED, 1, EMPTY, EMPTY)];
    assert!(!assert_colors(&nodes, 0));
    let fine = vec![node(2, BLACK, EMPTY, 1, 2), node(1, RED, 0, EMPTY, EMPTY), node(3, RED, 0, EMPTY, EMPTY)];
    assert!(assert_colors(&fine, 0));
}

#[test]
fn validator_rejects_unequal_black_counts() {
    let nodes = vec![node(2, BLACK, EMPTY, 1, EMPTY), node(1, BLACK, 0, EMPTY, EMPTY)];
    assert_eq!(assert_black_count(&nodes, 0), None);
    let fine = vec![node(2, BLACK, EMPTY, 1, 2), node(1, BLACK, 0, EMPTY, EMPTY), node(3, BLACK, 0, EMPTY, EMPTY)];
    assert_eq!(assert_black_count(&fine, 0), Some(3));
}

#[test]
fn validator_rejects_values_out_of_order() {
    let nodes = vec![node(2, BLACK, EMPTY, 1, 2), node(3, RED, 0, EMPTY, EMPTY), node(4, RED, 0, EMPTY, EMPTY)];
    assert!(!assert_is_bst(&nodes, 0));
    let nodes = vec![node(2, BLACK, EMPTY, 1, 2), node(1, RED, 0, EMPTY, EMPTY), node(0, RED, 0, EMPTY, EMPTY)];
    assert!(!assert_is_bst(&nodes, 0));
    let ties = vec![node(2, BLACK, EMPTY, 1, 2), node(2, RED, 0, EMPTY, EMPTY), node(2, RED, 0, EMPTY, EMPTY)];
    assert!(assert_is_bst(&ties, 0));
}

#[test]
fn validator_rejects_a_value_out_of_order_deeper_down() {
    // 15 is the right child of 5 in the left subtree of 10
    let nodes = vec![
        node(10, BLACK, EMPTY, 1, EMPTY),
        node(5, BLACK, 0, EMPTY, 2),
        node(15, RED, 1, EMPTY, EMPTY),
    ];
    assert!(!assert_is_bst(&nodes, 0));
    assert!(assert_is_bst(&nodes, 1));
    let nodes = vec![
        node(10, BLACK, EMPTY, 1, 3),
        node(5, BLACK, 0, EMPTY, 2),
        node(15, RED, 1, EMPTY, EMPTY),
        node(20, BLACK, 0, EMPTY, EMPTY),
    ];
    assert!(!assert_is_bst(&nodes, 0));
    assert!(assert_is_dlinked(&nodes, 0));
    assert!(assert_colors(&nodes, 0));
    assert_eq!(assert_black_count(&nodes, 0), Some(3));
    // 7 is the left child of 12 in the right subtree of 10
    let nodes = vec![
        node(10, BLACK, EMPTY, EMPTY, 1),
        node(12, BLACK, 0, 2, EMPTY),
        node(7, RED, 1, EMPTY, EMPTY),
    ];
    assert!(!assert_is_bst(&nodes, 0));
    let fine = vec![
        node(10, BLACK, EMPTY, 1, EMPTY),
        node(5, BLACK, 0, EMPTY, 2),
        node(7, RED, 1, EMPTY, EMPTY),
    ];
    assert!(assert_is_bst(&fine, 0));
}

#[test]
fn validator_rejects_a_root_that_names_a_parent() {
    let nodes = vec![node(2, BLACK, 1, 1, EMPTY), node(1, RED, 0, EMPTY, EMPTY)];
    assert!(!assert_is_dlinked(&nodes, 0));
    // the node below the root is no root
    let fine = vec![node(2, BLACK, EMPTY, 1, EMPTY), node(1, RED, 0, EMPTY, EMPTY)];
    assert!(assert_is_dlinked(&fine, 0));
    assert!(!assert_is_dlinked(&fine, 1));
}

#[test]
fn validator_rejects_a_child_that_names_another_parent() {
    let nodes = vec![node(2, BLACK, EMPTY, 1, 2), node(1, RED, 0, EMPTY, EMPTY), node(3, RED, 1, EMPTY, EMPTY)];
    assert!(!assert_is_dlinked(&nodes, 0));
    let fine = vec![node(2, BLACK, EMPTY, 1, 2), node(1, RED, 0, EMPTY, EMPTY), node(3, RED, 0, EMPTY, EMPTY)];
    assert!(assert_is_dlinked(&fine, 0));
}

#[test]
fn validator_ends_on_links_that_run_in_a_circle() {
    let nodes = vec![node(2, BLACK, 1, 1, EMPTY), node(1, BLACK, 0, 0, EMPTY)];
    assert!(!assert_is_dlinked(&nodes, 0));
    assert!(!assert_colors(&nodes, 0));
    assert!(!assert_is_bst(&nodes, 0));
    assert_eq!(assert_black_count(&nodes, 0), None);
}

#[test]
fn validator_rejects_an_index_out_of_range() {
    let nodes = vec![node(2, BLACK, EMPTY, 7, EMPTY)];
    assert!(!assert_is_dlinked(&nodes, 0));
    assert!(!assert_colors(&nodes, 0));
    assert!(!assert_is_bst(&nodes, 0));
    assert_eq!(assert_black_count(&nodes, 0), None);
    assert!(!assert_is_dlinked(&nodes, 3));
}

#[test]
fn incomparable_values_go_right() {
    let mut b: BTree<f64> = BTree::new();
    b.insert(1.0);
    b.insert(f64::NAN);
    b.insert(0.5);
    let nodes = b.nodes();
    let root = b.root_idx();
    assert_eq!(nodes[root].val, 1.0);
    assert_eq!(nodes[nodes[root].left].val, 0.5);
    assert!(nodes[nodes[root].right].val.is_nan());
    assert_eq!(b.size(), 3);
    assert!(assert_is_dlinked(b.nodes(), b.root_idx()));
    assert!(assert_is_rbtree(&b));
}

#[test]
fn characters_from_a_text() {
    let text = "the quick brown fox jumps over the lazy dog, twice: the quick brown fox jumps over the lazy dog";
    let mut b: BTree<char> = BTree::new();
    let mut n = 0;
    for ch in text.chars().rev() {
        b.insert(ch);
        n += 1;
        assert_eq!(b.size(), n);
    }
    assert!(assert_all(&b));
    while b.size() > 0 {
        let root_val = b.nodes()[b.root_idx()].val;
        assert_eq!(b.remove(root_val), Ok(root_val));
        assert!(assert_all(&b));
    }
}
