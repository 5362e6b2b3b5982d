use rbtree::assert_is_bst;
use rbtree::assert_is_dlinked;
use rbtree::assert_is_rbtree;
use rbtree::BTree;
use rbtree::Node;
use rbtree::EMPTY;

fn new_tree<T: PartialOrd>() -> BTree<T> {
    BTree::new()
}

fn from_values(arr: &[i32]) -> BTree<i32> {
    let mut b = new_tree::<i32>();
    let mut idx = 0;
    while idx < arr.len() {
        b.insert(arr[idx]);
        idx += 1;
    }
    b
}

fn size(nodes: &Vec<Node<i32>>, idx: usize) -> usize {
    if idx == EMPTY {
        return 0;
    }

    let mut count = 1;

    let left_idx = nodes[idx].left;
    if left_idx != EMPTY {
        count += size(nodes, left_idx);
    }

    let right_idx = nodes[idx].right;
    if right_idx != EMPTY {
        count += size(nodes, right_idx);
    }

    return count;
}

#[test]
fn test_ctor_empty() {
    let a = new_tree::<i32>();
    assert_eq!(a.size(), 0);
    assert_eq!(a.root_idx(), EMPTY);
}

#[test]
fn test_insert_1() {
    let mut b = new_tree::<i32>();
    b.insert(43);
    assert!(assert_is_rbtree::<i32>(&b));
}

#[test]
fn test_insert_2() {
    let mut b = new_tree::<i32>();
    let mut i = 0;
    while i < 2 {
        b.insert(i);
        i += 1;
    }
    assert!(assert_is_rbtree::<i32>(&b));
}

#[test]
fn test_insert_3() {
    let mut b = new_tree::<i32>();
    let mut i = 0;
    while i < 3 {
        b.insert(i);
        i += 1;
    }
    assert!(assert_is_rbtree::<i32>(&b));
}

#[test]
fn test_insert_7() {
    let mut b = new_tree::<i32>();
    let mut i = 0;
    while i < 7 {
        b.insert(i);
        i += 1;
    }
    assert!(assert_is_rbtree::<i32>(&b));
}

#[test]
fn test_fix_left_3() {
    let mut b = new_tree::<i32>();
    let mut i = 3;
    while i > 0 {
        b.insert(i);
        i -= 1;
    }
    assert!(assert_is_rbtree::<i32>(&b));
}

#[test]
fn test_fix_left_5() {
    let mut b = new_tree::<i32>();
    let mut i = 5;
    while i > 0 {
        b.insert(i);
        i -= 1;
    }
    assert!(assert_is_rbtree::<i32>(&b));
}

#[test]
fn test_fix_right_5() {
    let mut b = new_tree::<i32>();
    let mut i = 0;
    while i < 5 {
        b.insert(i);
        i += 1;
    }
    assert!(assert_is_rbtree::<i32>(&b));
}

#[test]
fn test_double_red_1() {
    let b = from_values(&[15, 5, 20, 0]);
    assert!(assert_is_rbtree::<i32>(&b));
}

#[test]
fn test_double_red_2() {
    let b = from_values(&[15, 5, 20, 10]);
    assert!(assert_is_rbtree::<i32>(&b));
}

#[test]
fn test_double_red_3() {
    let b = from_values(&[15, 5, 20, 17]);
    assert!(assert_is_rbtree::<i32>(&b));
}

#[test]
fn test_double_red_4() {
    let b = from_values(&[15, 5, 20, 30]);
    assert!(assert_is_rbtree::<i32>(&b));
}

#[test]
fn test_8() {
    let mut b = new_tree::<i32>();
    let mut i = 0;
    while i < 8 {
        b.insert(i * 7 + (-i % 2) * 13);
        i += 1;
        assert!(assert_is_rbtree::<i32>(&b));
    }
}

#[test]
fn test_20() {
    let mut b = new_tree::<i32>();
    let mut i = 0;
    while i < 20 {
        b.insert(i * 7 + (-i % 2) * 13);
        i += 1;
    }
    assert!(assert_is_rbtree::<i32>(&b));
}

#[test]
fn test_bst_remove() {
    let mut b = new_tree::<i32>();
    let mut i = 0;
    while i < 20 {
        b.insert(i * 7 + (-i % 2) * 13);
        i += 1;
    }

    BTree::bst_remove(&mut b, 0);

    assert!(assert_is_dlinked(b.nodes(), b.root_idx()));
    assert!(size(b.nodes(), b.root_idx()) == 19);
    assert!(assert_is_bst(b.nodes(), b.root_idx()));
}

#[test]
fn test_remove_3() {
    let arr = [15, 5, 20, 17];
    let mut b = from_values(&arr);
    let mut idx = arr.len();

    while idx > 0 {
        idx -= 1;
        b.remove(arr[idx]).unwrap();
    }
}

#[test]
fn test_remove_7() {
    let mut b = new_tree::<i32>();
    let mut idx = 0;
    while idx < 7 {
        b.insert(idx);
        idx += 1;
    }

    while b.size() > 0 {
        let root_val = b.nodes()[b.root_idx()].val;
        let v = b.remove(root_val);
        assert_eq!(v, Ok(root_val));
    }
}

#[test]
fn test_remove_1_child() {
    let mut b = from_values(&[15, 5, 20, 17]);
    assert!(Ok(20) == b.remove(20));
}

#[test]
fn test_remove_leaf() {
    let mut b = from_values(&[15, 5, 20, 17]);
    assert!(Ok(17) == b.remove(17));
}

#[test]
fn test_remove_root() {
    let mut b = from_values(&[15, 5, 20, 17]);
    assert!(Ok(15) == b.remove(15));
}

#[test]
fn test_remove_1_child_2() {
    let mut b = from_values(&[15, 5, 20, 17]);
    assert!(Ok(5) == b.remove(5));
}
