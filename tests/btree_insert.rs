use btree::{BTree, BTreeNode};

fn walk(node: &BTreeNode<i32>, out: &mut Vec<(u64, i32)>) {
    if node.children.is_empty() {
        for i in 0..node.keys.len() {
            out.push((node.keys[i], node.values[i]));
        }
    } else {
        for i in 0..node.children.len() {
            walk(&node.children[i], out);
            if i < node.keys.len() {
                out.push((node.keys[i], node.values[i]));
            }
        }
    }
}

fn entries(tree: &BTree<i32>) -> Vec<(u64, i32)> {
    let mut out = Vec::new();
    walk(tree.root(), &mut out);
    out
}

fn keys(tree: &BTree<i32>) -> Vec<u64> {
    entries(tree).into_iter().map(|e| e.0).collect()
}

fn height(node: &BTreeNode<i32>) -> usize {
    node.children.iter().map(|c| 1 + height(c)).max().unwrap_or(0)
}

/// Checks the node invariants, the capacity and the separator property below
/// `node`, which stands at `depth`; records the depth of every leaf.
fn check(node: &BTreeNode<i32>, cap: usize, depth: usize, leaves: &mut Vec<usize>) {
    assert_eq!(node.keys.len(), node.values.len());
    assert!(node.keys.len() <= cap);
    assert_eq!(node.is_leaf, node.children.is_empty());
    for i in 1..node.keys.len() {
        assert!(node.keys[i - 1] < node.keys[i]);
    }
    if node.is_leaf {
        leaves.push(depth);
    } else {
        assert_eq!(node.children.len(), node.keys.len() + 1);
        for i in 0..node.children.len() {
            let mut sub = Vec::new();
            walk(&node.children[i], &mut sub);
            for (k, _) in sub {
                if i < node.keys.len() {
                    assert!(k < node.keys[i]);
                }
                if i > 0 {
                    assert!(k > node.keys[i - 1]);
                }
            }
            check(&node.children[i], cap, depth + 1, leaves);
        }
    }
}

fn check_tree(tree: &BTree<i32>) {
    let mut leaves = Vec::new();
    check(tree.root(), tree.node_size(), 0, &mut leaves);
    assert!(leaves.iter().all(|d| *d == leaves[0]));
}

#[test]
fn test_insert() {
    // arrange
    let mut btree = BTree::new(2);

    // act
    btree.insert(2, 2);
    btree.insert(1, 32);
    btree.insert(3, 1000);
    btree.insert(6, 0);
    btree.insert(4, 12);
    btree.insert(123, 78);
    btree.insert(5, 2);
    btree.insert(12, 0);
    btree.insert(111, 708);
    btree.insert(7, 10000);
    btree.insert(8, 78);
    btree.insert(13, 78);
    btree.insert(14, 78);
    btree.insert(15, 78);
    btree.insert(16, 78);
    btree.insert(20, 78);
    btree.insert(1023, 78);
    btree.insert(933, 78);
    btree.insert(2330, 78);
    println!("{:?}", btree);
}

#[test]
fn capacity_two_scenario() {
    let mut tree: BTree<i32> = BTree::new(2);
    for k in [2u64, 1, 3, 6, 4] {
        assert!(tree.insert(k, k as i32 * 10));
    }
    let root = tree.root();
    assert_eq!(root.keys, vec![3]);
    assert_eq!(root.values, vec![30]);
    assert!(!root.is_leaf);
    assert_eq!(root.children.len(), 2);
    for child in &root.children {
        assert!(child.is_leaf);
        assert!(child.keys.len() <= 2);
    }
    assert_eq!(root.children[0].keys, vec![1, 2]);
    assert_eq!(root.children[1].keys, vec![4, 6]);
    assert_eq!(keys(&tree), vec![1, 2, 3, 4, 6]);
}

#[test]
fn duplicate_keeps_first_value() {
    let mut tree: BTree<i32> = BTree::new(3);
    assert!(tree.insert(5, 10));
    assert!(!tree.insert(5, 99));
    assert_eq!(entries(&tree), vec![(5, 10)]);
}

#[test]
fn duplicate_rejected_deep_in_tree() {
    let mut tree: BTree<i32> = BTree::new(3);
    for k in 0..50u64 {
        assert!(tree.insert(k * 2, k as i32));
    }
    assert!(height(tree.root()) >= 2);
    let before = entries(&tree);
    for k in 0..50u64 {
        assert!(!tree.insert(k * 2, -1));
    }
    assert_eq!(entries(&tree), before);
    check_tree(&tree);
}

#[test]
fn completeness_and_invariants() {
    for cap in 1..8usize {
        let mut tree: BTree<i32> = BTree::new(cap);
        let mut inserted = Vec::new();
        let mut k: u64 = 7;
        for _ in 0..200 {
            k = (k * 37 + 11) % 1009;
            let fresh = !inserted.contains(&k);
            assert_eq!(tree.insert(k, k as i32), fresh);
            if fresh {
                inserted.push(k);
            }
            check_tree(&tree);
        }
        inserted.sort();
        assert_eq!(keys(&tree), inserted);
    }
}

#[test]
fn height_grows_by_at_most_one() {
    for cap in 1..6usize {
        let mut tree: BTree<i32> = BTree::new(cap);
        let mut h = height(tree.root());
        assert_eq!(h, 0);
        for k in 0..300u64 {
            tree.insert((k * 7919) % 503, 0);
            let h2 = height(tree.root());
            assert!(h2 <= h + 1);
            h = h2;
        }
    }
}

#[test]
fn split_point_with_capacity_four() {
    let mut tree: BTree<i32> = BTree::new(4);
    for k in 1..=5u64 {
        assert!(tree.insert(k, k as i32));
    }
    let root = tree.root();
    assert_eq!(root.keys, vec![4]);
    assert_eq!(root.children[0].keys, vec![1, 2, 3]);
    assert_eq!(root.children[1].keys, vec![5]);
}

#[test]
fn empty_tree_is_one_empty_leaf() {
    let tree: BTree<i32> = BTree::new(3);
    assert!(tree.root().is_leaf);
    assert!(tree.root().keys.is_empty());
    assert_eq!(tree.node_size(), 3);
    assert!(entries(&tree).is_empty());
}

#[test]
fn largest_keys() {
    let mut tree: BTree<i32> = BTree::new(3);
    for k in [u64::MAX, 0, u64::MAX - 1, 1, u64::MAX / 2] {
        assert!(tree.insert(k, 1));
    }
    assert!(!tree.insert(u64::MAX, 2));
    assert_eq!(keys(&tree), vec![0, 1, u64::MAX / 2, u64::MAX - 1, u64::MAX]);
    check_tree(&tree);
}

#[test]
fn node_new_is_empty() {
    let leaf: BTreeNode<i32> = BTreeNode::new(true);
    assert!(leaf.is_leaf && leaf.keys.is_empty() && leaf.values.is_empty() && leaf.children.is_empty());
    let inner: BTreeNode<i32> = BTreeNode::new(false);
    assert!(!inner.is_leaf);
}

#[test]
fn node_leaf_split_hands_up_upper_half() {
    let mut node: BTreeNode<i32> = BTreeNode::new(true);
    assert!(matches!(node.insert(10, 1, 3), (true, None)));
    assert!(matches!(node.insert(30, 3, 3), (true, None)));
    assert!(matches!(node.insert(20, 2, 3), (true, None)));
    let (ok, sibling) = node.insert(40, 4, 3);
    assert!(ok);
    let sibling = sibling.unwrap();
    assert_eq!(node.keys, vec![10, 20]);
    assert_eq!(node.values, vec![1, 2]);
    assert_eq!(sibling.keys, vec![30, 40]);
    assert_eq!(sibling.values, vec![3, 4]);
    assert!(sibling.is_leaf);
    assert!(matches!(node.insert(10, 9, 3), (false, None)));
}

#[test]
fn capacity_one_accepts_and_rejects() {
    let mut tree: BTree<i32> = BTree::new(1);
    assert!(tree.insert(1, 1));
    assert!(tree.insert(2, 2));
    assert!(!tree.insert(1, 5));
    assert_eq!(tree.root().keys, vec![2]);
}

#[test]
fn capacity_two_links_emptied_sibling() {
    let mut tree: BTree<i32> = BTree::new(2);
    for k in [2u64, 1, 3, 6, 4, 123] {
        assert!(tree.insert(k, 0));
    }
    let root = tree.root();
    assert_eq!(root.keys, vec![3, 123]);
    assert_eq!(root.children.len(), 3);
    assert_eq!(root.children[0].keys, vec![1, 2]);
    assert_eq!(root.children[1].keys, vec![4, 6]);
    assert!(root.children[2].keys.is_empty());
    assert_eq!(keys(&tree), vec![1, 2, 3, 4, 6, 123]);
    check_tree(&tree);
}

#[test]
fn capacity_two_refuses_key_present_in_late_leaf() {
    let mut tree: BTree<i32> = BTree::new(2);
    for k in [2u64, 1, 3, 6, 4, 123, 5, 200, 201, 202, 150, 300] {
        assert!(tree.insert(k, 0));
        check_tree(&tree);
    }
    let before = entries(&tree);
    assert!(!tree.insert(300, 1));
    assert_eq!(entries(&tree), before);
    assert_eq!(keys(&tree), vec![1, 2, 3, 4, 5, 6, 123, 150, 200, 201, 202, 300]);
}
