use rand::rngs::StdRng;
use rand::seq::SliceRandom;
use rand::SeedableRng;
use rb_tree::rbtree_mod::{Color, Node, RedBlackTree};

/// Black height of the subtree at `node`, after checking search order within
/// `(lo, hi)`, that no red vertex has a red child, and that both subtrees
/// have the same black height. `count` is raised by the number of vertices.
fn audit(
    tree: &RedBlackTree,
    node: Option<&Node>,
    lo: Option<i32>,
    hi: Option<i32>,
    under_red: bool,
    count: &mut usize,
) -> usize {
    match node {
        None => 0,
        Some(n) => {
            *count += 1;
            if let Some(lo) = lo {
                assert!(lo < n.value, "key {} not above {}", n.value, lo);
            }
            if let Some(hi) = hi {
                assert!(n.value < hi, "key {} not below {}", n.value, hi);
            }
            let red = n.color == Color::Red;
            assert!(!(red && under_red), "red vertex {} under a red parent", n.value);
            assert_eq!(n.left.is_some(), tree.child(n, false).is_some());
            assert_eq!(n.right.is_some(), tree.child(n, true).is_some());
            let l = audit(tree, tree.child(n, false), lo, Some(n.value), red, count);
            let r = audit(tree, tree.child(n, true), Some(n.value), hi, red, count);
            assert_eq!(l, r, "black heights differ under {}", n.value);
            if red {
                l
            } else {
                l + 1
            }
        },
    }
}

/// Checks every rule of a red-black tree on `tree`, and returns its black
/// height.
fn audit_tree(tree: &RedBlackTree) -> usize {
    let mut count = 0;
    if let Some(root) = tree.root() {
        assert_eq!(root.color, Color::Black);
        assert!(root.parent.is_none());
    }
    let h = audit(tree, tree.root(), None, None, false, &mut count);
    assert_eq!(count, tree.len());
    assert!(tree.check_tree());
    h
}

fn tree_of(keys: &[i32]) -> RedBlackTree {
    let mut tree = RedBlackTree::new();
    for &k in keys {
        tree.add(k);
    }
    tree
}

#[test]
fn node_new_has_no_children() {
    let node = Node::new(7, Color::Red, Some(3));
    assert_eq!(node.value, 7);
    assert_eq!(node.color, Color::Red);
    assert_eq!(node.left, None);
    assert_eq!(node.right, None);
    assert_eq!(node.parent, Some(3));
    let root = Node::new(-1, Color::Black, None);
    assert_eq!(root.color, Color::Black);
    assert_eq!(root.parent, None);
}

#[test]
fn new_tree_is_empty() {
    let tree = RedBlackTree::new();
    assert_eq!(tree.len(), 0);
    assert!(tree.root().is_none());
    assert!(tree.get(0).is_none());
    assert!(tree.check_tree());
    assert_eq!(audit_tree(&tree), 0);
}

#[test]
fn first_key_is_a_black_root() {
    let mut tree = RedBlackTree::new();
    tree.add(42);
    assert_eq!(tree.len(), 1);
    let root = tree.root().unwrap();
    assert_eq!(root.value, 42);
    assert_eq!(root.color, Color::Black);
    assert_eq!(root.left, None);
    assert_eq!(root.right, None);
    assert_eq!(root.parent, None);
    assert_eq!(audit_tree(&tree), 1);
}

#[test]
fn second_key_is_a_red_leaf() {
    let tree = tree_of(&[10, 20]);
    let root = tree.root().unwrap();
    assert_eq!(root.value, 10);
    assert!(tree.child(root, false).is_none());
    let leaf = tree.child(root, true).unwrap();
    assert_eq!(leaf.value, 20);
    assert_eq!(leaf.color, Color::Red);
    assert_eq!(audit_tree(&tree), 1);
}

#[test]
fn three_keys_in_a_line_are_rebalanced() {
    for keys in [[1, 2, 3], [3, 2, 1], [1, 3, 2], [3, 1, 2], [2, 1, 3], [2, 3, 1]] {
        let tree = tree_of(&keys);
        assert_eq!(tree.len(), 3);
        let root = tree.root().unwrap();
        assert_eq!(root.value, 2);
        assert_eq!(root.color, Color::Black);
        assert_eq!(tree.child(root, false).unwrap().value, 1);
        assert_eq!(tree.child(root, true).unwrap().value, 3);
        assert_eq!(audit_tree(&tree), 2 - 1 + usize::from(
            tree.child(root, false).unwrap().color == Color::Black,
        ));
    }
}

#[test]
fn insert_five_then_delete_one() {
    let mut tree = tree_of(&[10, 20, 5, 15, 25]);
    assert_eq!(tree.root().unwrap().color, Color::Black);
    assert_eq!(tree.len(), 5);
    assert!(tree.get(15).is_some());
    assert_eq!(tree.get(15).unwrap().value, 15);
    audit_tree(&tree);
    tree.del(10);
    assert!(tree.get(10).is_none());
    assert_eq!(tree.len(), 4);
    for k in [20, 5, 15, 25] {
        assert_eq!(tree.get(k).unwrap().value, k);
    }
    audit_tree(&tree);
}

#[test]
fn ascending_inserts_then_shuffled_deletes() {
    let mut tree = RedBlackTree::new();
    let mut keys: Vec<i32> = Vec::new();
    for k in 0..5000 {
        tree.add(k);
        keys.push(k);
    }
    assert_eq!(tree.len(), 5000);
    assert!(tree.check_tree());
    audit_tree(&tree);
    let mut rng = StdRng::seed_from_u64(0x5eed);
    keys.shuffle(&mut rng);
    let mut count = tree.len();
    for (n, &k) in keys.iter().enumerate() {
        tree.del(k);
        assert_eq!(tree.len(), count - 1);
        assert!(tree.check_tree());
        assert!(tree.get(k).is_none());
        if n % 97 == 0 {
            audit_tree(&tree);
        }
        count = tree.len();
    }
    assert_eq!(tree.len(), 0);
    assert!(tree.root().is_none());
    for k in 0..5000 {
        assert!(tree.get(k).is_none());
    }
}

#[test]
fn every_small_permutation_keeps_the_rules() {
    let mut rng = StdRng::seed_from_u64(7);
    for round in 0..300 {
        let n = 1 + round % 24;
        let mut keys: Vec<i32> = (0..n).map(|k| k * 3 - 20).collect();
        keys.shuffle(&mut rng);
        let mut tree = RedBlackTree::new();
        for (i, &k) in keys.iter().enumerate() {
            tree.add(k);
            assert_eq!(tree.len(), i + 1);
            audit_tree(&tree);
        }
        keys.shuffle(&mut rng);
        for (i, &k) in keys.iter().enumerate() {
            assert_eq!(tree.get(k).unwrap().value, k);
            tree.del(k);
            assert!(tree.get(k).is_none());
            assert_eq!(tree.len(), keys.len() - i - 1);
            audit_tree(&tree);
            for &other in &keys[i + 1..] {
                assert!(tree.get(other).is_some());
            }
        }
    }
}

#[test]
fn mixed_adds_and_dels_match_a_sorted_list() {
    let mut rng = StdRng::seed_from_u64(99);
    let mut model: Vec<i32> = Vec::new();
    let mut tree = RedBlackTree::new();
    let mut pool: Vec<i32> = (-60..60).collect();
    for _ in 0..40 {
        pool.shuffle(&mut rng);
        for &k in &pool[..30] {
            tree.add(k);
            if !model.contains(&k) {
                model.push(k);
            }
        }
        audit_tree(&tree);
        pool.shuffle(&mut rng);
        for &k in &pool[..25] {
            tree.del(k);
            model.retain(|&m| m != k);
        }
        audit_tree(&tree);
        assert_eq!(tree.len(), model.len());
        for k in -60..60 {
            assert_eq!(tree.get(k).is_some(), model.contains(&k));
        }
    }
}

#[test]
fn adding_a_key_twice_changes_nothing() {
    let mut tree = tree_of(&[8, 3, 10, 1, 6, 14, 4, 7, 13]);
    let len = tree.len();
    let height = audit_tree(&tree);
    let root = tree.root().unwrap().value;
    for k in [8, 3, 10, 1, 6, 14, 4, 7, 13] {
        tree.add(k);
        assert_eq!(tree.len(), len);
        assert_eq!(audit_tree(&tree), height);
        assert_eq!(tree.root().unwrap().value, root);
    }
    for k in [8, 3, 10, 1, 6, 14, 4, 7, 13] {
        assert_eq!(tree.get(k).unwrap().value, k);
    }
    assert!(tree.get(5).is_none());
}

#[test]
fn a_red_vertex_under_a_red_uncle_survives_its_key_again() {
    let mut tree = tree_of(&[10, 5, 20]);
    assert_eq!(tree.get(5).unwrap().color, Color::Red);
    assert_eq!(tree.get(20).unwrap().color, Color::Red);
    tree.add(20);
    tree.add(5);
    assert_eq!(tree.len(), 3);
    assert_eq!(tree.root().unwrap().value, 10);
    assert_eq!(tree.get(5).unwrap().color, Color::Red);
    assert_eq!(tree.get(20).unwrap().color, Color::Red);
    audit_tree(&tree);
    let mut lone = tree_of(&[10, 20]);
    lone.add(20);
    assert_eq!(lone.len(), 2);
    assert_eq!(lone.root().unwrap().value, 10);
    audit_tree(&lone);
}

#[test]
fn add_then_get_then_del_then_get() {
    let mut tree = tree_of(&[50, 30, 70]);
    for k in [i32::MIN, -1, 0, 1, 31, i32::MAX] {
        assert!(tree.get(k).is_none());
        tree.add(k);
        assert_eq!(tree.get(k).unwrap().value, k);
        assert_eq!(tree.len(), 4);
        audit_tree(&tree);
        tree.del(k);
        assert!(tree.get(k).is_none());
        assert_eq!(tree.len(), 3);
        audit_tree(&tree);
    }
}

#[test]
fn deleting_an_absent_key_changes_nothing() {
    let mut tree = tree_of(&[10, 20, 5, 15, 25]);
    let root = *tree.root().unwrap();
    let left = *tree.child(&root, false).unwrap();
    let right = *tree.child(&root, true).unwrap();
    for k in [0, 7, 12, 17, 22, 30, i32::MIN, i32::MAX] {
        tree.del(k);
        assert_eq!(tree.len(), 5);
        let now = *tree.root().unwrap();
        assert_eq!(now.value, root.value);
        assert_eq!(now.color, root.color);
        assert_eq!(now.left, root.left);
        assert_eq!(now.right, root.right);
        let l = *tree.child(&now, false).unwrap();
        let r = *tree.child(&now, true).unwrap();
        assert_eq!((l.value, l.color, l.left, l.right), (left.value, left.color, left.left, left.right));
        assert_eq!(
            (r.value, r.color, r.left, r.right),
            (right.value, right.color, right.left, right.right)
        );
    }
    let mut empty = RedBlackTree::new();
    empty.del(3);
    assert_eq!(empty.len(), 0);
    assert!(empty.root().is_none());
}

#[test]
fn deleting_the_only_key_empties_the_tree() {
    let mut tree = tree_of(&[9]);
    tree.del(9);
    assert_eq!(tree.len(), 0);
    assert!(tree.root().is_none());
    assert!(tree.get(9).is_none());
    tree.add(4);
    assert_eq!(tree.len(), 1);
    assert_eq!(tree.root().unwrap().value, 4);
    assert_eq!(tree.root().unwrap().color, Color::Black);
}

#[test]
fn deleting_a_root_with_two_children_takes_its_successor() {
    let mut tree = tree_of(&[2, 1, 3]);
    tree.del(2);
    assert_eq!(tree.len(), 2);
    let root = tree.root().unwrap();
    assert_eq!(root.value, 3);
    assert_eq!(root.color, Color::Black);
    assert_eq!(tree.child(root, false).unwrap().value, 1);
    assert!(tree.child(root, true).is_none());
    audit_tree(&tree);
}

#[test]
fn deleting_a_vertex_with_a_left_child_only_takes_that_child() {
    let mut tree = tree_of(&[2, 1]);
    tree.del(2);
    assert_eq!(tree.len(), 1);
    let root = tree.root().unwrap();
    assert_eq!(root.value, 1);
    assert_eq!(root.color, Color::Black);
    assert!(root.left.is_none() && root.right.is_none());
}

#[test]
fn deleting_black_leaves_rebalances() {
    let mut tree = tree_of(&[4, 2, 6, 1, 3, 5, 7]);
    tree.del(1);
    tree.del(3);
    audit_tree(&tree);
    tree.del(2);
    assert_eq!(tree.len(), 4);
    audit_tree(&tree);
    for k in [4, 5, 6, 7] {
        assert!(tree.get(k).is_some());
    }
    tree.del(7);
    tree.del(6);
    audit_tree(&tree);
    tree.del(5);
    audit_tree(&tree);
    assert_eq!(tree.len(), 1);
    assert_eq!(tree.root().unwrap().value, 4);
}

#[test]
fn descending_inserts_then_ascending_deletes() {
    let mut tree = RedBlackTree::new();
    for k in (0..600).rev() {
        tree.add(k);
    }
    assert_eq!(tree.len(), 600);
    let height = audit_tree(&tree);
    assert!(height >= 5 && height <= 10);
    for k in 0..600 {
        tree.del(k);
        assert_eq!(tree.len(), (599 - k) as usize);
        audit_tree(&tree);
    }
}

#[test]
fn clear_empties_the_tree() {
    let mut tree = RedBlackTree::new();
    tree.clear();
    assert_eq!(tree.len(), 0);
    for k in 0..257 {
        tree.add(k * 7 % 257);
    }
    assert_eq!(tree.len(), 257);
    tree.clear();
    assert_eq!(tree.len(), 0);
    assert!(tree.root().is_none());
    for k in 0..257 {
        assert!(tree.get(k).is_none());
    }
    assert!(tree.check_tree());
    tree.add(1);
    tree.add(2);
    assert_eq!(tree.len(), 2);
    audit_tree(&tree);
}

#[test]
fn freed_slots_are_used_again() {
    let mut tree = tree_of(&[1, 2, 3, 4, 5, 6, 7, 8]);
    let mut slots: Vec<usize> = Vec::new();
    let mut walk: Vec<Node> = vec![*tree.root().unwrap()];
    while let Some(n) = walk.pop() {
        for link in [n.left, n.right] {
            if let Some(slot) = link {
                slots.push(slot);
            }
        }
        for right in [false, true] {
            if let Some(c) = tree.child(&n, right) {
                walk.push(*c);
            }
        }
    }
    let most = *slots.iter().max().unwrap();
    for round in 0..50 {
        for k in 1..=8 {
            tree.del(k);
        }
        assert_eq!(tree.len(), 0);
        for k in 1..=8 {
            tree.add(k + round);
            tree.del(k + round);
            tree.add(k);
        }
        audit_tree(&tree);
        let mut walk: Vec<Node> = vec![*tree.root().unwrap()];
        while let Some(n) = walk.pop() {
            for link in [n.left, n.right] {
                if let Some(slot) = link {
                    assert!(slot <= most.max(8));
                }
            }
            for right in [false, true] {
                if let Some(c) = tree.child(&n, right) {
                    walk.push(*c);
                }
            }
        }
    }
}

#[test]
fn parent_links_lead_back() {
    let tree = tree_of(&[50, 25, 75, 10, 30, 60, 90, 5, 15]);
    let root = tree.root().unwrap();
    for right in [false, true] {
        let c = tree.child(root, right).unwrap();
        for side in [false, true] {
            if let Some(g) = tree.child(c, side) {
                let slot = if side { c.right } else { c.left };
                assert_eq!(g.parent, if right { root.right } else { root.left });
                assert!(slot.is_some());
            }
        }
    }
}

#[test]
fn len_counts_the_keys_that_get_finds() {
    let mut rng = StdRng::seed_from_u64(3);
    let mut pool: Vec<i32> = (0..200).collect();
    pool.shuffle(&mut rng);
    let mut tree = RedBlackTree::new();
    for &k in &pool[..120] {
        tree.add(k);
    }
    for &k in &pool[60..160] {
        tree.del(k);
    }
    let found = (0..200).filter(|&k| tree.get(k).is_some()).count();
    assert_eq!(found, 60);
    assert_eq!(tree.len(), found);
}

#[test]
fn vertices_compare_by_key() {
    let a = Node::new(3, Color::Red, None);
    let b = Node::new(3, Color::Black, Some(9));
    let c = Node::new(4, Color::Red, None);
    assert!(a == b);
    assert!(a != c);
    assert!(a < c);
    assert!(c > b);
    assert!(a <= b && a >= b);
    assert_eq!(a.partial_cmp(&c), Some(std::cmp::Ordering::Less));
    assert_eq!(c.partial_cmp(&a), Some(std::cmp::Ordering::Greater));
    assert_eq!(a.partial_cmp(&b), Some(std::cmp::Ordering::Equal));
}

#[test]
fn a_clone_is_a_tree_of_its_own() {
    let mut tree = tree_of(&[5, 3, 8, 1, 4]);
    let copy = tree.clone();
    tree.del(3);
    tree.add(9);
    assert_eq!(tree.len(), 5);
    assert_eq!(copy.len(), 5);
    assert!(copy.get(3).is_some());
    assert!(copy.get(9).is_none());
    assert!(tree.get(3).is_none());
    assert!(tree.get(9).is_some());
    audit_tree(&tree);
    audit_tree(&copy);
}
