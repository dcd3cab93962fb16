use algokit::avl;
use algokit::bst;
use algokit::treap;

fn avl_inorder(t: &Option<Box<avl::Node>>, out: &mut Vec<i64>) {
    if let Some(n) = t {
        avl_inorder(&n.lt_node, out);
        out.push(n.val);
        avl_inorder(&n.rt_node, out);
    }
}

fn bst_inorder(t: &Option<Box<bst::Node>>, out: &mut Vec<i64>) {
    if let Some(n) = t {
        bst_inorder(&n.lt_node, out);
        out.push(n.val);
        bst_inorder(&n.rt_node, out);
    }
}

fn treap_inorder(t: &Option<Box<treap::Node>>, out: &mut Vec<i64>) {
    if let Some(n) = t {
        treap_inorder(&n.lt_node, out);
        out.push(n.val);
        treap_inorder(&n.rt_node, out);
    }
}

#[test]
fn avl_insert_keeps_order_and_contents() {
    let mut tree = avl::AVLTree::new();
    let mut root = None;
    let vals: [i64; 10] = [5, 1, 9, 3, 3, 7, 2, 8, 6, 4];
    for v in vals.iter() {
        tree.insert(&mut root, v);
    }
    let mut seen = Vec::new();
    avl_inorder(&root, &mut seen);
    let mut expect = vals.to_vec();
    expect.sort();
    assert_eq!(seen, expect);
    tree.root_node = root;
}

#[test]
fn avl_heights_and_balance_reads() {
    let mut tree = avl::AVLTree::new();
    let mut root = None;
    for v in [2i64, 1, 3] {
        tree.insert(&mut root, &v);
    }
    let (lh, rh) = tree.get_lt_rt_heights(&root);
    assert_eq!((lh, rh), (1, 1));
    assert_eq!(tree.height_diff(&root), 0);
}

#[test]
fn avl_ascending_inserts_stay_shallow() {
    let mut tree = avl::AVLTree::new();
    let mut root = None;
    for v in 1i64..=64 {
        tree.insert(&mut root, &v);
    }
    let (lh, rh) = tree.get_lt_rt_heights(&root);
    // a plain search tree would degenerate to a chain of depth 64
    assert!(lh.max(rh) < 10);
    let mut seen = Vec::new();
    avl_inorder(&root, &mut seen);
    assert_eq!(seen, (1i64..=64).collect::<Vec<i64>>());
}

#[test]
fn avl_delete_absent_and_present() {
    let mut tree = avl::AVLTree::new();
    let mut root = None;
    for v in [4i64, 2, 6, 1, 3, 5, 7] {
        tree.insert(&mut root, &v);
    }
    let mut before = Vec::new();
    avl_inorder(&root, &mut before);

    tree.delete(&mut root, &42);
    let mut after_absent = Vec::new();
    avl_inorder(&root, &mut after_absent);
    assert_eq!(before, after_absent);

    tree.delete(&mut root, &4);
    let mut after = Vec::new();
    avl_inorder(&root, &mut after);
    assert_eq!(after.iter().filter(|v| **v == 4).count(), 0);
    assert!(after.len() < before.len());
}

#[test]
fn bst_insert_and_delete_walkthrough() {
    let mut tree = bst::BST::new();
    let mut root = tree.root_node.take();
    for v in [10i64, 20, 5, 9, 2, 15, 30] {
        tree.insert(&mut root, &v);
    }
    let mut seen = Vec::new();
    bst_inorder(&root, &mut seen);
    assert_eq!(seen, vec![2, 5, 9, 10, 15, 20, 30]);

    tree.delete(&mut root, &10);
    let mut after = Vec::new();
    bst_inorder(&root, &mut after);
    assert_eq!(after.iter().filter(|v| **v == 10).count(), 0);
    let mut sorted = after.clone();
    sorted.sort();
    assert_eq!(after, sorted);
}

#[test]
fn treap_orders_values_and_respects_priorities() {
    let mut tr = treap::Treap::new();
    let mut root = None;
    let pairs: [(i64, usize); 7] = [
        (6, 100),
        (15, 30),
        (3, 70),
        (1, 50),
        (5, 60),
        (11, 20),
        (17, 25),
    ];
    for (v, p) in pairs.iter() {
        tr.insert(&mut root, v, p);
    }
    let mut seen = Vec::new();
    treap_inorder(&root, &mut seen);
    assert_eq!(seen, vec![1, 3, 5, 6, 11, 15, 17]);
    // the highest-priority value sits at the root
    assert_eq!(root.as_ref().unwrap().val, 6);

    tr.insert(&mut root, &20, &120);
    assert_eq!(root.as_ref().unwrap().val, 20);

    tr.delete(&mut root, &6);
    let mut after = Vec::new();
    treap_inorder(&root, &mut after);
    assert_eq!(after, vec![1, 3, 5, 11, 15, 17, 20]);
    tr.root_node = root;
}

#[test]
fn treap_delete_absent_keeps_contents() {
    let mut tr = treap::Treap::new();
    let mut root = None;
    for (v, p) in [(2i64, 9usize), (1, 5), (3, 7)] {
        tr.insert(&mut root, &v, &p);
    }
    tr.delete(&mut root, &8);
    let mut seen = Vec::new();
    treap_inorder(&root, &mut seen);
    assert_eq!(seen, vec![1, 2, 3]);
}

fn avl_check_balance(t: &Option<Box<avl::Node>>) -> i64 {
    match t {
        None => 0,
        Some(n) => {
            let lh = avl_check_balance(&n.lt_node);
            let rh = avl_check_balance(&n.rt_node);
            assert!((lh - rh).abs() <= 1, "unbalanced node {}", n.val);
            assert_eq!(n.height as i64, 1 + lh.max(rh), "stale height at {}", n.val);
            1 + lh.max(rh)
        }
    }
}

fn treap_check_heap(t: &Option<Box<treap::Node>>) {
    if let Some(n) = t {
        if let Some(l) = &n.lt_node {
            assert!(l.priority <= n.priority, "heap broken at {}", n.val);
        }
        if let Some(r) = &n.rt_node {
            assert!(r.priority <= n.priority, "heap broken at {}", n.val);
        }
        treap_check_heap(&n.lt_node);
        treap_check_heap(&n.rt_node);
    }
}

#[test]
fn avl_stays_balanced_under_churn() {
    let mut tree = avl::AVLTree::new();
    let mut root = None;
    for v in 0i64..200 {
        tree.insert(&mut root, &((v * 37) % 101));
        avl_check_balance(&root);
    }
    for v in 0i64..120 {
        tree.delete(&mut root, &((v * 53) % 101));
        avl_check_balance(&root);
    }
    tree.root_node = root;
}

#[test]
fn avl_delete_removes_exactly_one_occurrence() {
    let mut tree = avl::AVLTree::new();
    let mut root = None;
    for v in [7i64, 3, 7, 9, 7, 1] {
        tree.insert(&mut root, &v);
    }
    tree.delete(&mut root, &7);
    let mut seen = Vec::new();
    avl_inorder(&root, &mut seen);
    assert_eq!(seen, vec![1, 3, 7, 7, 9]);
}

#[test]
fn treap_keeps_the_heap_shape_under_churn() {
    let mut tr = treap::Treap::new();
    let mut root = None;
    for v in 0i64..100 {
        let p = ((v * 29) % 97 + 1) as usize;
        tr.insert(&mut root, &((v * 13) % 61), &p);
        treap_check_heap(&root);
    }
    for v in 0i64..60 {
        tr.delete(&mut root, &((v * 31) % 61));
        treap_check_heap(&root);
    }
    tr.root_node = root;
}
