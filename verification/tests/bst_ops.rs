use bst::arena::Bst;
use bst::arena::BstNode;

fn build(keys: &[i32]) -> Bst {
    let mut t = Bst::new();
    for &k in keys {
        BstNode::tree_insert(&mut t, k);
    }
    t
}

fn key_of(t: &Bst, i: usize) -> i32 {
    t.nodes[i].key.unwrap()
}

fn inorder(t: &Bst, link: Option<usize>, out: &mut Vec<i32>) {
    if let Some(i) = link {
        inorder(t, t.nodes[i].left, out);
        out.push(key_of(t, i));
        inorder(t, t.nodes[i].right, out);
    }
}

fn check_ordering(t: &Bst) {
    let mut keys = Vec::new();
    inorder(t, t.root, &mut keys);
    for w in keys.windows(2) {
        assert!(w[0] <= w[1]);
    }
}

fn check_backrefs(t: &Bst, link: Option<usize>, parent: Option<usize>) {
    if let Some(i) = link {
        assert_eq!(t.nodes[i].parent, parent);
        check_backrefs(t, t.nodes[i].left, Some(i));
        check_backrefs(t, t.nodes[i].right, Some(i));
    }
}

#[test]
fn insert_then_search_round_trip() {
    let t = build(&[5, 3, 8, 1, 4, 7, 9]);
    let root = t.root.unwrap();
    for k in [5, 3, 8, 1, 4, 7, 9] {
        let found = BstNode::tree_search(&t, root, k).expect("inserted key must be found");
        assert_eq!(key_of(&t, found), k);
    }
    for k in [0, 2, 6, 10, -5] {
        assert!(BstNode::tree_search(&t, root, k).is_none());
    }
}

#[test]
fn ordering_and_backrefs_after_inserts() {
    let t = build(&[5, 3, 8, 1, 4, 7, 9]);
    check_ordering(&t);
    check_backrefs(&t, t.root, None);
    let mut keys = Vec::new();
    inorder(&t, t.root, &mut keys);
    assert_eq!(keys, vec![1, 3, 4, 5, 7, 8, 9]);
}

#[test]
fn minimum_and_maximum() {
    let t = build(&[5, 3, 8, 1, 4, 7, 9]);
    let root = t.root.unwrap();
    assert_eq!(key_of(&t, BstNode::minimum(&t, root)), 1);
    assert_eq!(key_of(&t, BstNode::maximum(&t, root)), 9);
}

#[test]
fn successor_of_inner_and_maximum_nodes() {
    let t = build(&[5, 3, 8, 1, 4, 7, 9]);
    let root = t.root.unwrap();
    let n3 = BstNode::tree_search(&t, root, 3).unwrap();
    let n8 = BstNode::tree_search(&t, root, 8).unwrap();
    let n9 = BstNode::tree_search(&t, root, 9).unwrap();
    assert_eq!(key_of(&t, BstNode::tree_successor(&t, n3).unwrap()), 4);
    assert_eq!(key_of(&t, BstNode::tree_successor(&t, n8).unwrap()), 9);
    assert!(BstNode::tree_successor(&t, n9).is_none());
}

#[test]
fn successor_walks_up_without_right_child() {
    let t = build(&[5, 3, 8, 1, 4, 7, 9]);
    let root = t.root.unwrap();
    let n4 = BstNode::tree_search(&t, root, 4).unwrap();
    assert_eq!(key_of(&t, BstNode::tree_successor(&t, n4).unwrap()), 5);
    let n1 = BstNode::tree_search(&t, root, 1).unwrap();
    assert_eq!(key_of(&t, BstNode::tree_successor(&t, n1).unwrap()), 3);
}

#[test]
fn delete_leaf() {
    let mut t = build(&[5, 3, 8, 1, 4, 7, 9]);
    BstNode::delete(&mut t, 1);
    let root = t.root.unwrap();
    assert!(BstNode::tree_search(&t, root, 1).is_none());
    check_ordering(&t);
    check_backrefs(&t, t.root, None);
    let mut keys = Vec::new();
    inorder(&t, t.root, &mut keys);
    assert_eq!(keys, vec![3, 4, 5, 7, 8, 9]);
}

#[test]
fn delete_node_with_one_child() {
    let mut t = build(&[5, 3, 8, 1, 7, 9]);
    BstNode::delete(&mut t, 3);
    let root = t.root.unwrap();
    assert!(BstNode::tree_search(&t, root, 3).is_none());
    assert_eq!(key_of(&t, BstNode::tree_search(&t, root, 1).unwrap()), 1);
    check_ordering(&t);
    check_backrefs(&t, t.root, None);
}

#[test]
fn delete_node_with_two_children() {
    let mut t = build(&[5, 3, 8, 1, 4, 7, 9]);
    BstNode::delete(&mut t, 5);
    let root = t.root.unwrap();
    assert!(BstNode::tree_search(&t, root, 5).is_none());
    assert_eq!(key_of(&t, BstNode::minimum(&t, root)), 1);
    assert_eq!(key_of(&t, BstNode::maximum(&t, root)), 9);
    check_ordering(&t);
    check_backrefs(&t, t.root, None);
    let mut keys = Vec::new();
    inorder(&t, t.root, &mut keys);
    assert_eq!(keys, vec![1, 3, 4, 7, 8, 9]);
}

#[test]
fn delete_root_of_two_node_tree_updates_root() {
    let mut t = build(&[5, 8]);
    BstNode::delete(&mut t, 5);
    let root = t.root.unwrap();
    assert_eq!(key_of(&t, root), 8);
    assert!(t.nodes[root].parent.is_none());
    BstNode::delete(&mut t, 8);
    assert!(t.root.is_none());
}

#[test]
fn delete_absent_key_changes_nothing() {
    let mut t = build(&[5, 3, 8]);
    BstNode::delete(&mut t, 42);
    let mut keys = Vec::new();
    inorder(&t, t.root, &mut keys);
    assert_eq!(keys, vec![3, 5, 8]);
}

#[test]
fn duplicate_keys_route_right_and_delete_one_at_a_time() {
    let mut t = build(&[5, 5, 3]);
    check_ordering(&t);
    let root = t.root.unwrap();
    assert!(BstNode::tree_search(&t, root, 5).is_some());
    BstNode::delete(&mut t, 5);
    let root = t.root.unwrap();
    assert!(BstNode::tree_search(&t, root, 5).is_some());
    BstNode::delete(&mut t, 5);
    let root = t.root.unwrap();
    assert!(BstNode::tree_search(&t, root, 5).is_none());
    assert_eq!(key_of(&t, root), 3);
}

#[test]
fn search_is_idempotent() {
    let t = build(&[5, 3, 8, 1, 4, 7, 9]);
    let root = t.root.unwrap();
    let first = BstNode::tree_search(&t, root, 7).unwrap();
    for _ in 0..5 {
        let again = BstNode::tree_search(&t, root, 7).unwrap();
        assert_eq!(key_of(&t, again), key_of(&t, first));
        assert_eq!(key_of(&t, again), 7);
    }
}

#[test]
fn get_root_from_any_node() {
    let t = build(&[5, 3, 8, 1, 4, 7, 9]);
    let root = t.root.unwrap();
    for k in [5, 3, 8, 1, 4, 7, 9] {
        let n = BstNode::tree_search(&t, root, k).unwrap();
        assert_eq!(BstNode::get_root(&t, n), root);
    }
}

#[test]
fn new_bst_nodelink_is_detached() {
    let mut t = build(&[5]);
    let link = BstNode::new_bst_nodelink(&mut t, 11);
    assert_eq!(t.nodes[link].key, Some(11));
    assert!(t.nodes[link].parent.is_none());
    assert!(t.nodes[link].left.is_none());
    assert!(t.nodes[link].right.is_none());
    let root = t.root.unwrap();
    assert!(BstNode::tree_search(&t, root, 11).is_none());
}

#[test]
fn nodelink_copy_holds_the_same_fields() {
    let mut t = build(&[5, 3, 8]);
    let root = t.root.unwrap();
    let n3 = BstNode::tree_search(&t, root, 3).unwrap();
    let copy = BstNode::get_bst_nodelink_copy(&mut t, n3);
    assert_ne!(copy, n3);
    assert_eq!(t.nodes[copy].key, t.nodes[n3].key);
    assert_eq!(t.nodes[copy].parent, t.nodes[n3].parent);
    assert_eq!(t.nodes[copy].left, t.nodes[n3].left);
    assert_eq!(t.nodes[copy].right, t.nodes[n3].right);
}

#[test]
fn add_children_wire_back_references() {
    let mut t = Bst::new();
    let root = BstNode::new_bst_nodelink(&mut t, 10);
    BstNode::add_left_child(&mut t, root, 5);
    BstNode::add_right_child(&mut t, root, 15);
    let l = t.nodes[root].left.unwrap();
    let r = t.nodes[root].right.unwrap();
    assert_eq!(t.nodes[l].key, Some(5));
    assert_eq!(t.nodes[r].key, Some(15));
    assert_eq!(t.nodes[l].parent, Some(root));
    assert_eq!(t.nodes[r].parent, Some(root));
}

#[test]
fn transplant_replaces_a_child_and_rewires_the_parent() {
    let mut t = build(&[5, 3, 8]);
    let root = t.root.unwrap();
    let n3 = t.nodes[root].left.unwrap();
    let n8 = t.nodes[root].right.unwrap();
    let r = BstNode::transplant(&mut t, n3, Some(n8));
    assert!(r.is_none());
    assert_eq!(t.nodes[root].left, Some(n8));
    assert_eq!(t.nodes[n8].parent, Some(root));
}

#[test]
fn transplant_of_the_root_returns_the_new_root() {
    let mut t = build(&[5, 8]);
    let root = t.root.unwrap();
    let n8 = t.nodes[root].right.unwrap();
    let r = BstNode::transplant(&mut t, root, Some(n8));
    assert_eq!(r, Some(n8));
    assert!(t.nodes[n8].parent.is_none());
}

#[test]
fn transplant_with_absent_replacement_clears_the_link() {
    let mut t = build(&[5, 3]);
    let root = t.root.unwrap();
    let n3 = t.nodes[root].left.unwrap();
    let r = BstNode::transplant(&mut t, n3, None);
    assert!(r.is_none());
    assert!(t.nodes[root].left.is_none());
}

#[test]
fn legacy_successor_variant_returns_tree_nodes() {
    let t = build(&[5, 3, 8, 1, 4, 7, 9]);
    let root = t.root.unwrap();
    for k in [5, 3, 8, 1, 4, 7, 9] {
        let n = BstNode::tree_search(&t, root, k).unwrap();
        if let Some(s) = BstNode::tree_successor_simpler(&t, n) {
            assert!(s < t.nodes.len());
            assert!(t.nodes[s].key.is_some());
        }
    }
}

#[test]
fn insert_into_empty_tree_sets_the_root() {
    let mut t = Bst::new();
    assert!(t.root.is_none());
    BstNode::tree_insert(&mut t, 7);
    let root = t.root.unwrap();
    assert_eq!(key_of(&t, root), 7);
    assert!(t.nodes[root].parent.is_none());
}

#[test]
fn successor_chain_visits_keys_in_order() {
    let t = build(&[5, 3, 8, 1, 4, 7, 9]);
    let root = t.root.unwrap();
    let mut cur = BstNode::minimum(&t, root);
    let mut seen = vec![key_of(&t, cur)];
    while let Some(next) = BstNode::tree_successor(&t, cur) {
        seen.push(key_of(&t, next));
        cur = next;
    }
    assert_eq!(seen, vec![1, 3, 4, 5, 7, 8, 9]);
}

#[test]
fn delete_every_key_one_by_one() {
    let mut t = build(&[5, 3, 8, 1, 4, 7, 9]);
    for k in [5, 3, 8, 1, 4, 7, 9] {
        BstNode::delete(&mut t, k);
        check_ordering(&t);
        check_backrefs(&t, t.root, None);
        if let Some(root) = t.root {
            assert!(BstNode::tree_search(&t, root, k).is_none());
        }
    }
    assert!(t.root.is_none());
}
