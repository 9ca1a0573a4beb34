use rust_mind_map::node::{fresh_id, Node};

fn node(id: u128, text: &str, children: Vec<Node>) -> Node {
    Node {
        id,
        text: text.to_string(),
        children,
        collapsed: false,
        rank_positive: 0,
        rank_negative: 0,
        stars: 0,
        symbol: None,
        hidden: false,
    }
}

fn sample() -> Node {
    // 1 root
    //   2 a
    //     4 c
    //   3 b
    node(1, "root", vec![node(2, "a", vec![node(4, "c", vec![])]), node(3, "b", vec![])])
}

#[test]
fn new_root_is_a_single_root_node() {
    let r = Node::new_root();
    assert_eq!(r.text, "root");
    assert!(r.children.is_empty());
    assert!(!r.collapsed);
    assert_eq!(r.stars, 0);
    assert_eq!(r.symbol, None);
}

#[test]
fn new_nodes_get_version_four_identifiers() {
    let a = Node::new("x".to_string());
    let b = Node::new("y".to_string());
    assert_ne!(a.id, b.id);
    assert_eq!((a.id >> 76) & 0xf, 4);
    assert_eq!((a.id >> 62) & 0x3, 2);
}

#[test]
fn add_child_appends_and_returns_id() {
    let mut r = sample();
    let id = r.add_child("d".to_string());
    assert_eq!(r.children.len(), 3);
    assert_eq!(r.children[2].id, id);
    assert_eq!(r.children[2].text, "d");
}

#[test]
fn find_node_gives_first_in_preorder() {
    let mut t = sample();
    // a second node with id 4, after the first in pre-order
    t.children[1].children.push(node(4, "dup", vec![]));
    assert_eq!(t.find_node(4).unwrap().text, "c");
    assert_eq!(t.find_node(3).unwrap().text, "b");
    assert!(t.find_node(99).is_none());
}

#[test]
fn find_node_mut_changes_in_place() {
    let mut t = sample();
    t.find_node_mut(4).unwrap().text = "changed".to_string();
    assert_eq!(t.children[0].children[0].text, "changed");
    assert!(t.find_node_mut(42).is_none());
}

#[test]
fn get_all_nodes_is_preorder() {
    assert_eq!(sample().get_all_nodes(), vec![1, 2, 4, 3]);
}

#[test]
fn search_ignores_case() {
    let mut t = sample();
    t.children[0].text = "Hello World".to_string();
    t.children[1].text = "WORLDS apart".to_string();
    assert_eq!(t.search("world"), vec![2, 3]);
    assert_eq!(t.search("xyz"), Vec::<u128>::new());
    assert_eq!(t.search(""), vec![1, 2, 4, 3]);
}

#[test]
fn get_level_counts_depth() {
    let t = sample();
    assert_eq!(t.get_level(1, 0), Some(0));
    assert_eq!(t.get_level(4, 0), Some(2));
    assert_eq!(t.get_level(3, 5), Some(6));
    assert_eq!(t.get_level(77, 0), None);
}

#[test]
fn remove_child_prefers_direct_children() {
    let mut t = sample();
    t.children[0].children.push(node(3, "deep three", vec![]));
    let removed = t.remove_child(3).unwrap();
    assert_eq!(removed.text, "b");
    assert_eq!(t.children.len(), 1);
    let removed = t.remove_child(3).unwrap();
    assert_eq!(removed.text, "deep three");
    assert!(t.remove_child(3).is_none());
    assert!(t.remove_child(1).is_none());
}

#[test]
fn find_parent_mut_finds_parent() {
    let mut t = sample();
    assert_eq!(t.find_parent_mut(4).unwrap().id, 2);
    assert_eq!(t.find_parent_mut(3).unwrap().id, 1);
    assert!(t.find_parent_mut(1).is_none());
    t.find_parent_mut(4).unwrap().text = "parent".to_string();
    assert_eq!(t.children[0].text, "parent");
}

#[test]
fn collapse_and_expand_all() {
    let mut t = sample();
    t.collapse_all();
    assert!(t.collapsed && t.children[0].collapsed && t.children[0].children[0].collapsed);
    t.expand_all();
    assert!(!t.collapsed && !t.children[0].collapsed && !t.children[0].children[0].collapsed);
}

#[test]
fn collapse_to_level_collapses_deep_nodes() {
    let mut t = sample();
    t.collapse_to_level(1, 0);
    assert!(!t.collapsed);
    assert!(t.children[0].collapsed);
    assert!(t.children[1].collapsed);
    assert!(t.children[0].children[0].collapsed);
    t.collapse_to_level(2, 0);
    assert!(!t.children[0].collapsed);
    assert!(t.children[0].children[0].collapsed);
}

#[test]
fn deep_clone_copies_everything() {
    let mut t = sample();
    t.children[0].stars = 3;
    let c = t.deep_clone();
    assert_eq!(c.get_all_nodes(), t.get_all_nodes());
    assert_eq!(c.children[0].stars, 3);
    assert_eq!(c.children[0].children[0].text, "c");
}

#[test]
fn height_of_a_tree() {
    assert_eq!(sample().height(), 2);
    assert_eq!(node(9, "leaf", vec![]).height(), 0);
}

#[test]
fn child_position_finds_direct_children_only() {
    let t = sample();
    assert_eq!(t.child_position(3), Some(1));
    assert_eq!(t.child_position(4), None);
}

#[test]
fn search_results_are_nodes_of_the_map() {
    let t = sample();
    let all = t.get_all_nodes();
    for q in ["", "a", "B", "zzz"] {
        for id in t.search(q) {
            assert!(all.contains(&id));
        }
    }
}

#[test]
fn collapse_to_level_follows_each_nodes_level() {
    for target in 0..4usize {
        let mut t = sample();
        t.collapse_to_level(target, 0);
        for id in t.get_all_nodes() {
            let level = t.get_level(id, 0).unwrap();
            assert_eq!(t.find_node(id).unwrap().collapsed, level >= target);
        }
    }
}

#[test]
fn removing_a_node_takes_out_its_subtree() {
    let mut t = sample();
    let removed = t.remove_child(2).unwrap();
    assert_eq!(removed.id, 2);
    assert_eq!(removed.get_all_nodes(), vec![2, 4]);
    assert_eq!(t.get_all_nodes(), vec![1, 3]);
    let mut t = sample();
    let removed = t.remove_child(4).unwrap();
    assert_eq!(removed.get_all_nodes(), vec![4]);
    assert_eq!(t.get_all_nodes(), vec![1, 2, 3]);
    assert!(sample().remove_child(1).is_none());
}

#[test]
fn fresh_identifiers_avoid_the_given_ones() {
    let avoid = vec![0u128, 1, 2];
    for _ in 0..10 {
        assert!(!avoid.contains(&fresh_id(&avoid)));
    }
    let t = sample();
    let mut taken = t.get_all_nodes();
    let c = t.copy_with_fresh_ids(&mut taken);
    let ids = c.get_all_nodes();
    assert_eq!(ids.len(), 4);
    for id in &ids {
        assert!(![1u128, 2, 3, 4].contains(id));
    }
    assert_eq!(taken.len(), 8);
    assert_eq!(c.children[0].children[0].text, "c");
    assert_eq!(c.children[1].text, "b");
}
