use std::sync::Arc;

use rope_core::child_array::ChildArray;
use rope_core::node::Node;
use rope_core::TextInfo;

fn leaf(text: &str) -> (TextInfo, Arc<Node>) {
    (TextInfo::from_str(text), Arc::new(Node::Leaf(String::from(text))))
}

fn leaf_text(ca: &ChildArray, n: usize) -> String {
    let (_, node) = ca.i(n);
    match &*node {
        Node::Leaf(s) => s.clone(),
        _ => panic!("expected a leaf"),
    }
}

#[test]
fn merge_small_leaves() {
    let mut ca = ChildArray::new();
    ca.push(leaf("Hello, "));
    ca.push(leaf("world!"));
    let merged = ca.merge_distribute(0, 1);
    assert!(merged);
    assert_eq!(ca.len(), 1);
    assert_eq!(leaf_text(&ca, 0), "Hello, world!");
}

#[test]
fn distribute_large_leaves() {
    let a = "x".repeat(300);
    let b = "y".repeat(120);
    let mut ca = ChildArray::new();
    ca.push(leaf(&a));
    ca.push(leaf(&b));
    let merged = ca.merge_distribute(0, 1);
    assert!(!merged);
    assert_eq!(ca.len(), 2);
    let joined = format!("{}{}", leaf_text(&ca, 0), leaf_text(&ca, 1));
    assert_eq!(joined, format!("{}{}", a, b));
    assert!(leaf_text(&ca, 0).len() <= rope_core::node::MAX_BYTES);
    assert!(leaf_text(&ca, 1).len() <= rope_core::node::MAX_BYTES);
}

#[test]
fn search_combine_finds_child() {
    let mut ca = ChildArray::new();
    ca.push(leaf("abc"));
    ca.push(leaf("de\n"));
    ca.push(leaf("fgh"));
    let (idx, acc) = ca.search_combine_info(rope_core::child_array::Metric::Chars, 5);
    assert_eq!(idx, 1);
    assert_eq!(acc.chars, 3);
    assert_eq!(acc.bytes, 3);
    let total = ca.combined_info();
    assert_eq!(total.chars, 9);
    assert_eq!(total.line_breaks, 1);
}
