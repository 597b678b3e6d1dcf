use code_map::node::Node;

#[test]
fn node_test_basic_size_computation() {
    let mut tree = Node::new_from_children(
        "root".to_string(),
        vec![
            Node::new_from_size("child1".to_string(), 5),
            Node::new_from_size("child2".to_string(), 7),
        ],
    );

    assert_eq!(tree.get_or_compute_size(), 12);
    assert_eq!(tree.size, Some(12));
}

#[test]
fn node_size_is_kept_once_set() {
    let mut leaf = Node::new_from_size("leaf".to_string(), 3);
    assert_eq!(leaf.get_or_compute_size(), 3);
    let mut parent = Node::new_from_children(
        "parent".to_string(),
        vec![
            Node::new_from_children("empty".to_string(), vec![]),
            Node::new_from_size("file".to_string(), 9),
        ],
    );
    assert_eq!(parent.get_or_compute_size(), 9);
    assert_eq!(parent.children[0].size, Some(0));
}
