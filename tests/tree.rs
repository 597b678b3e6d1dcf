use code_map::rect::{Point, Rect};
use code_map::tree::{fuzzy_contains, Tree, TreeView};

#[test]
fn tree_test_basic_size_computation() {
    let mut tree = Tree::new_from_children(
        "root".to_string(),
        vec![
            Tree::new_from_size("child1".to_string(), 5),
            Tree::new_from_size("child2".to_string(), 7),
        ],
    );

    assert_eq!(tree.get_or_compute_size(), 12);
    assert_eq!(tree.size, Some(12));
}

#[test]
fn test_fuzzy_search() {
    assert!(fuzzy_contains("hello world", &vec!["hello", "world"]));
    assert!(!fuzzy_contains("hello world", &vec!["world", "hello"]));
    assert!(fuzzy_contains("a b c", &vec!["a", "c"]));
    assert!(fuzzy_contains("abc", &vec!["a", "c"]));
    assert!(!fuzzy_contains("abc", &vec!["b", "a"]));
    assert!(fuzzy_contains(
        "ConfigurationManager",
        &vec!["config", "man"]
    ));
    assert!(!fuzzy_contains(
        "ConfigurationManager",
        &vec!["config", "config"]
    ));
}

fn sample() -> Tree {
    Tree::new_from_children(
        "root".to_string(),
        vec![
            Tree::new_from_children(
                "src".to_string(),
                vec![
                    Tree::new_from_size("src/ConfigurationManager.rs".to_string(), 4),
                    Tree::new_from_size("src/main.rs".to_string(), 2),
                ],
            ),
            Tree::new_from_size("README.md".to_string(), 1),
        ],
    )
}

#[test]
fn search_words_keeps_token_order() {
    let tree = sample();
    assert_eq!(
        tree.search_words("config man", 10),
        vec!["src/ConfigurationManager.rs".to_string()]
    );
    assert!(tree.search_words("man config", 10).is_empty());
    assert!(tree.search_words("config config", 10).is_empty());
}

#[test]
fn search_words_lowercases_the_query() {
    let tree = sample();
    assert_eq!(
        tree.search_words("README", 10),
        vec!["README.md".to_string()]
    );
}

#[test]
fn search_matches_in_lowercase_and_stops_at_limit() {
    let tree = sample();
    assert_eq!(
        tree.search("configuration", 10),
        vec!["src/ConfigurationManager.rs".to_string()]
    );
    assert_eq!(
        tree.search("src", 10),
        vec![
            "src".to_string(),
            "src/ConfigurationManager.rs".to_string(),
            "src/main.rs".to_string()
        ]
    );
    assert_eq!(tree.search("src", 2).len(), 2);
    assert!(tree.search("src", 0).is_empty());
    assert!(tree.search("nothing", 5).is_empty());
}

#[test]
fn counts_nodes_and_leaves() {
    let tree = sample();
    let counts = tree.count();
    assert_eq!(counts.total, 5);
    assert_eq!(counts.leafs, 3);
    let visible = tree.count_visible();
    assert_eq!(visible.total, 0);
    assert_eq!(visible.leafs, 0);
}

#[test]
fn nested_by_name_gives_the_ancestor_path() {
    let tree = sample();
    let path = tree.get_nested_by_name("src/main.rs");
    let names: Vec<&str> = path.iter().map(|t| t.name.as_str()).collect();
    assert_eq!(names, vec!["root", "src", "src/main.rs"]);
    assert!(tree.get_nested_by_name("missing").is_empty());
    let views = TreeView::from_nodes(&path);
    assert_eq!(views.len(), 3);
    assert_eq!(views[1].size, 6);
    assert_eq!(views[1].children_count, 2);
}

#[test]
fn recursive_equals_ignores_rects() {
    let mut a = sample();
    let b = sample();
    assert!(a.recursive_equals(&b));
    a.rect = Some(Rect::new(0, 0, 10, 10));
    assert!(a.recursive_equals(&b));
    let c = Tree::new_from_size("root".to_string(), 7);
    assert!(!a.recursive_equals(&c));
    assert!(a == Tree::new_from_size("root".to_string(), 7));
}

#[test]
fn nested_by_position_follows_the_rects() {
    let mut tree = sample();
    tree.rect = Some(Rect::new(0, 0, 100, 100));
    tree.children[0].rect = Some(Rect::new(0, 0, 60, 100));
    tree.children[1].rect = Some(Rect::new(60, 0, 40, 100));
    tree.children[0].children[0].rect = Some(Rect::new(0, 0, 60, 70));
    tree.children[0].children[1].rect = Some(Rect::new(0, 70, 60, 30));
    let path = tree.get_nested_by_position(Point { x: 10, y: 80 });
    let names: Vec<&str> = path.iter().map(|t| t.name.as_str()).collect();
    assert_eq!(names, vec!["root", "src", "src/main.rs"]);
    assert_eq!(tree.deepest_child(Point { x: 60, y: 0 }).name, "README.md");
    let outside = tree.get_nested_by_position(Point { x: 200, y: 200 });
    assert_eq!(outside.len(), 1);
}
