use code_map::churn::{add_file, file_churns_to_tree, sort_by_count, ChurnError, FileChurn};
use code_map::tree::Tree;

fn assert_trees_eq(left: &Tree, right: &Tree) {
    assert!(
        left.recursive_equals(right),
        "assertion failed: `(left == right)`\n  left: `{:#?}`,\n right: `{:#?}`",
        left,
        right
    );
}

fn churn(path: &str, count: i32) -> FileChurn {
    FileChurn { path: path.to_string(), count }
}

#[test]
fn test_churn_tree_creation() {
    let file_churns = vec![
        churn("src/arrangements/binary.rs", 1),
        churn("src/metrics/word_mentions.rs", 2),
        churn("src/main.rs", 3),
        churn("src/metrics/bytes_per_file.rs", 4),
    ];

    let tree = file_churns_to_tree(".", file_churns).unwrap();

    let expected = Tree::new_from_computed_size(".".into(), 10, vec![
        Tree::new_from_computed_size("./src".into(), 10, vec![
            Tree::new_from_computed_size("./src/arrangements".into(), 1, vec![
                Tree::new_from_size("./src/arrangements/binary.rs".into(), 1),
            ]),
            Tree::new_from_computed_size("./src/metrics".into(), 6, vec![
                Tree::new_from_size("./src/metrics/word_mentions.rs".into(), 2),
                Tree::new_from_size("./src/metrics/bytes_per_file.rs".into(), 4),
            ]),
            Tree::new_from_size("./src/main.rs".into(), 3),
        ]),
    ]);
    assert_trees_eq(&tree, &expected);
}

#[test]
fn test_churn_tree_creation_basic() {
    let file_churns = vec![churn("main.rs", 1), churn("lib.rs", 2)];

    let tree = file_churns_to_tree(".", file_churns).unwrap();

    let expected = Tree::new_from_computed_size(".".into(), 3, vec![
        Tree::new_from_size("./main.rs".into(), 1),
        Tree::new_from_size("./lib.rs".into(), 2),
    ]);
    assert_trees_eq(&tree, &expected);
}

#[test]
fn test_churn_tree_creation_one_level_deep() {
    let file_churns = vec![churn("src/main.rs", 1), churn("src/lib.rs", 2)];

    let tree = file_churns_to_tree(".", file_churns).unwrap();

    let expected = Tree::new_from_computed_size(".".into(), 3, vec![
        Tree::new_from_computed_size("./src".into(), 3, vec![
            Tree::new_from_size("./src/main.rs".into(), 1),
            Tree::new_from_size("./src/lib.rs".into(), 2),
        ]),
    ]);
    assert_trees_eq(&tree, &expected);
}

#[test]
fn test_churn_tree_creation_complex_top_level() {
    let file_churns = vec![churn("src/main.rs", 1), churn("src/lib.rs", 2)];

    let tree = file_churns_to_tree("./src/../", file_churns).unwrap();

    let expected = Tree::new_from_computed_size("./src/../".into(), 3, vec![
        Tree::new_from_computed_size("./src/../src".into(), 3, vec![
            Tree::new_from_size("./src/../src/main.rs".into(), 1),
            Tree::new_from_size("./src/../src/lib.rs".into(), 2),
        ]),
    ]);
    assert_trees_eq(&tree, &expected);
}

#[test]
fn empty_folder_is_refused() {
    let result = file_churns_to_tree("", vec![churn("a.rs", 1)]);
    assert_eq!(result.err(), Some(ChurnError::EmptyFolder));
}

#[test]
fn large_folder_totals_fit() {
    let mut files = Vec::new();
    for i in 0..5 {
        files.push(churn(&format!("d/f{}", i), i32::MAX));
    }
    let tree = file_churns_to_tree("repo", files).unwrap();
    assert_eq!(tree.size, Some(5 * i32::MAX as i64));
}

#[test]
fn no_files_give_an_empty_root() {
    let tree = file_churns_to_tree("repo/", vec![]).unwrap();
    assert_eq!(tree.name, "repo/");
    assert_eq!(tree.size, Some(0));
    assert!(tree.children.is_empty());
}

#[test]
fn add_file_counts_each_change() {
    let mut counts = Vec::new();
    add_file("a.rs".to_string(), &mut counts);
    add_file("b.rs".to_string(), &mut counts);
    add_file("a.rs".to_string(), &mut counts);
    assert_eq!(counts.len(), 2);
    assert_eq!(counts[0].path, "a.rs");
    assert_eq!(counts[0].count, 2);
    assert_eq!(counts[1].path, "b.rs");
    assert_eq!(counts[1].count, 1);
}

#[test]
fn churns_sort_by_count_keeping_ties_in_order() {
    let mut files = vec![churn("a", 3), churn("b", 1), churn("c", 3), churn("d", 2), churn("e", 1)];
    sort_by_count(&mut files);
    let order: Vec<(&str, i32)> = files.iter().map(|f| (f.path.as_str(), f.count)).collect();
    assert_eq!(order, vec![("b", 1), ("e", 1), ("d", 2), ("a", 3), ("c", 3)]);
}
