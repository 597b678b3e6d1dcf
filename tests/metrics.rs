use code_map::words::{count_words, WordCount};
use code_map::extensions::{has_allowed_extension, is_text_file, text_file_extensions};
use code_map::metrics::Metrics;
use code_map::ui::{format_units, set_if_different_or_unset_if_same};
use code_map::tree::{Tree, TreeView};

#[test]
fn metrics_are_selected_by_long_and_short_names() {
    assert_eq!(Metrics::from_str("bytes-per-file"), Some(Metrics::BytesPerFile));
    assert_eq!(Metrics::from_str("c"), Some(Metrics::ChurnPerFile));
    assert_eq!(Metrics::from_str("lines-per-file"), Some(Metrics::LinesPerFile));
    assert_eq!(Metrics::from_str("w"), Some(Metrics::WordMentions));
    assert_eq!(Metrics::from_str("bytes"), None);
    assert_eq!(Metrics::metric_names().len(), 8);
    assert_eq!(Metrics::metric_names()[2], "churn-per-file");
}

#[test]
fn extensions_are_read_from_the_file_name() {
    assert!(has_allowed_extension("src/main.rs", &["rs", "md"]));
    assert!(!has_allowed_extension("src/main.rs", &["md"]));
    assert!(!has_allowed_extension("Makefile", &["rs", "Makefile"]));
    assert!(!has_allowed_extension("dir.rs/file", &["rs"]));
    assert!(is_text_file("notes/readme.txt"));
    assert!(!is_text_file("image.png"));
    assert_eq!(text_file_extensions().len(), 29);
}

#[test]
fn units_are_grouped_by_thousands() {
    assert_eq!(format_units(1234567, "bytes"), "1 234 567 bytes");
    assert_eq!(format_units(123, "lines"), "123 lines");
    assert_eq!(format_units(0, "x"), "0 x");
    assert_eq!(format_units(1000, "x"), "1 000 x");
    assert_eq!(format_units(-1234, "x"), "-1 234 x");
}

#[test]
fn selecting_twice_clears_the_selection() {
    let node = Tree::new_from_size("a".to_string(), 3);
    let view = || vec![TreeView::from_node(&node)];
    let mut selected = None;
    set_if_different_or_unset_if_same(&mut selected, view());
    assert!(selected.is_some());
    set_if_different_or_unset_if_same(&mut selected, view());
    assert!(selected.is_none());
    set_if_different_or_unset_if_same(&mut selected, view());
    let other = Tree::new_from_size("b".to_string(), 3);
    set_if_different_or_unset_if_same(&mut selected, vec![TreeView::from_node(&other)]);
    assert_eq!(selected.unwrap()[0].name, "b");
}

#[test]
fn words_are_counted_in_order_of_appearance() {
    let mut counts: Vec<WordCount> = Vec::new();
    count_words("fn main() { let x_1 = x_1 + 1; }", &mut counts);
    let seen: Vec<(&str, i64)> = counts.iter().map(|c| (c.word.as_str(), c.count)).collect();
    assert_eq!(seen, vec![("fn", 1), ("main", 1), ("let", 1), ("x_1", 2), ("1", 1)]);
    count_words("héllo wörld, héllo", &mut counts);
    assert_eq!(counts[5].word, "héllo");
    assert_eq!(counts[5].count, 2);
    assert_eq!(counts[6].word, "wörld");
    count_words("", &mut counts);
    assert_eq!(counts.len(), 7);
}
