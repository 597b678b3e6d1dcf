use code_map::arrangements::binary::{self, get_half_size};
use code_map::arrangements::bisect::SplitError;
use code_map::arrangements::{golden, linear};
use code_map::rect::{squareness, Point, Rect};
use code_map::tree::Tree;

/// Grid units per unit of length: the unit square is `UNIT` by `UNIT`.
const UNIT: u32 = 1_000_000;

fn ratio(r: code_map::rect::Ratio) -> f64 {
    r.num as f64 / r.den as f64
}

fn float_eq(a: f64, b: f64) -> bool {
    (a - b).abs() < 0.001
}

fn assert_float_eq(a: f64, b: f64) {
    assert!(float_eq(a, b), "floats not equal: {:?} == {:?}", a, b);
}

fn average_squareness(rects: &[Rect]) -> f64 {
    let mut sum = 0.0;
    for r in rects {
        sum += ratio(squareness(r));
    }
    sum / rects.len() as f64
}

fn child_rects(tree: &Tree) -> Vec<Rect> {
    tree.children.iter().map(|c| c.rect.unwrap()).collect()
}

fn area(nodes: &[Tree]) -> u64 {
    nodes.iter().map(|n| n.rect.unwrap().area_of()).sum()
}

fn leaf_area(tree: &Tree) -> u64 {
    if tree.children.is_empty() {
        tree.rect.map(|r| r.area_of()).unwrap_or(0)
    } else {
        tree.children.iter().map(leaf_area).sum()
    }
}

fn one_to_ten() -> Tree {
    let mut children = Vec::new();
    for i in 1..=10 {
        children.push(Tree::new_from_size(format!("child_{}", i), i));
    }
    Tree::new_from_children("parent".to_string(), children)
}

#[test]
fn binary_test_squareness() {
    assert_eq!(ratio(squareness(&Rect::new(0, 0, 1, 1))), 1.0);
    assert_eq!(ratio(squareness(&Rect::new(0, 0, 1, 2))), 0.5);
    assert_eq!(ratio(squareness(&Rect::new(0, 0, 2, 1))), 0.5);
    assert_eq!(ratio(squareness(&Rect::new(0, 0, 0, 1))), 0.0);
    assert_eq!(ratio(squareness(&Rect::new(0, 0, 1, 0))), 0.0);
    assert_eq!(ratio(squareness(&Rect::new(0, 0, 0, 0))), 0.0);
}

#[test]
fn square_test_squareness() {
    assert_eq!(ratio(squareness(&Rect::new(0, 0, 1, 1))), 1.0);
    assert_eq!(ratio(squareness(&Rect::new(0, 0, 1, 2))), 0.5);
    assert_eq!(ratio(squareness(&Rect::new(0, 0, 2, 1))), 0.5);
    assert_eq!(ratio(squareness(&Rect::new(0, 0, 0, 1))), 0.0);
    assert_eq!(ratio(squareness(&Rect::new(0, 0, 1, 0))), 0.0);
    assert_eq!(ratio(squareness(&Rect::new(0, 0, 0, 0))), 0.0);
}

#[test]
fn test_half_size_empty() {
    let result = get_half_size(&mut []).expect_err("should fail");
    assert_eq!(result, SplitError::NoNodes);
}

#[test]
fn test_half_size_one() {
    let (index, size) = get_half_size(&mut [Tree::new_from_size("".to_string(), 1)]).unwrap();
    assert_eq!(index, 1);
    assert_eq!(ratio(size), 1.0);
}

#[test]
fn test_half_size_two() {
    let (index, size) = get_half_size(&mut [
        Tree::new_from_size("".to_string(), 1),
        Tree::new_from_size("".to_string(), 1),
    ])
    .unwrap();
    assert_eq!(index, 1);
    assert_eq!(ratio(size), 0.5);
}

#[test]
fn test_half_size_three() {
    let (index, size) = get_half_size(&mut [
        Tree::new_from_size("".to_string(), 1),
        Tree::new_from_size("".to_string(), 1),
        Tree::new_from_size("".to_string(), 1),
    ])
    .unwrap();
    assert_eq!(index, 2);
    assert_float_eq(ratio(size), 0.66666666);
}

#[test]
fn test_half_size_two_big() {
    let (index, size) = get_half_size(&mut [
        Tree::new_from_size("".to_string(), 2),
        Tree::new_from_size("".to_string(), 1),
    ])
    .unwrap();
    assert_eq!(index, 1);
    assert_float_eq(ratio(size), 0.6666666);
}

#[test]
fn half_size_of_weightless_nodes_is_the_middle() {
    let (index, size) = get_half_size(&[
        Tree::new_from_size("".to_string(), 0),
        Tree::new_from_size("".to_string(), 0),
        Tree::new_from_size("".to_string(), 0),
        Tree::new_from_size("".to_string(), 0),
    ])
    .unwrap();
    assert_eq!(index, 2);
    assert_eq!(ratio(size), 0.5);
}

#[test]
fn test_basic_binary() {
    let mut tree = one_to_ten();
    linear::arrange(&mut tree, Rect::new(0, 0, UNIT, UNIT), 0);
    let squareness_linear = average_squareness(&child_rects(&tree));
    let area_linear = area(&tree.children);

    binary::arrange(&mut tree, Rect::new(0, 0, UNIT, UNIT));
    let squareness_binary = average_squareness(&child_rects(&tree));
    let area_binary = area(&tree.children);

    assert!(
        squareness_binary > squareness_linear,
        "{} < {}",
        squareness_binary,
        squareness_linear
    );
    assert_eq!(area_binary, area_linear);
    assert_eq!(area_binary, UNIT as u64 * UNIT as u64);
}

#[test]
fn test_binary_same_size() {
    let mut children = Vec::new();
    let children_count = 8;
    for i in 1..=children_count {
        children.push(Tree::new_from_size(format!("child_{}", i), 1));
    }
    let mut tree = Tree::new_from_children("parent".to_string(), children);
    binary::arrange(&mut tree, Rect::new(0, 0, UNIT, UNIT));
    assert_eq!(tree.children.len(), children_count);
    for child in &tree.children {
        let r = child.rect.unwrap();
        assert_eq!(r.area_of(), UNIT as u64 * UNIT as u64 / children_count as u64);
    }
}

#[test]
fn test_contains() {
    let child_1 = || Tree {
        name: "child1".to_string(),
        size: Some(50),
        rect: Some(Rect::new(0, 0, 300, 1000)),
        children: vec![],
    };
    let child_2 = || Tree {
        name: "child2".to_string(),
        size: Some(50),
        rect: Some(Rect::new(300, 0, 700, 1000)),
        children: vec![],
    };
    let mut map = Tree {
        name: "root".to_string(),
        size: Some(100),
        rect: Some(Rect::new(0, 0, 1000, 1000)),
        children: vec![child_1(), child_2()],
    };
    linear::arrange(&mut map, Rect::new(0, 0, 1000, 1000), 0);
    assert_eq!(map.deepest_child(Point { x: 0, y: 0 }), &child_1());
    assert_eq!(map.deepest_child(Point { x: 500, y: 500 }), &child_2());
}

/// Grid units per unit of length in the recursive linear layout.
const MILLI: f64 = 1000.0;

fn rect_eq(a: Rect, x: f64, y: f64, w: f64, h: f64) -> bool {
    let near = |v: u32, e: f64| (v as f64 - e * MILLI).abs() < 1.0;
    near(a.x, x) && near(a.y, y) && near(a.w, w) && near(a.h, h)
}

fn assert_rect_eq(a: Rect, x: f64, y: f64, w: f64, h: f64) {
    assert!(rect_eq(a, x, y, w, h), "rects not equal: {:?} == {:?}", a, (x, y, w, h));
}

#[test]
fn test_arrange_recursive() {
    let mut map = Tree::new_from_children(
        "root".to_string(),
        vec![
            Tree::new_from_children(
                "child_1".to_string(),
                vec![
                    Tree::new_from_size("child_1_1".to_string(), 5),
                    Tree::new_from_size("child_1_2".to_string(), 7),
                    Tree::new_from_size("child_1_3".to_string(), 15),
                ],
            ),
            Tree::new_from_children(
                "child_2".to_string(),
                vec![
                    Tree::new_from_size("child_2_1".to_string(), 3),
                    Tree::new_from_size("child_2_2".to_string(), 20),
                    Tree::new_from_size("child_2_3".to_string(), 10),
                ],
            ),
        ],
    );
    let (top_w, top_h) = (200.0, 100.0);
    linear::arrange(&mut map, Rect::new(0, 0, 200_000, 100_000), 0);
    assert_rect_eq(map.rect.unwrap(), 0.0, 0.0, top_w, top_h);
    assert_rect_eq(map.children[0].rect.unwrap(), 0.0, 0.0, 33.0 / 60.0 * top_w, 100.0);
    assert_rect_eq(
        map.children[1].rect.unwrap(),
        33.0 / 60.0 * top_w,
        0.0,
        27.0 / 60.0 * top_w,
        100.0,
    );

    let width_0 = 33.0 / 60.0 * top_w;
    let width_00 = width_0 * 20.0 / 33.0;
    let width_01 = width_0 * 10.0 / 33.0;
    let width_02 = width_0 * 3.0 / 33.0;
    assert_rect_eq(map.children[0].children[0].rect.unwrap(), 0.0, 0.0, width_00, 100.0);
    assert_rect_eq(map.children[0].children[1].rect.unwrap(), width_00, 0.0, width_01, 100.0);
    assert_rect_eq(
        map.children[0].children[2].rect.unwrap(),
        width_00 + width_01,
        0.0,
        width_02,
        100.0,
    );

    let width_1 = 27.0 / 60.0 * top_w;
    let height_1 = top_h;
    let height_10 = height_1 * 15.0 / 27.0;
    let height_11 = height_1 * 7.0 / 27.0;
    let height_12 = height_1 * 5.0 / 27.0;
    assert_rect_eq(map.children[1].children[0].rect.unwrap(), width_0, 0.0, width_1, height_10);
    assert_rect_eq(
        map.children[1].children[1].rect.unwrap(),
        width_0,
        height_10,
        width_1,
        height_11,
    );
    assert_rect_eq(
        map.children[1].children[2].rect.unwrap(),
        width_0,
        height_10 + height_11,
        width_1,
        height_12,
    );
}

#[test]
fn areas_are_conserved_by_every_strategy() {
    let nested = || {
        Tree::new_from_children(
            "root".to_string(),
            vec![
                one_to_ten(),
                Tree::new_from_size("lone".to_string(), 13),
                Tree::new_from_children(
                    "pair".to_string(),
                    vec![
                        Tree::new_from_size("a".to_string(), 3),
                        Tree::new_from_size("b".to_string(), 0),
                    ],
                ),
            ],
        )
    };
    let rect = Rect::new(7, 11, 997, 613);
    let mut t = nested();
    binary::arrange(&mut t, rect);
    assert_eq!(leaf_area(&t), rect.area_of());
    let mut t = nested();
    golden::arrange(&mut t, rect);
    assert_eq!(leaf_area(&t), rect.area_of());
    let mut t = nested();
    linear::arrange(&mut t, rect, 0);
    assert_eq!(leaf_area(&t), rect.area_of());
}

#[test]
fn padding_shrinks_each_rectangle() {
    let mut t = Tree::new_from_children(
        "root".to_string(),
        vec![Tree::new_from_size("a".to_string(), 1), Tree::new_from_size("b".to_string(), 1)],
    );
    linear::arrange(&mut t, Rect::new(0, 0, 100, 50), 5);
    assert_eq!(t.rect, Some(Rect::new(0, 0, 100, 50)));
    assert_eq!(t.children[0].rect, Some(Rect::new(5, 5, 45, 40)));
    assert_eq!(t.children[1].rect, Some(Rect::new(50, 5, 45, 40)));
}

#[test]
fn weightless_siblings_share_the_area_evenly() {
    let mut t = Tree::new_from_children(
        "root".to_string(),
        vec![Tree::new_from_size("a".to_string(), 0), Tree::new_from_size("b".to_string(), 0)],
    );
    binary::arrange(&mut t, Rect::new(0, 0, 100, 40));
    assert_eq!(t.children[0].rect, Some(Rect::new(0, 0, 50, 40)));
    assert_eq!(t.children[1].rect, Some(Rect::new(50, 0, 50, 40)));
}

#[test]
fn zero_area_shows_only_the_root() {
    let mut t = one_to_ten();
    binary::arrange(&mut t, Rect::new(0, 0, 100, 100));
    assert_eq!(t.count_visible().total, 11);
    binary::arrange(&mut t, Rect::new(0, 0, 0, 100));
    assert_eq!(t.count_visible().total, 1);
    assert!(t.count_visible().total < t.count().total);
    assert_eq!(t.rect, Some(Rect::new(0, 0, 0, 100)));
    let mut g = one_to_ten();
    golden::arrange(&mut g, Rect::new(3, 3, 50, 0));
    assert_eq!(g.count_visible().total, 1);
}

#[test]
fn equal_trees_stay_equal_after_the_same_arrangement() {
    let mut a = one_to_ten();
    let mut b = one_to_ten();
    assert!(a.recursive_equals(&b));
    binary::arrange(&mut a, Rect::new(0, 0, 640, 480));
    binary::arrange(&mut b, Rect::new(0, 0, 640, 480));
    assert!(a.recursive_equals(&b));
    linear::arrange(&mut a, Rect::new(0, 0, 320, 200), 2);
    linear::arrange(&mut b, Rect::new(0, 0, 320, 200), 2);
    assert!(a.recursive_equals(&b));
}

#[test]
fn golden_split_favours_the_first_group_less() {
    let mut t = Tree::new_from_children(
        "root".to_string(),
        vec![
            Tree::new_from_size("a".to_string(), 3),
            Tree::new_from_size("b".to_string(), 3),
            Tree::new_from_size("c".to_string(), 2),
            Tree::new_from_size("d".to_string(), 2),
        ],
    );
    golden::arrange(&mut t, Rect::new(0, 0, 1000, 1000));
    // 3 of 10 already reaches 287 thousandths: the first node alone is split off.
    assert_eq!(t.children[0].rect, Some(Rect::new(0, 0, 300, 1000)));
    let mut b = Tree::new_from_children(
        "root".to_string(),
        vec![
            Tree::new_from_size("a".to_string(), 3),
            Tree::new_from_size("b".to_string(), 3),
            Tree::new_from_size("c".to_string(), 2),
            Tree::new_from_size("d".to_string(), 2),
        ],
    );
    binary::arrange(&mut b, Rect::new(0, 0, 1000, 1000));
    // half of 10 needs the first two nodes: they share the left 600.
    assert_eq!(b.children[0].rect, Some(Rect::new(0, 0, 600, 500)));
    assert_eq!(b.children[1].rect, Some(Rect::new(0, 500, 600, 500)));
}
