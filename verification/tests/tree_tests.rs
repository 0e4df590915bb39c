use egui::{pos2, Rect};
use emdock::node::Node;
use emdock::tree::{Split, Tree};

type T = Tree<u8, f32>;

fn titles(t: &T, i: usize) -> Vec<String> {
    match t.node(i) {
        Node::Leaf { tabs, .. } => tabs.iter().map(|p| p.title.clone()).collect(),
        _ => panic!("node {} is not a leaf", i),
    }
}

fn active(t: &T, i: usize) -> usize {
    match t.node(i) {
        Node::Leaf { active, .. } => *active,
        _ => panic!("node {} is not a leaf", i),
    }
}

fn is_empty(t: &T, i: usize) -> bool {
    matches!(t.node(i), Node::Empty)
}

fn hsplit_ratio(t: &T, i: usize) -> Option<f32> {
    match t.node(i) {
        Node::HSplit { ratio, .. } => Some(*ratio),
        _ => None,
    }
}

fn vsplit_ratio(t: &T, i: usize) -> Option<f32> {
    match t.node(i) {
        Node::VSplit { ratio, .. } => Some(*ratio),
        _ => None,
    }
}

fn tab_count(t: &T) -> usize {
    (0..t.len())
        .map(|i| match t.node(i) {
            Node::Leaf { tabs, .. } => tabs.len(),
            _ => 0,
        })
        .sum()
}

fn s(x: &str) -> String {
    x.to_string()
}

/// The layout of the crate's example program.
fn example_layout() -> T {
    let mut tree: T = Tree::new();
    let (left, right) = tree.hsplit(0, 0.5);
    let (top, bottom) = tree.vsplit(left, 0.6);
    tree.tab(top, s("Page"), 1);
    tree.tab(bottom, s("Hello"), 2);
    tree.tab(bottom, s("Foo"), 3);
    tree.tab(right, s("KOLJDFSKLIHFGKSGDHKJFGFSGFG"), 4);
    tree
}

#[test]
fn new_tree_is_empty() {
    let t: T = Tree::new();
    assert_eq!(t.len(), 0);
    let d: T = Tree::default();
    assert_eq!(d.len(), 0);
}

#[test]
fn splits_return_child_indices() {
    let mut t: T = Tree::new();
    assert_eq!(t.hsplit(0, 0.5), (1, 2));
    assert_eq!(t.vsplit(2, 0.3), (5, 6));
    assert_eq!(t.hsplit(6, 0.1), (13, 14));
    assert_eq!(t.len(), 7);
    assert_eq!(hsplit_ratio(&t, 0), Some(0.5));
    assert_eq!(vsplit_ratio(&t, 2), Some(0.3));
    assert_eq!(hsplit_ratio(&t, 6), Some(0.1));
    for i in [1, 3, 4, 5] {
        assert!(is_empty(&t, i));
    }
}

#[test]
fn example_layout_builds_the_expected_tree() {
    let t = example_layout();
    assert_eq!(t.len(), 5);
    assert_eq!(hsplit_ratio(&t, 0), Some(0.5));
    assert_eq!(vsplit_ratio(&t, 1), Some(0.6));
    assert_eq!(titles(&t, 2), vec![s("KOLJDFSKLIHFGKSGDHKJFGFSGFG")]);
    assert_eq!(titles(&t, 3), vec![s("Page")]);
    assert_eq!(titles(&t, 4), vec![s("Hello"), s("Foo")]);
    assert_eq!(active(&t, 4), 0);
    match t.node(4) {
        Node::Leaf { tabs, .. } => {
            assert_eq!(tabs[0].ui, 2);
            assert_eq!(tabs[1].ui, 3);
        }
        _ => panic!(),
    }
}

#[test]
fn tab_creates_leaf_past_the_end() {
    let mut t: T = Tree::new();
    t.tab(5, s("far"), 0);
    assert_eq!(t.len(), 6);
    for i in 0..5 {
        assert!(is_empty(&t, i));
    }
    assert_eq!(titles(&t, 5), vec![s("far")]);
    assert_eq!(active(&t, 5), 0);
}

#[test]
fn tab_replaces_a_split_with_a_leaf() {
    let mut t: T = Tree::new();
    t.hsplit(0, 0.5);
    t.tab(0, s("root"), 0);
    assert_eq!(t.len(), 1);
    assert_eq!(titles(&t, 0), vec![s("root")]);
}

#[test]
fn tab_keeps_the_selection_of_an_existing_leaf() {
    let mut t: T = Tree::new();
    t.tab(0, s("a"), 0);
    t.select(0, 0);
    t.tab(0, s("b"), 1);
    assert_eq!(titles(&t, 0), vec![s("a"), s("b")]);
    assert_eq!(active(&t, 0), 0);
}

#[test]
fn render_state_setters() {
    let mut t = example_layout();
    let r = Rect::from_min_max(pos2(0.0, 0.0), pos2(100.0, 50.0));
    t.set_rect(0, r);
    assert!(matches!(t.node(0), Node::HSplit { rect, .. } if *rect == r));
    t.set_ratio(0, 0.9);
    assert_eq!(hsplit_ratio(&t, 0), Some(0.9));
    t.set_ratio(4, 0.9);
    assert_eq!(titles(&t, 4), vec![s("Hello"), s("Foo")]);
    t.select(4, 1);
    assert_eq!(active(&t, 4), 1);
    t.select(0, 1);
    assert_eq!(hsplit_ratio(&t, 0), Some(0.9));
    assert_eq!(tab_count(&t), 4);
}

#[test]
fn locate_follows_the_diagonals() {
    for a in [false, true] {
        for b in [false, true] {
            assert_eq!(Split::locate(true, a, b), Split::Tab);
        }
    }
    assert_eq!(Split::locate(false, false, false), Split::Left);
    assert_eq!(Split::locate(false, true, true), Split::Right);
    assert_eq!(Split::locate(false, true, false), Split::Above);
    assert_eq!(Split::locate(false, false, true), Split::Below);
}

#[test]
fn dock_into_another_tab_bar() {
    let mut t = example_layout();
    t.dock(4, 1, 2, Split::Tab, 0.5);
    assert_eq!(t.len(), 5);
    assert_eq!(titles(&t, 4), vec![s("Hello")]);
    assert_eq!(titles(&t, 2), vec![s("KOLJDFSKLIHFGKSGDHKJFGFSGFG"), s("Foo")]);
    assert_eq!(active(&t, 2), 1);
    assert_eq!(tab_count(&t), 4);
}

#[test]
fn dock_into_own_tab_bar_moves_tab_last() {
    let mut t = example_layout();
    t.dock(4, 0, 4, Split::Tab, 0.5);
    assert_eq!(titles(&t, 4), vec![s("Foo"), s("Hello")]);
    assert_eq!(active(&t, 4), 1);
    assert_eq!(tab_count(&t), 4);
}

#[test]
fn dock_left_of_a_leaf() {
    let mut t = example_layout();
    t.dock(4, 0, 2, Split::Left, 0.5);
    assert_eq!(t.len(), 7);
    assert_eq!(hsplit_ratio(&t, 2), Some(0.5));
    assert_eq!(titles(&t, 5), vec![s("Hello")]);
    assert_eq!(titles(&t, 6), vec![s("KOLJDFSKLIHFGKSGDHKJFGFSGFG")]);
    assert_eq!(titles(&t, 4), vec![s("Foo")]);
    assert_eq!(tab_count(&t), 4);
}

#[test]
fn dock_right_of_a_leaf() {
    let mut t = example_layout();
    t.dock(3, 0, 2, Split::Right, 0.5);
    assert_eq!(hsplit_ratio(&t, 2), Some(0.5));
    assert_eq!(titles(&t, 5), vec![s("KOLJDFSKLIHFGKSGDHKJFGFSGFG")]);
    assert_eq!(titles(&t, 6), vec![s("Page")]);
    assert!(titles(&t, 3).is_empty());
    assert_eq!(tab_count(&t), 4);
}

#[test]
fn dock_above_a_leaf() {
    let mut t = example_layout();
    t.dock(2, 0, 3, Split::Above, 0.5);
    assert_eq!(t.len(), 9);
    assert_eq!(vsplit_ratio(&t, 3), Some(0.5));
    assert_eq!(titles(&t, 7), vec![s("KOLJDFSKLIHFGKSGDHKJFGFSGFG")]);
    assert_eq!(titles(&t, 8), vec![s("Page")]);
    for i in 5..7 {
        assert!(is_empty(&t, i));
    }
    assert_eq!(tab_count(&t), 4);
}

#[test]
fn dock_below_its_own_leaf() {
    let mut t = example_layout();
    t.dock(4, 1, 4, Split::Below, 0.5);
    assert_eq!(t.len(), 11);
    assert_eq!(vsplit_ratio(&t, 4), Some(0.5));
    assert_eq!(titles(&t, 9), vec![s("Hello")]);
    assert_eq!(titles(&t, 10), vec![s("Foo")]);
    assert_eq!(active(&t, 10), 0);
    assert_eq!(tab_count(&t), 4);
}

#[test]
fn docked_split_can_be_rendered() {
    // every split keeps both children inside the vector
    let mut t = example_layout();
    t.dock(4, 1, 3, Split::Below, 0.5);
    t.dock(2, 0, 8, Split::Right, 0.5);
    for i in 0..t.len() {
        if hsplit_ratio(&t, i).is_some() || vsplit_ratio(&t, i).is_some() {
            assert!(2 * i + 2 < t.len());
        }
    }
    assert_eq!(tab_count(&t), 4);
}

#[test]
fn tab_adds_exactly_one_tab() {
    let mut t = example_layout();
    t.tab(1, s("over a split"), 9);
    assert_eq!(tab_count(&t), 5);
    t.tab(4, s("Bar"), 10);
    assert_eq!(tab_count(&t), 6);
    t.tab(12, s("far away"), 11);
    assert_eq!(tab_count(&t), 7);
}

#[test]
fn dock_beside_with_free_child_slots_keeps_tabs_in_any_tree() {
    // leaf 3 is not attached to the tree, but the child slots of leaf 0 hold
    // no tab
    let mut t: T = Tree::new();
    t.tab(0, s("a"), 0);
    t.tab(3, s("b"), 1);
    t.dock(3, 0, 0, Split::Right, 0.5);
    assert_eq!(titles(&t, 1), vec![s("a")]);
    assert_eq!(titles(&t, 2), vec![s("b")]);
    assert_eq!(tab_count(&t), 2);
}

#[test]
fn dock_beside_overwrites_an_occupied_child_slot() {
    // leaf 1 hangs below a leaf, so docking beside leaf 0 overwrites it
    let mut t: T = Tree::new();
    t.tab(0, s("a"), 0);
    t.tab(1, s("x"), 1);
    t.tab(3, s("b"), 2);
    t.dock(3, 0, 0, Split::Right, 0.5);
    assert_eq!(titles(&t, 1), vec![s("a")]);
    assert_eq!(titles(&t, 2), vec![s("b")]);
    assert_eq!(tab_count(&t), 2);
}
