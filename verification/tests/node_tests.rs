use egui::{pos2, Rect};
use emdock::node::{Node, Pane};

fn pane(title: &str, ui: u8) -> Pane<u8> {
    Pane { title: title.to_string(), ui }
}

fn titles(node: &Node<u8, f32>) -> Vec<String> {
    match node {
        Node::Leaf { tabs, .. } => tabs.iter().map(|p| p.title.clone()).collect(),
        _ => panic!("not a leaf"),
    }
}

fn active(node: &Node<u8, f32>) -> usize {
    match node {
        Node::Leaf { active, .. } => *active,
        _ => panic!("not a leaf"),
    }
}

fn leaf_of(names: &[&str], selected: usize) -> Node<u8, f32> {
    let mut n: Node<u8, f32> = Node::leaf(pane(names[0], 0));
    for (i, name) in names.iter().enumerate().skip(1) {
        n.push_tab(pane(name, i as u8));
    }
    n.select(selected);
    n
}

#[test]
fn leaf_holds_one_selected_tab() {
    let n: Node<u8, f32> = Node::leaf(pane("Hello", 7));
    assert_eq!(titles(&n), vec!["Hello".to_string()]);
    assert_eq!(active(&n), 0);
    match &n {
        Node::Leaf { tabs, rect, .. } => {
            assert_eq!(tabs[0].ui, 7);
            assert_eq!(*rect, Rect::EVERYTHING);
        }
        _ => panic!("not a leaf"),
    }
}

#[test]
fn splits_keep_their_ratio() {
    let h: Node<u8, f32> = Node::hsplit(0.25);
    let v: Node<u8, f32> = Node::vsplit(0.75);
    assert!(matches!(h, Node::HSplit { ratio, rect } if ratio == 0.25 && rect == Rect::EVERYTHING));
    assert!(matches!(v, Node::VSplit { ratio, .. } if ratio == 0.75));
}

#[test]
fn default_node_is_empty() {
    let n: Node<u8, f32> = Node::default();
    assert!(matches!(n, Node::Empty));
}

#[test]
fn set_rect_replaces_rect_of_every_kind_but_empty() {
    let r = Rect::from_min_max(pos2(1.0, 2.0), pos2(3.0, 4.0));
    let mut leaf = leaf_of(&["a", "b"], 1);
    leaf.set_rect(r);
    assert!(matches!(&leaf, Node::Leaf { rect, active: 1, .. } if *rect == r));
    assert_eq!(titles(&leaf), vec!["a".to_string(), "b".to_string()]);
    let mut h: Node<u8, f32> = Node::hsplit(0.5);
    h.set_rect(r);
    assert!(matches!(h, Node::HSplit { rect, ratio } if rect == r && ratio == 0.5));
    let mut v: Node<u8, f32> = Node::vsplit(0.5);
    v.set_rect(r);
    assert!(matches!(v, Node::VSplit { rect, .. } if rect == r));
    let mut e: Node<u8, f32> = Node::Empty;
    e.set_rect(r);
    assert!(matches!(e, Node::Empty));
}

#[test]
fn set_ratio_only_touches_splits() {
    let mut h: Node<u8, f32> = Node::hsplit(0.5);
    h.set_ratio(0.1);
    assert!(matches!(h, Node::HSplit { ratio, .. } if ratio == 0.1));
    let mut leaf = leaf_of(&["a"], 0);
    leaf.set_ratio(0.1);
    assert_eq!(titles(&leaf), vec!["a".to_string()]);
}

#[test]
fn select_only_touches_leaves() {
    let mut leaf = leaf_of(&["a", "b", "c"], 0);
    leaf.select(2);
    assert_eq!(active(&leaf), 2);
    let mut v: Node<u8, f32> = Node::vsplit(0.3);
    v.select(2);
    assert!(matches!(v, Node::VSplit { ratio, .. } if ratio == 0.3));
}

#[test]
fn push_tab_appends_and_keeps_selection() {
    let mut leaf = leaf_of(&["a"], 0);
    leaf.push_tab(pane("b", 9));
    assert_eq!(titles(&leaf), vec!["a".to_string(), "b".to_string()]);
    assert_eq!(active(&leaf), 0);
}

#[test]
fn remove_tab_returns_it_and_shifts_selection() {
    // another tab before the selected one leaves: the selection follows
    let mut leaf = leaf_of(&["a", "b", "c"], 2);
    let t = leaf.remove_tab(0);
    assert_eq!(t.title, "a");
    assert_eq!(titles(&leaf), vec!["b".to_string(), "c".to_string()]);
    assert_eq!(active(&leaf), 1);
    // a tab after the selected one leaves: the selection stays
    let mut leaf = leaf_of(&["a", "b", "c"], 0);
    let t = leaf.remove_tab(2);
    assert_eq!(t.ui, 2);
    assert_eq!(active(&leaf), 0);
    // the selected tab leaves: the next one takes its place
    let mut leaf = leaf_of(&["a", "b", "c"], 1);
    leaf.remove_tab(1);
    assert_eq!(titles(&leaf), vec!["a".to_string(), "c".to_string()]);
    assert_eq!(active(&leaf), 1);
    // the selected last tab leaves: the new last one is selected
    let mut leaf = leaf_of(&["a", "b", "c"], 2);
    leaf.remove_tab(2);
    assert_eq!(active(&leaf), 1);
    // the only tab leaves: an empty leaf stays behind
    let mut leaf = leaf_of(&["a"], 0);
    leaf.remove_tab(0);
    assert!(titles(&leaf).is_empty());
    assert_eq!(active(&leaf), 0);
}

#[test]
fn push_tab_leaves_other_nodes_alone() {
    let mut h: Node<u8, f32> = Node::hsplit(0.4);
    h.push_tab(pane("x", 1));
    assert!(matches!(h, Node::HSplit { ratio, .. } if ratio == 0.4));
    let mut e: Node<u8, f32> = Node::Empty;
    e.push_tab(pane("x", 1));
    assert!(matches!(e, Node::Empty));
}
