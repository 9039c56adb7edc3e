use xui::error::UIError;
use xui::node::{UINode, UINodeId, UINodeKind};
use xui::style::{SizeValue, UIStyle, UIStyleId, UIStyleRules, Unit};
use xui::tree::UITree;

fn id(n: u64) -> UINodeId {
    UINodeId::from_hash(n)
}

fn classes(names: &[&str]) -> Vec<String> {
    names.iter().map(|n| n.to_string()).collect()
}

fn style(source: &str, class: &str, rules: UIStyleRules) -> UIStyle {
    UIStyle { id: UIStyleId::named(source), class: class.to_string(), rules }
}

fn width(px: u32) -> UIStyleRules {
    let mut rules = UIStyleRules::new();
    rules.width = Some(SizeValue::Unit(Unit::Pixel(px)));
    rules
}

/// root 1 with children 2, 3, 4; 2 has children 5, 6; 4 has child 7; root 8.
fn sample() -> UITree {
    let mut tree = UITree::new();
    tree.add_node(id(1), UINodeKind::Div, None, classes(&["page"])).unwrap();
    tree.add_node(id(2), UINodeKind::Div, Some(id(1)), classes(&["row", "card"])).unwrap();
    tree.add_node(id(3), UINodeKind::Div, Some(id(1)), classes(&["card"])).unwrap();
    tree.add_node(id(5), UINodeKind::Div, Some(id(2)), classes(&[])).unwrap();
    tree.add_node(id(4), UINodeKind::Unknown("video".to_string()), Some(id(1)), classes(&["card"]))
        .unwrap();
    tree.add_node(id(8), UINodeKind::Div, None, classes(&[])).unwrap();
    tree.add_node(id(7), UINodeKind::Div, Some(id(4)), classes(&[])).unwrap();
    tree.add_node(id(6), UINodeKind::Div, Some(id(2)), classes(&[])).unwrap();
    tree
}

#[test]
fn empty_tree_has_no_nodes() {
    let tree = UITree::new();
    assert_eq!(tree.node_count(), 0);
    assert!(tree.ids().is_empty());
    assert!(tree.root_ids().is_empty());
    assert!(tree.leaf_ids().is_empty());
    assert!(tree.toposort().is_empty());
    assert!(!tree.need_style_recalculation());
}

#[test]
fn add_node_refuses_a_duplicate_identity() {
    let mut tree = sample();
    let r = tree.add_node(id(3), UINodeKind::Div, None, classes(&[]));
    assert_eq!(r, Err(UIError::DuplicateNodeId));
    assert_eq!(tree.node_count(), 8);
}

#[test]
fn add_node_refuses_an_unknown_parent() {
    let mut tree = sample();
    let r = tree.add_node(id(20), UINodeKind::Div, Some(id(99)), classes(&["card"]));
    assert_eq!(r, Err(UIError::UnknownParent));
    assert_eq!(tree.node_count(), 8);
    assert!(tree.get_node(&id(20)).is_none());
}

#[test]
fn duplicate_is_reported_before_unknown_parent() {
    let mut tree = sample();
    let r = tree.add_node(id(3), UINodeKind::Div, Some(id(99)), classes(&[]));
    assert_eq!(r, Err(UIError::DuplicateNodeId));
}

#[test]
fn queries_refuse_an_unknown_node() {
    let tree = sample();
    assert_eq!(tree.get_parent(&id(99)), Err(UIError::UnknownNode));
    assert_eq!(tree.get_child_node_ids(&id(99)), Err(UIError::UnknownNode));
    assert_eq!(tree.is_leaf(&id(99)), Err(UIError::UnknownNode));
    assert_eq!(tree.find(&id(99)), None);
}

#[test]
fn children_come_in_rank_order() {
    let tree = sample();
    assert_eq!(tree.get_child_node_ids(&id(1)), Ok(vec![id(2), id(3), id(4)]));
    assert_eq!(tree.get_child_node_ids(&id(2)), Ok(vec![id(5), id(6)]));
    assert_eq!(tree.get_child_node_ids(&id(4)), Ok(vec![id(7)]));
    assert_eq!(tree.get_child_node_ids(&id(3)), Ok(vec![]));
    assert_eq!(tree.children_by_index(0), vec![1, 2, 4]);
}

#[test]
fn parents_and_leaves() {
    let tree = sample();
    assert_eq!(tree.get_parent(&id(1)), Ok(None));
    assert_eq!(tree.get_parent(&id(8)), Ok(None));
    assert_eq!(tree.get_parent(&id(6)), Ok(Some(id(2))));
    assert_eq!(tree.get_parent(&id(7)), Ok(Some(id(4))));
    assert_eq!(tree.parent_by_index(3), Some(1));
    assert_eq!(tree.parent_by_index(0), None);
    assert_eq!(tree.is_leaf(&id(1)), Ok(false));
    assert_eq!(tree.is_leaf(&id(3)), Ok(true));
    assert_eq!(tree.is_leaf(&id(8)), Ok(true));
}

#[test]
fn roots_leaves_and_ids_in_the_order_of_making() {
    let tree = sample();
    assert_eq!(tree.ids(), vec![id(1), id(2), id(3), id(5), id(4), id(8), id(7), id(6)]);
    assert_eq!(tree.root_ids(), vec![id(1), id(8)]);
    assert_eq!(tree.root_indices(), vec![0, 5]);
    assert_eq!(tree.leaf_ids(), vec![id(3), id(5), id(8), id(7), id(6)]);
    assert_eq!(tree.get_unknown_nodes(), vec![id(4)]);
}

#[test]
fn node_accessors() {
    let tree = sample();
    let node = tree.get_node(&id(2)).unwrap();
    assert_eq!(node.id(), &id(2));
    assert_eq!(node.classes(), &classes(&["row", "card"]));
    assert_eq!(node.style(), &UIStyleRules::new());
    assert!(!node.is_unknown_kind());
    assert!(tree.get_node(&id(4)).unwrap().is_unknown_kind());
    assert_eq!(tree.node_by_index(4).id, id(4));
    let mut own = UINode::new(id(70), UINodeKind::Div, classes(&["a"]), None);
    own.set_style(width(5));
    assert_eq!(own.style(), &width(5));
    assert_eq!(id(70).hash_value(), 70);
}

#[test]
fn toposort_goes_level_by_level() {
    let tree = sample();
    assert_eq!(
        tree.toposort(),
        vec![id(1), id(8), id(2), id(3), id(4), id(5), id(6), id(7)]
    );
    assert_eq!(tree.toposort_indices(), vec![0, 5, 1, 2, 4, 3, 7, 6]);
}

#[test]
fn toposort_twice_gives_the_same_order() {
    let tree = sample();
    assert_eq!(tree.toposort(), tree.toposort());
}

#[test]
fn toposort_puts_every_node_after_its_ancestors() {
    let tree = sample();
    let order = tree.toposort();
    let place = |x: UINodeId| order.iter().position(|y| *y == x).unwrap();
    for node in tree.ids() {
        let mut above = tree.get_parent(&node).unwrap();
        while let Some(parent) = above {
            assert!(place(parent) < place(node));
            above = tree.get_parent(&parent).unwrap();
        }
    }
}

#[test]
fn new_nodes_are_out_of_date_until_styles_are_recalculated() {
    let mut tree = sample();
    assert!(tree.need_style_recalculation());
    tree.recalculate_styles();
    assert!(!tree.need_style_recalculation());
}

#[test]
fn adding_a_rule_marks_exactly_the_nodes_of_the_class() {
    let mut tree = sample();
    tree.recalculate_styles();
    assert!(!tree.need_style_recalculation());
    tree.add_styles(style("main", "card", width(40)));
    assert!(tree.need_style_recalculation());
    // before recalculation the nodes still have their old style
    assert_eq!(tree.get_node(&id(2)).unwrap().style(), &UIStyleRules::new());
    tree.recalculate_styles();
    for node in [2, 3, 4] {
        assert_eq!(tree.get_node(&id(node)).unwrap().style(), &width(40));
    }
    for node in [1, 5, 6, 7, 8] {
        assert_eq!(tree.get_node(&id(node)).unwrap().style(), &UIStyleRules::new());
    }
}

#[test]
fn marking_twice_before_recalculation_is_marking_once() {
    let mut tree = sample();
    tree.recalculate_styles();
    tree.add_styles(style("main", "card", width(40)));
    tree.add_styles(style("main", "card", width(41)));
    tree.add_styles(style("other", "card", UIStyleRules::new()));
    assert!(tree.need_style_recalculation());
    tree.recalculate_styles();
    assert!(!tree.need_style_recalculation());
    assert_eq!(tree.get_node(&id(3)).unwrap().style(), &width(41));
}

#[test]
fn classes_merge_in_the_order_the_node_names_them() {
    let mut tree = sample();
    let mut row = width(10);
    row.gap = Some(Unit::Pixel(2));
    tree.add_styles(style("main", "card", width(40)));
    tree.add_styles(style("main", "row", row));
    tree.recalculate_styles();
    // node 2 names "row" first and "card" second: card's width wins, row's gap stays
    let resolved = *tree.get_node(&id(2)).unwrap().style();
    assert_eq!(resolved.width, Some(SizeValue::Unit(Unit::Pixel(40))));
    assert_eq!(resolved.gap, Some(Unit::Pixel(2)));
}

#[test]
fn a_style_for_a_class_without_nodes_marks_nothing() {
    let mut tree = sample();
    tree.recalculate_styles();
    tree.add_styles(style("main", "unused", width(40)));
    assert!(!tree.need_style_recalculation());
    tree.add_node(id(30), UINodeKind::Div, Some(id(8)), classes(&["unused"])).unwrap();
    tree.recalculate_styles();
    assert_eq!(tree.get_node(&id(30)).unwrap().style(), &width(40));
}

#[test]
fn identities_from_paths_are_usable_as_identities() {
    let mut tree = UITree::new();
    let root = UINodeId::from("view");
    let child = UINodeId::from("view.div".to_string());
    tree.add_node(root, UINodeKind::Div, None, classes(&[])).unwrap();
    if child != root {
        tree.add_node(child, UINodeKind::Div, Some(root), classes(&[])).unwrap();
        assert_eq!(tree.get_parent(&child), Ok(Some(root)));
    }
}

#[test]
fn out_of_date_nodes_are_listed_once() {
    let mut tree = sample();
    tree.recalculate_styles();
    assert!(tree.deprecated_ids().is_empty());
    tree.add_styles(style("main", "card", width(40)));
    tree.add_styles(style("main", "card", width(41)));
    assert_eq!(tree.deprecated_ids(), vec![id(2), id(3), id(4)]);
    tree.add_styles(style("main", "page", width(1)));
    assert_eq!(tree.deprecated_ids(), vec![id(2), id(3), id(4), id(1)]);
    tree.recalculate_styles();
    assert!(tree.deprecated_ids().is_empty());
}

#[test]
fn the_graph_of_a_tree_can_be_sequenced_directly() {
    let tree = sample();
    assert_eq!(xui::algo::stable_toposort(tree.graph()), tree.toposort_indices());
    assert_eq!(xui::graph::graph_children(tree.graph(), 0), vec![1, 2, 4]);
    assert_eq!(xui::graph::graph_children(tree.graph(), 3), Vec::<usize>::new());
}

#[test]
fn recalculation_leaves_the_style_of_fresh_nodes_alone() {
    let mut tree = sample();
    tree.add_styles(style("main", "card", width(40)));
    tree.recalculate_styles();
    let before: Vec<UIStyleRules> = tree.ids().iter().map(|n| *tree.get_node(n).unwrap().style()).collect();
    tree.add_styles(style("main", "row", width(7)));
    assert_eq!(tree.deprecated_ids(), vec![id(2)]);
    tree.recalculate_styles();
    let after: Vec<UIStyleRules> = tree.ids().iter().map(|n| *tree.get_node(n).unwrap().style()).collect();
    for (at, node) in tree.ids().iter().enumerate() {
        if *node != id(2) {
            assert_eq!(before[at], after[at]);
        }
    }
}
