use xui::error::UIError;
use xui::node::{UINodeId, UINodeKind};
use xui::splice::PartialUITree;
use xui::style::{SizeValue, UIStyle, UIStyleId, UIStyleRules, Unit};
use xui::tree::UITree;
use xui::view::{Extent, UIView};

fn id(n: u64) -> UINodeId {
    UINodeId::from_hash(n)
}

fn classes(names: &[&str]) -> Vec<String> {
    names.iter().map(|n| n.to_string()).collect()
}

fn sized(width: u32, height: u32) -> UIStyleRules {
    let mut rules = UIStyleRules::new();
    rules.width = Some(SizeValue::Unit(Unit::Pixel(width)));
    rules.height = Some(SizeValue::Unit(Unit::Pixel(height)));
    rules
}

/// root 1 with children 2, 3, 4; 2 has children 5, 6; 5 has child 9; 4 has child 7; root 8.
fn sample() -> UITree {
    let mut tree = UITree::new();
    tree.add_styles(UIStyle { id: UIStyleId::named("main"), class: "card".to_string(), rules: sized(40, 30) });
    tree.add_node(id(1), UINodeKind::Div, None, classes(&["page"])).unwrap();
    tree.add_node(id(2), UINodeKind::Div, Some(id(1)), classes(&["card"])).unwrap();
    tree.add_node(id(3), UINodeKind::Unknown("video".to_string()), Some(id(1)), classes(&["card"]))
        .unwrap();
    tree.add_node(id(5), UINodeKind::Div, Some(id(2)), classes(&["leaf"])).unwrap();
    tree.add_node(id(4), UINodeKind::Div, Some(id(1)), classes(&[])).unwrap();
    tree.add_node(id(8), UINodeKind::Div, None, classes(&[])).unwrap();
    tree.add_node(id(7), UINodeKind::Div, Some(id(4)), classes(&[])).unwrap();
    tree.add_node(id(6), UINodeKind::Div, Some(id(2)), classes(&[])).unwrap();
    tree.add_node(id(9), UINodeKind::Div, Some(id(5)), classes(&[])).unwrap();
    tree
}

#[test]
fn partial_tree_refuses_duplicates_and_unknown_parents() {
    let mut partial = PartialUITree::new();
    assert_eq!(partial.len(), 0);
    assert_eq!(partial.add_node(id(1), UINodeKind::Div, None, classes(&[])), Ok(()));
    assert_eq!(
        partial.add_node(id(1), UINodeKind::Div, None, classes(&[])),
        Err(UIError::DuplicateNodeId)
    );
    assert_eq!(
        partial.add_node(id(2), UINodeKind::Div, Some(id(7)), classes(&[])),
        Err(UIError::UnknownParent)
    );
    assert_eq!(partial.add_node(id(2), UINodeKind::Div, Some(id(1)), classes(&["a"])), Ok(()));
    assert_eq!(partial.len(), 2);
    assert!(partial.holds(&id(2)));
    assert!(!partial.holds(&id(7)));
    assert_eq!(partial.node(1).parent, Some(id(1)));
    assert_eq!(partial.node(1).classes, classes(&["a"]));
}

#[test]
fn replacing_takes_out_everything_under_the_container() {
    let mut tree = sample();
    let mut partial = PartialUITree::new();
    partial.add_node(id(20), UINodeKind::Div, None, classes(&["card"])).unwrap();
    partial.add_node(id(21), UINodeKind::Div, Some(id(20)), classes(&["new"])).unwrap();
    partial.add_node(id(22), UINodeKind::Div, None, classes(&[])).unwrap();
    let removed = tree.replace_child_nodes(&id(2), &partial).unwrap();
    assert_eq!(removed, vec![id(5), id(6), id(9)]);
    assert_eq!(
        tree.ids(),
        vec![id(1), id(2), id(3), id(4), id(8), id(7), id(20), id(21), id(22)]
    );
    assert_eq!(tree.get_child_node_ids(&id(1)), Ok(vec![id(2), id(3), id(4)]));
    assert_eq!(tree.get_child_node_ids(&id(2)), Ok(vec![id(20), id(22)]));
    assert_eq!(tree.get_child_node_ids(&id(20)), Ok(vec![id(21)]));
    assert_eq!(tree.get_child_node_ids(&id(4)), Ok(vec![id(7)]));
    assert_eq!(tree.get_parent(&id(7)), Ok(Some(id(4))));
    assert_eq!(tree.get_parent(&id(8)), Ok(None));
    assert_eq!(tree.get_parent(&id(5)), Err(UIError::UnknownNode));
    assert!(tree.get_node(&id(3)).unwrap().is_unknown_kind());
    assert_eq!(tree.get_node(&id(2)).unwrap().classes(), &classes(&["card"]));
    assert_eq!(tree.root_ids(), vec![id(1), id(8)]);
    // the classes keep their records: every node is out of date and resolves as before
    assert_eq!(tree.deprecated_ids().len(), 9);
    tree.recalculate_styles();
    assert_eq!(tree.get_node(&id(2)).unwrap().style(), &sized(40, 30));
    assert_eq!(tree.get_node(&id(3)).unwrap().style(), &sized(40, 30));
    assert_eq!(tree.get_node(&id(20)).unwrap().style(), &sized(40, 30));
    assert_eq!(tree.get_node(&id(21)).unwrap().style(), &UIStyleRules::new());
}

#[test]
fn replacing_with_nothing_only_removes() {
    let mut tree = sample();
    let removed = tree.replace_child_nodes(&id(1), &PartialUITree::new()).unwrap();
    assert_eq!(removed, vec![id(2), id(3), id(5), id(4), id(7), id(6), id(9)]);
    assert_eq!(tree.ids(), vec![id(1), id(8)]);
    assert_eq!(tree.is_leaf(&id(1)), Ok(true));
    let mut leaf = sample();
    assert_eq!(leaf.replace_child_nodes(&id(9), &PartialUITree::new()), Ok(vec![]));
    assert_eq!(leaf.node_count(), 9);
}

#[test]
fn replacing_refuses_an_unknown_container_and_a_node_that_stays() {
    let mut tree = sample();
    let mut partial = PartialUITree::new();
    partial.add_node(id(3), UINodeKind::Div, None, classes(&[])).unwrap();
    assert_eq!(tree.replace_child_nodes(&id(99), &partial), Err(UIError::UnknownNode));
    assert_eq!(tree.replace_child_nodes(&id(2), &partial), Err(UIError::DuplicateNodeId));
    assert_eq!(tree.replace_child_nodes(&id(3), &partial), Err(UIError::DuplicateNodeId));
    assert_eq!(tree.node_count(), 9);
    assert_eq!(tree.get_child_node_ids(&id(2)), Ok(vec![id(5), id(6)]));
    // a node that leaves may come back in the partial tree
    let mut back = PartialUITree::new();
    back.add_node(id(6), UINodeKind::Div, None, classes(&[])).unwrap();
    assert_eq!(tree.replace_child_nodes(&id(2), &back), Ok(vec![id(5), id(6), id(9)]));
    assert_eq!(tree.get_child_node_ids(&id(2)), Ok(vec![id(6)]));
}

#[test]
fn a_replaced_node_loses_its_box_and_a_returning_one_is_stamped_anew() {
    let mut tree = UITree::new();
    for (node, parent, width) in [(1u64, None, 200u32), (2, Some(1u64), 50), (3, Some(1), 30)] {
        let class = format!("c{node}");
        tree.add_styles(UIStyle { id: UIStyleId::named("t"), class: class.clone(), rules: sized(width, 20) });
        tree.add_node(id(node), UINodeKind::Div, parent.map(id), vec![class]).unwrap();
    }
    let mut view = UIView::new(Extent { x: 800, y: 600 });
    view.recalculate_transform(&mut tree);
    let first = view.get_transform(&id(3)).unwrap();

    let mut only_two = PartialUITree::new();
    only_two.add_node(id(2), UINodeKind::Div, None, vec!["c2".to_string()]).unwrap();
    assert_eq!(tree.replace_child_nodes(&id(1), &only_two), Ok(vec![id(2), id(3)]));
    view.recalculate_transform(&mut tree);
    assert_eq!(view.get_transform(&id(3)), None);
    assert_eq!(view.get_transform(&id(1)).unwrap().generation, 1);
    assert_eq!(view.get_transform(&id(2)).unwrap().generation, 1);
    let mut boxes: Vec<u64> = view.indexed_bounds().iter().map(|b| b.id.hash_value()).collect();
    boxes.sort();
    assert_eq!(boxes, vec![1, 2]);

    let mut both = PartialUITree::new();
    both.add_node(id(2), UINodeKind::Div, None, vec!["c2".to_string()]).unwrap();
    both.add_node(id(3), UINodeKind::Div, None, vec!["c3".to_string()]).unwrap();
    assert_eq!(tree.replace_child_nodes(&id(1), &both), Ok(vec![id(2)]));
    view.recalculate_transform(&mut tree);
    let again = view.get_transform(&id(3)).unwrap();
    assert_eq!(again.transform, first.transform);
    assert_eq!(again.generation, 3);
    assert_eq!(view.get_transform(&id(2)).unwrap().generation, 1);
}

#[test]
fn a_tree_with_the_classes_of_another_has_its_records_and_no_nodes() {
    let tree = sample();
    let mut empty = UITree::with_classes_of(&tree);
    assert_eq!(empty.node_count(), 0);
    assert!(!empty.need_style_recalculation());
    empty.add_node(id(1), UINodeKind::Div, None, classes(&["card"])).unwrap();
    empty.recalculate_styles();
    assert_eq!(empty.get_node(&id(1)).unwrap().style(), &sized(40, 30));
    assert_eq!(UITree::copy_kind(&UINodeKind::Unknown("a".to_string())), UINodeKind::Unknown("a".to_string()));
    assert_eq!(UITree::copy_kind(&UINodeKind::Div), UINodeKind::Div);
    assert_eq!(UITree::copy_classes(&classes(&["x", "y"])), classes(&["x", "y"]));
}
