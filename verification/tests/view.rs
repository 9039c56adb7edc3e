use xui::node::{UINodeId, UINodeKind};
use xui::rtree::{ElementBounds, UINodesRTree};
use xui::style::{SizeValue, UIStyle, UIStyleId, UIStyleRules, Unit, MAX_LENGTH};
use xui::tree::UITree;
use xui::view::{Extent, NodeTransform, Position, Transform, UIView};
use std::collections::HashSet;

fn id(n: u64) -> UINodeId {
    UINodeId::from_hash(n)
}

fn sized(width: u32, height: u32) -> UIStyleRules {
    let mut rules = UIStyleRules::new();
    rules.width = Some(SizeValue::Unit(Unit::Pixel(width)));
    rules.height = Some(SizeValue::Unit(Unit::Pixel(height)));
    rules
}

fn add(tree: &mut UITree, node: u64, parent: Option<u64>, rules: UIStyleRules) {
    let class = format!("c{node}");
    tree.add_node(id(node), UINodeKind::Div, parent.map(id), vec![class.clone()]).unwrap();
    tree.add_styles(UIStyle { id: UIStyleId::named("test"), class, rules });
}

fn with_nodes(nodes: &[(u64, Option<u64>, u32, u32)]) -> UITree {
    let mut tree = UITree::new();
    for (node, parent, width, height) in nodes {
        add(&mut tree, *node, *parent, sized(*width, *height));
    }
    tree
}

fn sorted(mut boxes: Vec<ElementBounds>) -> Vec<ElementBounds> {
    boxes.sort_by_key(|b| b.id.hash_value());
    boxes
}

fn bounds(node: u64, x: i64, y: i64, width: i64, height: i64) -> ElementBounds {
    ElementBounds {
        lower: Position { x, y, z: 0 },
        upper: Position { x: x + width, y: y + height, z: 0 },
        id: id(node),
    }
}

#[test]
fn new_view_is_empty() {
    let view = UIView::new(Extent { x: 800, y: 600 });
    assert_eq!(view.window_size(), Extent { x: 800, y: 600 });
    assert_eq!(view.last_generation(), 0);
    assert!(view.indexed_bounds().is_empty());
    assert_eq!(view.get_transform(&id(1)), None);
}

#[test]
fn window_size_saturates() {
    let view = UIView::new(Extent { x: i64::MAX, y: i64::MIN });
    assert_eq!(view.window_size(), Extent { x: MAX_LENGTH, y: -MAX_LENGTH });
}

#[test]
fn a_pass_gives_every_node_one_transform_and_one_box() {
    let mut tree = with_nodes(&[(1, None, 200, 100), (2, Some(1), 50, 40), (3, Some(1), 30, 20)]);
    let mut view = UIView::new(Extent { x: 800, y: 600 });
    view.recalculate_transform(&mut tree);
    assert_eq!(view.last_generation(), 1);
    assert!(!tree.need_style_recalculation());
    for node in [1, 2, 3] {
        let entry = view.get_transform(&id(node)).unwrap();
        assert_eq!(entry.id, id(node));
        assert_eq!(entry.generation, 1);
    }
    assert_eq!(view.get_transform(&id(2)).unwrap().transform().size, Extent { x: 50, y: 40 });
    // the box of a node starts at its centre and spans its content box
    assert_eq!(
        sorted(view.indexed_bounds()),
        vec![bounds(1, 100, 50, 200, 100), bounds(2, 25, 20, 50, 40), bounds(3, 65, 10, 30, 20)]
    );
}

#[test]
fn an_unchanged_tree_keeps_its_stamps() {
    let mut tree = with_nodes(&[(1, None, 200, 100), (2, Some(1), 50, 40)]);
    let mut view = UIView::new(Extent { x: 800, y: 600 });
    view.recalculate_transform(&mut tree);
    let before = sorted(view.indexed_bounds());
    view.recalculate_transform(&mut tree);
    assert_eq!(view.last_generation(), 2);
    assert_eq!(view.get_transform(&id(1)).unwrap().generation, 1);
    assert_eq!(view.get_transform(&id(2)).unwrap().generation, 1);
    assert_eq!(sorted(view.indexed_bounds()), before);
}

#[test]
fn only_the_nodes_that_moved_get_the_new_stamp() {
    let mut tree = with_nodes(&[(1, None, 200, 100), (2, Some(1), 50, 40), (3, Some(1), 30, 20)]);
    let mut view = UIView::new(Extent { x: 800, y: 600 });
    view.recalculate_transform(&mut tree);
    // widening node 2 moves node 3 behind it, and leaves node 1 where it is
    tree.add_styles(UIStyle {
        id: UIStyleId::named("test"),
        class: "c2".to_string(),
        rules: sized(70, 40),
    });
    view.recalculate_transform(&mut tree);
    assert_eq!(view.get_transform(&id(1)).unwrap().generation, 1);
    assert_eq!(view.get_transform(&id(2)).unwrap().generation, 2);
    assert_eq!(view.get_transform(&id(3)).unwrap().generation, 2);
    assert_eq!(
        sorted(view.indexed_bounds()),
        vec![bounds(1, 100, 50, 200, 100), bounds(2, 35, 20, 70, 40), bounds(3, 85, 10, 30, 20)]
    );
}

#[test]
fn removing_a_node_removes_its_box_and_no_other() {
    let mut full = with_nodes(&[(1, None, 200, 100), (2, Some(1), 50, 40), (3, Some(1), 30, 20)]);
    let mut without = with_nodes(&[(1, None, 200, 100), (2, Some(1), 50, 40)]);
    let mut view = UIView::new(Extent { x: 800, y: 600 });
    view.recalculate_transform(&mut full);
    let first = view.get_transform(&id(3)).unwrap();
    assert_eq!(first.generation, 1);
    view.recalculate_transform(&mut without);
    assert_eq!(view.get_transform(&id(3)), None);
    assert_eq!(view.get_transform(&id(1)).unwrap().generation, 1);
    assert_eq!(view.get_transform(&id(2)).unwrap().generation, 1);
    assert_eq!(
        sorted(view.indexed_bounds()),
        vec![bounds(1, 100, 50, 200, 100), bounds(2, 25, 20, 50, 40)]
    );
    // the node comes back just as it was: its transform is stamped anew
    view.recalculate_transform(&mut full);
    let again = view.get_transform(&id(3)).unwrap();
    assert_eq!(again.transform, first.transform);
    assert_eq!(again.generation, 3);
    assert_eq!(view.get_transform(&id(1)).unwrap().generation, 1);
    assert_eq!(
        sorted(view.indexed_bounds()),
        vec![bounds(1, 100, 50, 200, 100), bounds(2, 25, 20, 50, 40), bounds(3, 65, 10, 30, 20)]
    );
}

#[test]
fn resize_lays_out_in_the_new_window() {
    let mut tree = UITree::new();
    add(&mut tree, 1, None, UIStyleRules::new());
    let mut view = UIView::new(Extent { x: 800, y: 600 });
    view.recalculate_transform(&mut tree);
    assert_eq!(view.get_transform(&id(1)).unwrap().transform.size, Extent { x: 800, y: 600 });
    view.resize(Extent { x: 1024, y: 768 }, &mut tree);
    assert_eq!(view.window_size(), Extent { x: 1024, y: 768 });
    let entry = view.get_transform(&id(1)).unwrap();
    assert_eq!(entry.transform.size, Extent { x: 1024, y: 768 });
    assert_eq!(entry.generation, 2);
    assert_eq!(sorted(view.indexed_bounds()), vec![bounds(1, 512, 384, 1024, 768)]);
}

#[test]
fn node_transform_accessors() {
    let mut entry = NodeTransform::new(id(5), 3, Transform::default());
    assert_eq!(entry.transform(), &Transform::default());
    let moved = Transform { size: Extent { x: 4, y: 5 }, ..Transform::default() };
    entry.set_transform(moved, 9);
    assert_eq!(entry, NodeTransform { id: id(5), generation: 9, transform: moved });
}

#[test]
fn element_bounds_span_both_ways() {
    let forward = ElementBounds::new(Position { x: 10, y: 20, z: 0 }, Extent { x: 5, y: 6 }, id(1));
    assert_eq!(forward, bounds(1, 10, 20, 5, 6));
    assert_eq!(forward.id(), &id(1));
    let backward =
        ElementBounds::new(Position { x: 10, y: 20, z: 0 }, Extent { x: -5, y: -6 }, id(1));
    assert_eq!(backward, bounds(1, 5, 14, 5, 6));
}

#[test]
fn index_update_removes_by_node_and_inserts() {
    let mut index = UINodesRTree::new();
    assert!(index.elements().is_empty());
    let none: HashSet<u64> = HashSet::new();
    index.update(&none, &vec![bounds(1, 0, 0, 10, 10), bounds(2, 5, 5, 10, 10), bounds(2, 50, 5, 1, 1)]);
    assert_eq!(index.elements().len(), 3);
    let mut two: HashSet<u64> = HashSet::new();
    two.insert(2);
    two.insert(7);
    index.update(&two, &vec![bounds(3, -4, -4, 2, 2)]);
    assert_eq!(sorted(index.elements()), vec![bounds(1, 0, 0, 10, 10), bounds(3, -4, -4, 2, 2)]);
}

#[test]
fn index_holds_boxes_at_the_bounds_of_the_range() {
    let mut index = UINodesRTree::new();
    let none: HashSet<u64> = HashSet::new();
    let mut boxes = Vec::new();
    for n in 0..40i64 {
        boxes.push(ElementBounds::new(
            Position { x: MAX_LENGTH - n, y: -MAX_LENGTH + n, z: 0 },
            Extent { x: if n % 2 == 0 { MAX_LENGTH } else { -MAX_LENGTH }, y: MAX_LENGTH },
            id(n as u64),
        ));
    }
    index.update(&none, &boxes);
    assert_eq!(sorted(index.elements()), sorted(boxes.clone()));
    let mut even: HashSet<u64> = HashSet::new();
    for n in 0..40u64 {
        if n % 2 == 0 {
            even.insert(n);
        }
    }
    index.update(&even, &Vec::new());
    let odd: Vec<ElementBounds> = boxes.into_iter().filter(|b| b.id.hash_value() % 2 == 1).collect();
    assert_eq!(sorted(index.elements()), sorted(odd));
}

#[test]
fn defaults_are_empty() {
    assert!(UINodesRTree::default().elements().is_empty());
    let tree = UITree::default();
    assert_eq!(tree.node_count(), 0);
    assert!(xui::style::StyleClass::default().styles().is_empty());
}

#[test]
fn a_tree_of_many_siblings_keeps_their_order() {
    let mut tree = UITree::new();
    tree.add_node(id(1000), UINodeKind::Div, None, Vec::new()).unwrap();
    for child in 0..50u64 {
        tree.add_node(id(child), UINodeKind::Div, Some(id(1000)), Vec::new()).unwrap();
    }
    let expected: Vec<UINodeId> = (0..50u64).map(id).collect();
    assert_eq!(tree.get_child_node_ids(&id(1000)), Ok(expected.clone()));
    let mut order = vec![id(1000)];
    order.extend(expected);
    assert_eq!(tree.toposort(), order);
}

#[test]
fn index_holds_full_boxes_at_every_depth() {
    let plane = 2_199_023_255_552i64;
    let depth = 2_147_483_648i64;
    let mut index = UINodesRTree::new();
    let none: HashSet<u64> = HashSet::new();
    let mut boxes = Vec::new();
    for n in 0..60u64 {
        let near = if n % 3 == 0 { -depth } else { 0 };
        let far = if n % 2 == 0 { depth } else { near };
        boxes.push(ElementBounds {
            lower: Position { x: -plane, y: -plane, z: near },
            upper: Position { x: plane, y: plane, z: far },
            id: id(n),
        });
    }
    index.update(&none, &boxes);
    assert_eq!(sorted(index.elements()), sorted(boxes.clone()));
    let mut all: HashSet<u64> = HashSet::new();
    for n in 0..60u64 {
        all.insert(n);
    }
    index.update(&all, &boxes);
    assert_eq!(sorted(index.elements()), sorted(boxes));
}
