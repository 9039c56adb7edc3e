use xui::layout::{sat_add, sat_mul, solve, virtual_sizes, Measure, NodeVirtualSize, MAX_PART};
use xui::node::{UINodeId, UINodeKind};
use xui::style::{FlexDirection, SizeValue, UIStyle, UIStyleId, UIStyleRules, Unit, MAX_LENGTH};
use xui::tree::UITree;
use xui::view::{ContentBox, Extent, Position, Transform};

fn id(n: u64) -> UINodeId {
    UINodeId::from_hash(n)
}

fn px(n: u32) -> Option<SizeValue> {
    Some(SizeValue::Unit(Unit::Pixel(n)))
}

fn percent(n: u16) -> Option<SizeValue> {
    Some(SizeValue::Unit(Unit::Percent(n)))
}

fn add(tree: &mut UITree, node: u64, parent: Option<u64>, rules: UIStyleRules) {
    let class = format!("c{node}");
    tree.add_node(id(node), UINodeKind::Div, parent.map(id), vec![class.clone()]).unwrap();
    tree.add_styles(UIStyle { id: UIStyleId::named("test"), class, rules });
}

fn sizes_of(tree: &mut UITree) -> Vec<NodeVirtualSize> {
    tree.recalculate_styles();
    let order = tree.toposort_indices();
    virtual_sizes(tree, &order)
}

fn measure(percent: u64, pixel: u64) -> Measure {
    Measure { percent, pixel }
}

fn sized(width: Option<SizeValue>, height: Option<SizeValue>) -> UIStyleRules {
    let mut rules = UIStyleRules::new();
    rules.width = width;
    rules.height = height;
    rules
}

#[test]
fn row_of_two_fixed_children_with_gap_fits_110_pixels() {
    let mut tree = UITree::new();
    let mut row = sized(Some(SizeValue::FitContent), Some(SizeValue::FitContent));
    row.flex_direction = Some(FlexDirection::Row);
    row.gap = Some(Unit::Pixel(10));
    add(&mut tree, 1, None, row);
    add(&mut tree, 2, Some(1), sized(px(40), px(20)));
    add(&mut tree, 3, Some(1), sized(px(60), px(35)));
    let sizes = sizes_of(&mut tree);
    assert_eq!(sizes[0].width, measure(0, 110));
    // across the main axis the largest child decides
    assert_eq!(sizes[0].height, measure(0, 35));
    assert_eq!(sizes[1].width, measure(0, 40));
    assert_eq!(sizes[2].width, measure(0, 60));
}

#[test]
fn column_sums_heights_and_takes_the_largest_width() {
    let mut tree = UITree::new();
    let mut col = sized(Some(SizeValue::FitContent), Some(SizeValue::FitContent));
    col.flex_direction = Some(FlexDirection::Col);
    col.gap = Some(Unit::Percent(5));
    col.padding.top = Some(Unit::Pixel(3));
    col.padding.bottom = Some(Unit::Percent(2));
    col.padding.left = Some(Unit::Pixel(1));
    add(&mut tree, 1, None, col);
    add(&mut tree, 2, Some(1), sized(px(40), px(20)));
    add(&mut tree, 3, Some(1), sized(percent(30), percent(10)));
    add(&mut tree, 4, Some(1), sized(px(15), px(5)));
    let sizes = sizes_of(&mut tree);
    // heights: 20px + 10% + 5px, two gaps of 5%, padding 3px and 2%
    assert_eq!(sizes[0].height, measure(10 + 10 + 2, 25 + 3));
    // widths: largest percent 30, largest pixel 40, padding 1px
    assert_eq!(sizes[0].width, measure(30, 41));
}

#[test]
fn childless_fit_content_is_its_padding() {
    let mut tree = UITree::new();
    let mut rules = sized(Some(SizeValue::FitContent), Some(SizeValue::FitContent));
    rules.gap = Some(Unit::Pixel(100));
    add(&mut tree, 1, None, rules);
    let mut padded = rules;
    padded.padding.left = Some(Unit::Pixel(7));
    padded.padding.right = Some(Unit::Pixel(9));
    add(&mut tree, 2, None, padded);
    let sizes = sizes_of(&mut tree);
    assert_eq!(sizes[0].width, measure(0, 0));
    assert_eq!(sizes[0].height, measure(0, 0));
    assert_eq!(sizes[1].width, measure(0, 16));
    assert_eq!(sizes[1].height, measure(0, 0));
}

#[test]
fn automatic_and_explicit_sizes() {
    let mut tree = UITree::new();
    add(&mut tree, 1, None, sized(None, Some(SizeValue::Auto)));
    add(&mut tree, 2, Some(1), sized(percent(250), px(u32::MAX)));
    let sizes = sizes_of(&mut tree);
    assert_eq!(sizes[0].width, measure(100, 0));
    assert_eq!(sizes[0].height, measure(100, 0));
    assert_eq!(sizes[1].width, measure(250, 0));
    assert_eq!(sizes[1].height, measure(0, 4_294_967_295));
}

#[test]
fn measures_saturate() {
    assert_eq!(sat_add(MAX_PART, 1), MAX_PART);
    assert_eq!(sat_add(MAX_PART - 1, 1), MAX_PART);
    assert_eq!(sat_add(2, 3), 5);
    assert_eq!(sat_mul(MAX_PART, 2), MAX_PART);
    assert_eq!(sat_mul(1 << 32, 1 << 32), MAX_PART);
    assert_eq!(sat_mul(6, 7), 42);
    let a = measure(MAX_PART, 5);
    assert_eq!(a.add(&measure(1, 1)), measure(MAX_PART, 6));
    assert_eq!(a.max(&measure(1, 9)), measure(MAX_PART, 9));
    assert_eq!(a.add_units(Some(Unit::Pixel(4)), 3), measure(MAX_PART, 17));
    assert_eq!(a.add_units(Some(Unit::Percent(4)), 3), measure(MAX_PART, 5));
    assert_eq!(a.add_units(None, 3), a);
}

#[test]
fn measure_resolves_against_the_offered_space() {
    assert_eq!(measure(50, 0).resolve(1920), 960);
    assert_eq!(measure(50, 7).resolve(1921), 967);
    assert_eq!(measure(0, 110).resolve(5), 110);
    assert_eq!(measure(150, 0).resolve(100), 150);
    assert_eq!(measure(50, 0).resolve(-11), -5);
    assert_eq!(measure(MAX_PART, 0).resolve(MAX_LENGTH), MAX_LENGTH);
    assert_eq!(measure(0, MAX_PART).resolve(0), MAX_LENGTH);
    assert_eq!(measure(MAX_PART, 0).resolve(-MAX_LENGTH), -MAX_LENGTH);
}

#[test]
fn half_of_the_root_in_a_1920_by_1080_window() {
    let mut tree = UITree::new();
    add(&mut tree, 1, None, sized(percent(100), percent(100)));
    add(&mut tree, 2, Some(1), sized(percent(50), percent(50)));
    tree.recalculate_styles();
    let placed = solve(&tree, Extent { x: 1920, y: 1080 });
    assert_eq!(placed[0].size, Extent { x: 1920, y: 1080 });
    assert_eq!(placed[0].position_center, Position { x: 960, y: 540, z: 0 });
    assert_eq!(placed[1].size, Extent { x: 960, y: 540 });
    assert_eq!(placed[1].position_center, Position { x: 480, y: 270, z: 0 });
    assert_eq!(
        placed[1],
        Transform {
            position_center: Position { x: 480, y: 270, z: 0 },
            size: Extent { x: 960, y: 540 },
            outer_size: ContentBox { left: 480, right: 480, top: 270, bottom: 270 },
            content_size: ContentBox { left: 480, right: 480, top: 270, bottom: 270 },
        }
    );
}

#[test]
fn siblings_in_a_row_follow_each_other_with_gaps() {
    let mut tree = UITree::new();
    let mut row = sized(px(400), px(100));
    row.gap = Some(Unit::Pixel(10));
    row.padding.left = Some(Unit::Pixel(20));
    row.padding.top = Some(Unit::Pixel(5));
    add(&mut tree, 1, None, row);
    let mut first = sized(px(40), px(30));
    first.margin.left = Some(Unit::Pixel(2));
    first.margin.right = Some(Unit::Pixel(3));
    add(&mut tree, 2, Some(1), first);
    add(&mut tree, 3, Some(1), sized(px(60), px(30)));
    add(&mut tree, 4, Some(1), sized(px(10), px(30)));
    tree.recalculate_styles();
    let placed = solve(&tree, Extent { x: 800, y: 600 });
    // the root: centre at its half extents, content box narrowed by the padding
    assert_eq!(placed[0].position_center, Position { x: 200, y: 50, z: 0 });
    assert_eq!(placed[0].content_size, ContentBox { left: 180, right: 200, top: 45, bottom: 50 });
    // the content box starts at x = 20, y = 5
    assert_eq!(placed[1].outer_size, ContentBox { left: 22, right: 23, top: 15, bottom: 15 });
    assert_eq!(placed[1].position_center, Position { x: 20 + 22, y: 5 + 15, z: 0 });
    // the second child: behind the first child's outer extent (45) and one gap (10)
    assert_eq!(placed[2].position_center, Position { x: 20 + 30 + 55, y: 20, z: 0 });
    // the third: behind 45 + 10 + 60 + 10
    assert_eq!(placed[3].position_center, Position { x: 20 + 5 + 125, y: 20, z: 0 });
}

#[test]
fn siblings_in_a_column_stack_downward() {
    let mut tree = UITree::new();
    let mut col = sized(px(100), px(300));
    col.flex_direction = Some(FlexDirection::Col);
    col.gap = Some(Unit::Percent(10));
    add(&mut tree, 1, None, col);
    add(&mut tree, 2, Some(1), sized(px(50), px(20)));
    add(&mut tree, 3, Some(1), sized(percent(50), percent(10)));
    tree.recalculate_styles();
    let placed = solve(&tree, Extent { x: 800, y: 600 });
    assert_eq!(placed[1].position_center, Position { x: 25, y: 10, z: 0 });
    // the gap is 10% of the container's own height: 30
    assert_eq!(placed[2].size, Extent { x: 50, y: 30 });
    assert_eq!(placed[2].position_center, Position { x: 25, y: 20 + 30 + 15, z: 0 });
}

#[test]
fn percent_margins_and_paddings_are_taken_of_the_parent() {
    let mut tree = UITree::new();
    add(&mut tree, 1, None, sized(px(200), px(100)));
    let mut child = sized(px(50), px(40));
    child.margin.left = Some(Unit::Percent(10));
    child.padding.left = Some(Unit::Percent(5));
    child.margin.top = Some(Unit::Percent(10));
    add(&mut tree, 2, Some(1), child);
    tree.recalculate_styles();
    let placed = solve(&tree, Extent { x: 800, y: 600 });
    assert_eq!(placed[1].outer_size.left, 25 + 20);
    assert_eq!(placed[1].content_size.left, 25 - 10);
    assert_eq!(placed[1].outer_size.top, 20 + 10);
    assert_eq!(placed[1].position_center, Position { x: 45, y: 30, z: 0 });
}

#[test]
fn every_root_starts_at_the_windows_corner() {
    let mut tree = UITree::new();
    add(&mut tree, 1, None, sized(px(10), px(10)));
    add(&mut tree, 2, None, sized(px(30), px(50)));
    tree.recalculate_styles();
    let placed = solve(&tree, Extent { x: 100, y: 100 });
    assert_eq!(placed[0].position_center, Position { x: 5, y: 5, z: 0 });
    assert_eq!(placed[1].position_center, Position { x: 15, y: 25, z: 0 });
}

#[test]
fn odd_sizes_split_into_unequal_halves_that_add_up() {
    let mut tree = UITree::new();
    add(&mut tree, 1, None, sized(px(101), px(7)));
    tree.recalculate_styles();
    let placed = solve(&tree, Extent { x: 100, y: 100 });
    assert_eq!(placed[0].outer_size, ContentBox { left: 50, right: 51, top: 3, bottom: 4 });
    assert_eq!(placed[0].position_center, Position { x: 50, y: 3, z: 0 });
}

#[test]
fn an_empty_tree_solves_to_nothing() {
    let tree = UITree::new();
    assert!(solve(&tree, Extent { x: 100, y: 100 }).is_empty());
}

#[test]
fn a_huge_tree_of_lengths_saturates() {
    let mut tree = UITree::new();
    let mut row = sized(Some(SizeValue::FitContent), Some(SizeValue::Auto));
    row.gap = Some(Unit::Pixel(u32::MAX));
    add(&mut tree, 1, None, row);
    for child in 2..400u64 {
        add(&mut tree, child, Some(1), sized(px(u32::MAX), px(1)));
    }
    tree.recalculate_styles();
    let placed = solve(&tree, Extent { x: 100, y: 100 });
    assert_eq!(placed[0].size.x, MAX_LENGTH);
    assert_eq!(placed[399 - 1].position_center.x, MAX_LENGTH);
}
