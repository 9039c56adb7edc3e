use xui::css::{
    apply_property, build_rules, unpack_direction, unpack_size_value_as_unit,
    unpack_value_as_unit, Declaration, StyleToken,
};
use xui::draw::{corner_points, DrawCommand, IUIWriter, UIMaterial};
use xui::error::UIError;
use xui::node::{UINodeId, UINodeKind};
use xui::style::{
    Color, FlexDirection, Margin, Padding, SizeValue, UIStyle, UIStyleId, UIStyleRules, Unit,
};
use xui::tree::UITree;
use xui::view::{ContentBox, Extent, Position, Transform, UIView};

fn id(n: u64) -> UINodeId {
    UINodeId::from_hash(n)
}

fn point(x: i64, y: i64) -> Position {
    Position { x, y, z: 0 }
}

fn add(tree: &mut UITree, node: u64, parent: Option<u64>, width: u32, height: u32, color: Option<Color>) {
    let class = format!("c{node}");
    tree.add_node(id(node), UINodeKind::Div, parent.map(id), vec![class.clone()]).unwrap();
    let mut rules = UIStyleRules::new();
    rules.width = Some(SizeValue::Unit(Unit::Pixel(width)));
    rules.height = Some(SizeValue::Unit(Unit::Pixel(height)));
    rules.background_color = color;
    tree.add_styles(UIStyle { id: UIStyleId::named("test"), class, rules });
}

struct Recorder {
    materials: Vec<UIMaterial>,
    shapes: Vec<(UINodeId, Vec<Position>, String)>,
}

impl IUIWriter for Recorder {
    fn write_shape(&mut self, id: &UINodeId, points: Vec<Position>, material_name: String) {
        self.shapes.push((*id, points, material_name));
    }

    fn add_material(&mut self, material: UIMaterial) -> String {
        self.materials.push(material);
        format!("m{}-{}-{}", material.color.r, material.color.g, material.color.b)
    }
}

#[test]
fn corners_go_clockwise_from_the_upper_left() {
    let transform = Transform {
        position_center: point(100, 50),
        size: Extent { x: 41, y: 20 },
        outer_size: ContentBox { left: 20, right: 21, top: 10, bottom: 10 },
        content_size: ContentBox { left: 20, right: 21, top: 10, bottom: 10 },
    };
    assert_eq!(
        corner_points(&transform),
        vec![point(80, 40), point(121, 40), point(121, 60), point(80, 60)]
    );
}

#[test]
fn shapes_come_in_processing_order_with_their_materials() {
    let mut tree = UITree::new();
    let red = Color { r: 255, g: 0, b: 0 };
    add(&mut tree, 1, None, 200, 100, Some(red));
    add(&mut tree, 2, Some(1), 50, 40, None);
    add(&mut tree, 3, Some(2), 10, 10, None);
    add(&mut tree, 4, Some(1), 30, 20, Some(Color { r: 1, g: 2, b: 3 }));
    let mut view = UIView::new(Extent { x: 800, y: 600 });
    view.recalculate_transform(&mut tree);
    let commands = view.draw_commands(&tree);
    assert_eq!(
        commands.iter().map(|c| c.id).collect::<Vec<_>>(),
        vec![id(1), id(2), id(4), id(3)]
    );
    assert_eq!(
        commands[0],
        DrawCommand {
            id: id(1),
            points: vec![point(0, 0), point(200, 0), point(200, 100), point(0, 100)],
            material: UIMaterial { color: red },
        }
    );
    assert_eq!(commands[1].material, UIMaterial { color: Color { r: 0, g: 0, b: 0 } });
    assert_eq!(commands[2].points, vec![point(50, 0), point(80, 0), point(80, 20), point(50, 20)]);

    let mut recorder = Recorder { materials: Vec::new(), shapes: Vec::new() };
    view.build_draw_commands(&tree, &mut recorder);
    assert_eq!(
        recorder.materials,
        commands.iter().map(|c| c.material).collect::<Vec<_>>()
    );
    assert_eq!(recorder.shapes.len(), 4);
    assert_eq!(recorder.shapes[0], (id(1), commands[0].points.clone(), "m255-0-0".to_string()));
    assert_eq!(recorder.shapes[3], (id(3), commands[3].points.clone(), "m0-0-0".to_string()));
}

#[test]
fn lengths_are_read_from_tokens() {
    let px = StyleToken::Dimension { value: 12, unit: "px".to_string() };
    let em = StyleToken::Dimension { value: 12, unit: "em".to_string() };
    let auto = StyleToken::Ident("auto".to_string());
    let fit = StyleToken::Ident("fit-content".to_string());
    let other = StyleToken::Ident("wide".to_string());
    assert_eq!(unpack_value_as_unit(&px), Ok(Unit::Pixel(12)));
    assert_eq!(unpack_value_as_unit(&StyleToken::Percentage(40)), Ok(Unit::Percent(40)));
    assert_eq!(unpack_value_as_unit(&auto), Ok(Unit::Percent(100)));
    assert_eq!(unpack_value_as_unit(&em), Err(UIError::MalformedStyleUnit));
    assert_eq!(unpack_value_as_unit(&fit), Err(UIError::MalformedStyleUnit));
    assert_eq!(unpack_value_as_unit(&StyleToken::Other), Err(UIError::MalformedStyleUnit));
    assert_eq!(unpack_size_value_as_unit(&px), Ok(SizeValue::Unit(Unit::Pixel(12))));
    assert_eq!(
        unpack_size_value_as_unit(&StyleToken::Percentage(40)),
        Ok(SizeValue::Unit(Unit::Percent(40)))
    );
    assert_eq!(unpack_size_value_as_unit(&auto), Ok(SizeValue::Auto));
    assert_eq!(unpack_size_value_as_unit(&fit), Ok(SizeValue::FitContent));
    assert_eq!(unpack_size_value_as_unit(&other), Err(UIError::MalformedStyleUnit));
    assert_eq!(unpack_size_value_as_unit(&em), Err(UIError::MalformedStyleUnit));
    assert_eq!(unpack_size_value_as_unit(&StyleToken::Other), Err(UIError::MalformedStyleUnit));
}

fn ident(word: &str) -> StyleToken {
    StyleToken::Ident(word.to_string())
}

fn px(value: u32) -> StyleToken {
    StyleToken::Dimension { value, unit: "px".to_string() }
}

#[test]
fn declarations_set_the_field_of_their_property() {
    let red = Color { r: 255, g: 0, b: 0 };
    let mut rules = UIStyleRules::new();
    assert_eq!(apply_property(&mut rules, "flex-direction", &ident("col"), None), Ok(()));
    assert_eq!(apply_property(&mut rules, "width", &px(40), None), Ok(()));
    assert_eq!(apply_property(&mut rules, "height", &ident("fit-content"), None), Ok(()));
    assert_eq!(apply_property(&mut rules, "gap", &StyleToken::Percentage(5), None), Ok(()));
    assert_eq!(apply_property(&mut rules, "padding", &px(3), None), Ok(()));
    assert_eq!(apply_property(&mut rules, "margin", &ident("auto"), None), Ok(()));
    assert_eq!(apply_property(&mut rules, "background-color", &ident("red"), Some(red)), Ok(()));
    let unit = Some(Unit::Pixel(3));
    let all = Some(Unit::Percent(100));
    let mut expected = UIStyleRules::new();
    expected.flex_direction = Some(FlexDirection::Col);
    expected.width = Some(SizeValue::Unit(Unit::Pixel(40)));
    expected.height = Some(SizeValue::FitContent);
    expected.gap = Some(Unit::Percent(5));
    expected.padding = Padding { left: unit, right: unit, bottom: unit, top: unit };
    expected.margin = Margin { left: all, right: all, bottom: all, top: all };
    expected.background_color = Some(red);
    assert_eq!(rules, expected);
    assert_eq!(unpack_direction(&ident("row")), Ok(FlexDirection::Row));
    assert_eq!(unpack_direction(&px(1)), Err(UIError::MalformedStyleValue));
}

#[test]
fn refused_declarations_leave_the_record_as_it_was() {
    let mut rules = UIStyleRules::new();
    rules.gap = Some(Unit::Pixel(1));
    let before = rules;
    assert_eq!(
        apply_property(&mut rules, "border", &px(1), None),
        Err(UIError::UnsupportedProperty)
    );
    assert_eq!(
        apply_property(&mut rules, "flex-direction", &ident("diagonal"), None),
        Err(UIError::MalformedStyleValue)
    );
    assert_eq!(
        apply_property(&mut rules, "background-color", &ident("nocolour"), None),
        Err(UIError::MalformedStyleValue)
    );
    assert_eq!(
        apply_property(&mut rules, "gap", &ident("fit-content"), None),
        Err(UIError::MalformedStyleUnit)
    );
    assert_eq!(
        apply_property(&mut rules, "width", &StyleToken::Other, None),
        Err(UIError::MalformedStyleUnit)
    );
    assert_eq!(rules, before);
}

#[test]
fn a_class_block_is_read_in_order_and_ends_at_the_first_refusal() {
    let declare = |property: &str, token: StyleToken| Declaration {
        property: property.to_string(),
        token,
        color: None,
    };
    assert_eq!(build_rules(&Vec::new()), Ok(UIStyleRules::new()));
    let block = vec![declare("width", px(1)), declare("gap", px(2)), declare("width", px(3))];
    let mut expected = UIStyleRules::new();
    expected.width = Some(SizeValue::Unit(Unit::Pixel(3)));
    expected.gap = Some(Unit::Pixel(2));
    assert_eq!(build_rules(&block), Ok(expected));
    let broken = vec![
        declare("width", px(1)),
        declare("border", px(2)),
        declare("gap", StyleToken::Other),
    ];
    assert_eq!(build_rules(&broken), Err(UIError::UnsupportedProperty));
}
