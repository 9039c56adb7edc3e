use xui::style::{
    calc_or_zero, clamp, half, Color, Display, FlexDirection, Margin, Padding, SizeValue,
    StyleClass, UIStyleId, UIStyleRules, Unit, MAX_LENGTH,
};
use xui::node::UINodeId;
use xui::view::Extent;

fn record_with_width(px: u32) -> UIStyleRules {
    let mut record = UIStyleRules::new();
    record.width = Some(SizeValue::Unit(Unit::Pixel(px)));
    record
}

#[test]
fn merge_of_nothing_is_unset() {
    let merged = UIStyleRules::merge(&Vec::new());
    assert_eq!(merged, UIStyleRules::new());
    assert_eq!(merged, UIStyleRules::default());
    assert_eq!(merged.width, None);
    assert_eq!(merged.margin, Margin::new());
    assert_eq!(merged.padding, Padding::default());
}

#[test]
fn later_record_overrides_what_it_sets() {
    let mut first = UIStyleRules::new();
    first.gap = Some(Unit::Pixel(4));
    first.background_color = Some(Color { r: 1, g: 2, b: 3 });
    first.flex_direction = Some(FlexDirection::Col);
    first.margin.left = Some(Unit::Percent(5));
    let mut second = UIStyleRules::new();
    second.gap = Some(Unit::Pixel(10));
    second.padding.top = Some(Unit::Pixel(7));
    let merged = UIStyleRules::merge(&vec![first, second]);
    assert_eq!(merged.gap, Some(Unit::Pixel(10)));
    assert_eq!(merged.background_color, Some(Color { r: 1, g: 2, b: 3 }));
    assert_eq!(merged.flex_direction, Some(FlexDirection::Col));
    assert_eq!(merged.margin.left, Some(Unit::Percent(5)));
    assert_eq!(merged.padding.top, Some(Unit::Pixel(7)));
    assert_eq!(merged.display, None);
}

#[test]
fn merging_a_record_twice_is_merging_it_once() {
    let mut record = record_with_width(40);
    record.display = Some(Display::Flex);
    record.height = Some(SizeValue::FitContent);
    let base = record_with_width(12);
    let once = UIStyleRules::merge(&vec![base, record]);
    let twice = UIStyleRules::merge(&vec![base, record, record]);
    assert_eq!(once, twice);
    assert_eq!(once.overlay(&record), once);
    assert_eq!(once.width, Some(SizeValue::Unit(Unit::Pixel(40))));
}

#[test]
fn overlay_keeps_fields_the_later_record_leaves_unset() {
    let first = record_with_width(40);
    let mut second = UIStyleRules::new();
    second.height = Some(SizeValue::Auto);
    let merged = first.overlay(&second);
    assert_eq!(merged.width, Some(SizeValue::Unit(Unit::Pixel(40))));
    assert_eq!(merged.height, Some(SizeValue::Auto));
}

#[test]
fn unit_resolves_pixels_and_percentages() {
    assert_eq!(Unit::Pixel(25).calc(1000), 25);
    assert_eq!(Unit::Percent(50).calc(1920), 960);
    assert_eq!(Unit::Percent(33).calc(100), 33);
    assert_eq!(Unit::Percent(33).calc(10), 3);
    assert_eq!(Unit::Percent(50).calc(-10), -5);
    assert_eq!(Unit::Percent(50).calc(-5), -2);
    assert_eq!(Unit::Percent(250).calc(200), 200);
    assert_eq!(Unit::Pixel(u32::MAX).calc(0), 4_294_967_295);
    assert_eq!(calc_or_zero(None, 500), 0);
    assert_eq!(calc_or_zero(Some(Unit::Percent(10)), 500), 50);
}

#[test]
fn lengths_saturate_at_the_bound() {
    assert_eq!(clamp(MAX_LENGTH + 1), MAX_LENGTH);
    assert_eq!(clamp(-MAX_LENGTH - 1), -MAX_LENGTH);
    assert_eq!(clamp(17), 17);
    assert_eq!(clamp(i64::MAX), MAX_LENGTH);
    assert_eq!(clamp(i64::MIN), -MAX_LENGTH);
}

#[test]
fn half_rounds_toward_zero() {
    assert_eq!(half(10), 5);
    assert_eq!(half(11), 5);
    assert_eq!(half(-11), -5);
    assert_eq!(half(0), 0);
}

#[test]
fn boxes_add_margin_and_take_padding() {
    let mut style = UIStyleRules::new();
    style.margin.left = Some(Unit::Pixel(3));
    style.margin.top = Some(Unit::Percent(10));
    style.padding.right = Some(Unit::Pixel(4));
    style.padding.bottom = Some(Unit::Percent(50));
    let size = Extent { x: 101, y: 40 };
    let parent = Extent { x: 1000, y: 200 };
    let outer = style.calc_outer_box(size, parent);
    assert_eq!(outer.left, 53);
    assert_eq!(outer.right, 51);
    assert_eq!(outer.top, 40);
    assert_eq!(outer.bottom, 20);
    let content = style.calc_content_box(size, parent);
    assert_eq!(content.left, 50);
    assert_eq!(content.right, 47);
    assert_eq!(content.top, 20);
    assert_eq!(content.bottom, -80);
    assert_eq!(outer.left + outer.right, 101 + 3);
}

#[test]
fn class_replaces_the_record_of_a_source_and_appends_a_new_one() {
    let mut class = StyleClass::new();
    class.add_styles(UIStyleId::named("base"), record_with_width(1));
    class.add_styles(UIStyleId::from("theme"), record_with_width(2));
    class.add_styles(UIStyleId::from("base".to_string()), record_with_width(3));
    assert_eq!(class.styles().len(), 2);
    assert_eq!(class.styles()[0], record_with_width(3));
    assert_eq!(class.styles()[1], record_with_width(2));
    class.add_node(UINodeId::from_hash(9));
    class.add_node(UINodeId::from_hash(4));
    assert_eq!(class.node_ids(), &vec![UINodeId::from_hash(9), UINodeId::from_hash(4)]);
}

#[test]
fn defaults_are_the_first_variants() {
    assert_eq!(SizeValue::default(), SizeValue::Auto);
    assert_eq!(FlexDirection::default(), FlexDirection::Row);
    assert_eq!(Display::default(), Display::Flex);
}
