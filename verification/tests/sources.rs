use xui::component::{ComponentFactory, IComponentTemplate, IComponentTemplateFactory};
use xui::css::UICSSSource;
use xui::xml::UIXmlSource;

struct Card;

impl IComponentTemplate for Card {
    fn name(&self) -> String {
        "card".to_string()
    }

    fn template(&self) -> String {
        "<div classes=\"card\"/>".to_string()
    }

    fn styles(&self) -> Vec<String> {
        vec![".card { width: 10px; }".to_string()]
    }
}

impl IComponentTemplateFactory for Card {}

#[test]
fn css_source_keeps_its_text() {
    let source = UICSSSource::new(".a { gap: 3px; }".to_string());
    assert_eq!(source.data(), ".a { gap: 3px; }");
}

#[test]
fn xml_source_collects_styles_and_prefix() {
    let source = UIXmlSource::new("<div/>".to_string());
    assert_eq!(source.template(), "<div/>");
    assert!(source.styles().is_empty());
    assert_eq!(source.prefix(), &None);
    let source = source
        .add_style("one".to_string())
        .add_prefix("first".to_string())
        .add_style("two".to_string())
        .add_prefix("second".to_string());
    assert_eq!(source.template(), "<div/>");
    assert_eq!(source.styles(), &vec!["one".to_string(), "two".to_string()]);
    assert_eq!(source.prefix(), &Some("second".to_string()));
}

#[test]
fn factory_builds_from_its_component() {
    let factory = ComponentFactory::new(Card);
    assert_eq!(factory.build_template(), "<div classes=\"card\"/>");
    assert_eq!(factory.build_styles(), vec![".card { width: 10px; }".to_string()]);
}
