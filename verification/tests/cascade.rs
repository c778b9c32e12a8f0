use cascade::css::CssErrorKind;
use cascade::css::Parser;
use cascade::css::Value;
use cascade::dom::AttrMap;
use cascade::dom::ElementData;
use cascade::dom::Node;
use cascade::style::matches_simple_selector;
use cascade::style::specified_values;
use cascade::style::style_tree;
use cascade::style::PropertyMap;

fn attrs(pairs: &[(&str, &str)]) -> AttrMap {
    let mut m = AttrMap::new();
    for (k, v) in pairs {
        m.insert(k.to_string(), v.to_string());
    }
    m
}

fn element(tag: &str, pairs: &[(&str, &str)]) -> ElementData {
    ElementData { tag_name: tag.to_string(), attributes: attrs(pairs) }
}

fn simple(tag: Option<&str>, id: Option<&str>, classes: &[&str]) -> cascade::css::SimpleSelector {
    cascade::css::SimpleSelector {
        tag_name: tag.map(|t| t.to_string()),
        id: id.map(|i| i.to_string()),
        class: classes.iter().map(|c| c.to_string()).collect(),
    }
}

fn value_text(map: &PropertyMap, key: &str) -> Option<String> {
    map.get(key).map(Value::to_string)
}

#[test]
fn matching_checks_tag_id_and_classes() {
    let elem = element("p", &[("id", "main"), ("class", "a b")]);
    assert!(matches_simple_selector(&elem, &simple(Some("p"), None, &[])));
    assert!(!matches_simple_selector(&elem, &simple(Some("div"), None, &[])));
    assert!(matches_simple_selector(&elem, &simple(None, Some("main"), &[])));
    assert!(!matches_simple_selector(&elem, &simple(None, Some("other"), &[])));
    assert!(matches_simple_selector(&elem, &simple(None, None, &["a"])));
    assert!(matches_simple_selector(&elem, &simple(None, None, &["a", "b"])));
    assert!(!matches_simple_selector(&elem, &simple(None, None, &["a", "c"])));
    // The empty selector constrains nothing.
    assert!(matches_simple_selector(&elem, &simple(None, None, &[])));
}

#[test]
fn classes_split_on_single_spaces() {
    let elem = element("p", &[("class", "x y")]);
    assert_eq!(elem.classes(), vec!["x".to_string(), "y".to_string()]);
    let bare = element("p", &[]);
    assert!(bare.classes().is_empty());
}

#[test]
fn cascade_scenario_highest_specificity_wins() {
    let sheet = Parser::parse(
        "div { text-align: center; color: #000; } p, .class, #id { color: #fff; }",
    )
    .expect("the stylesheet parses");
    let elem = element("div", &[("id", "id")]);
    let map = specified_values(&elem, &sheet);
    assert_eq!(map.len(), 2);
    assert_eq!(value_text(&map, "text-align"), Some("center".to_string()));
    assert_eq!(value_text(&map, "color"), Some("#FFFFFFFF".to_string()));
}

#[test]
fn equal_specificity_resolves_to_last_declared() {
    let sheet = Parser::parse("p { color: #000; } p { color: #fff; }").expect("parses");
    let elem = element("p", &[]);
    let map = specified_values(&elem, &sheet);
    assert_eq!(value_text(&map, "color"), Some("#FFFFFFFF".to_string()));
}

#[test]
fn selector_list_order_does_not_matter() {
    let first = Parser::parse("p, .class, #id { color: #fff; }").expect("parses");
    let second = Parser::parse("#id, .class, p { color: #fff; }").expect("parses");
    for elem in [
        element("div", &[("id", "id")]),
        element("p", &[]),
        element("span", &[("class", "class")]),
        element("em", &[]),
    ] {
        let a = specified_values(&elem, &first);
        let b = specified_values(&elem, &second);
        assert_eq!(a.len(), b.len());
        assert_eq!(value_text(&a, "color"), value_text(&b, "color"));
    }
}

#[test]
fn unmatched_elements_get_an_empty_map() {
    let sheet = Parser::parse("div { color: #000; }").expect("parses");
    let elem = element("p", &[]);
    let map = specified_values(&elem, &sheet);
    assert_eq!(map.len(), 0);
    assert!(map.get("color").is_none());
}

#[test]
fn style_tree_mirrors_the_document() {
    let sheet = Parser::parse("div { color: #000; }").expect("parses");
    let root = Node::elem(
        "div".to_string(),
        attrs(&[]),
        vec![Node::text("hello".to_string()), Node::elem("p".to_string(), attrs(&[]), vec![])],
    );
    let styled = style_tree(&root, &sheet).expect("resolution succeeds");
    assert_eq!(styled.children().len(), 2);
    assert_eq!(value_text(styled.specified_values(), "color"), Some("#000000FF".to_string()));
    // Text nodes get an empty property map.
    assert_eq!(styled.children()[0].specified_values().len(), 0);
    // The unmatched child element gets an empty map too.
    assert_eq!(styled.children()[1].specified_values().len(), 0);
}

#[test]
fn inline_style_overrides_regardless_of_specificity() {
    let sheet = Parser::parse(
        "div { text-align: center; color: #000; } p, .class, #id { color: #fff; }",
    )
    .expect("parses");
    let root = Node::elem(
        "div".to_string(),
        attrs(&[("id", "id"), ("style", "color: #111;")]),
        vec![],
    );
    let styled = style_tree(&root, &sheet).expect("resolution succeeds");
    assert_eq!(value_text(styled.specified_values(), "color"), Some("#111111FF".to_string()));
    assert_eq!(
        value_text(styled.specified_values(), "text-align"),
        Some("center".to_string())
    );
}

#[test]
fn malformed_inline_style_is_fatal() {
    let sheet = Parser::parse("div { color: #000; }").expect("parses");
    let root = Node::elem(
        "div".to_string(),
        attrs(&[("style", "color: #12345;")]),
        vec![],
    );
    match style_tree(&root, &sheet) {
        Err(err) => assert_eq!(err.kind, CssErrorKind::BadHexColor),
        Ok(_) => panic!("five hex digits must fail"),
    }
}

#[test]
fn resolution_is_idempotent() {
    let sheet = Parser::parse(
        "div { text-align: center; color: #000; } p, .class, #id { color: #fff; }",
    )
    .expect("parses");
    let root = Node::elem(
        "div".to_string(),
        attrs(&[("id", "id"), ("style", "margin: 2px;")]),
        vec![Node::elem("p".to_string(), attrs(&[("class", "class")]), vec![])],
    );
    let once = style_tree(&root, &sheet).expect("first resolution succeeds");
    let twice = style_tree(&root, &sheet).expect("second resolution succeeds");
    for key in ["text-align", "color", "margin"] {
        assert_eq!(
            value_text(once.specified_values(), key),
            value_text(twice.specified_values(), key)
        );
    }
    assert_eq!(once.specified_values().len(), twice.specified_values().len());
    assert_eq!(
        value_text(once.children()[0].specified_values(), "color"),
        value_text(twice.children()[0].specified_values(), "color")
    );
}

#[test]
fn property_map_insert_overwrites_by_key() {
    let mut map: PropertyMap = PropertyMap::new();
    map.insert("color".to_string(), Value::Keyword("red".to_string()));
    map.insert("color".to_string(), Value::Keyword("blue".to_string()));
    assert_eq!(map.len(), 1);
    assert_eq!(value_text(&map, "color"), Some("blue".to_string()));
}
