use cascade::css::Parser;
use cascade::css::CssErrorKind;
use cascade::css::Selector;
use cascade::css::SimpleSelector;
use cascade::css::Unit;
use cascade::css::Value;

fn parse_single_value(text: &str) -> Value {
    let sheet = Parser::parse(text).expect("stylesheet should parse");
    assert_eq!(sheet.rules.len(), 1);
    assert_eq!(sheet.rules[0].declarations.len(), 1);
    sheet.rules[0].declarations[0].value.clone()
}

#[test]
fn color_three_digits_white() {
    match parse_single_value("a { color: #fff; }") {
        Value::ColorValue(c) => {
            assert_eq!((c.r, c.g, c.b, c.a), (255, 255, 255, 255));
        }
        _ => panic!("expected a color"),
    }
}

#[test]
fn color_three_digits_black() {
    match parse_single_value("a { color: #000; }") {
        Value::ColorValue(c) => {
            assert_eq!((c.r, c.g, c.b, c.a), (0, 0, 0, 255));
        }
        _ => panic!("expected a color"),
    }
}

#[test]
fn color_eight_digits() {
    match parse_single_value("a { color: #12345678; }") {
        Value::ColorValue(c) => {
            assert_eq!((c.r, c.g, c.b, c.a), (0x12, 0x34, 0x56, 0x78));
        }
        _ => panic!("expected a color"),
    }
}

#[test]
fn color_single_digit_expands_by_division() {
    // A lone digit d becomes d * 255 / 15, so #1 maps to 17, not 0x10.
    match parse_single_value("a { color: #1234; }") {
        Value::ColorValue(c) => {
            assert_eq!((c.r, c.g, c.b, c.a), (17, 34, 51, 68));
        }
        _ => panic!("expected a color"),
    }
}

#[test]
fn color_six_digits() {
    match parse_single_value("a { color: #A1B2C3; }") {
        Value::ColorValue(c) => {
            assert_eq!((c.r, c.g, c.b, c.a), (0xA1, 0xB2, 0xC3, 255));
        }
        _ => panic!("expected a color"),
    }
}

#[test]
fn color_five_digits_fails() {
    let err = Parser::parse("a { color: #12345; }").expect_err("five hex digits must fail");
    assert_eq!(err.kind, CssErrorKind::BadHexColor);
}

#[test]
fn color_to_string_is_uppercase_rgba() {
    let v = parse_single_value("a { color: #fff; }");
    assert_eq!(v.to_string(), "#FFFFFFFF");
    let v = parse_single_value("a { color: #000; }");
    assert_eq!(v.to_string(), "#000000FF");
}

#[test]
fn empty_block_parses_to_zero_declarations() {
    let sheet = Parser::parse("sel {}").expect("an empty block is fine");
    assert_eq!(sheet.rules.len(), 1);
    assert_eq!(sheet.rules[0].declarations.len(), 0);
}

#[test]
fn empty_input_parses_to_zero_rules() {
    let sheet = Parser::parse("   ").expect("whitespace only is fine");
    assert_eq!(sheet.rules.len(), 0);
}

#[test]
fn length_keeps_its_literal_and_unit() {
    match parse_single_value("a { margin: 12.5px; }") {
        Value::Length(l, Unit::Px) => {
            assert_eq!(l, "12.5");
        }
        _ => panic!("expected a length"),
    }
    let v = parse_single_value("a { margin: 3px; }");
    assert_eq!(v.to_string(), "3px");
}

#[test]
fn keyword_is_kept_verbatim() {
    match parse_single_value("a { text-align: center; }") {
        Value::Keyword(k) => assert_eq!(k, "center"),
        _ => panic!("expected a keyword"),
    }
}

#[test]
fn unknown_unit_fails() {
    let err = Parser::parse("a { x: 5em; }").expect_err("only px is known");
    assert_eq!(err.kind, CssErrorKind::UnknownUnit);
}

#[test]
fn bad_number_fails() {
    let err = Parser::parse("a { x: 1..2px; }").expect_err("two points are no number");
    assert_eq!(err.kind, CssErrorKind::BadNumber);
}

#[test]
fn bare_sign_fails_as_number() {
    let err = Parser::parse("a { x: +; }").expect_err("a sign alone is no number");
    assert_eq!(err.kind, CssErrorKind::BadNumber);
}

#[test]
fn missing_colon_fails() {
    let err = Parser::parse("a { x 5px; }").expect_err("the colon is mandatory");
    assert_eq!(err.kind, CssErrorKind::UnexpectedChar('5'));
}

#[test]
fn missing_semicolon_fails() {
    let err = Parser::parse("a { x: center }").expect_err("the semicolon is mandatory");
    assert_eq!(err.kind, CssErrorKind::UnexpectedChar('}'));
}

#[test]
fn bad_selector_separator_fails() {
    let err = Parser::parse("a ! {}").expect_err("only commas separate selectors");
    assert_eq!(err.kind, CssErrorKind::UnexpectedChar('!'));
}

#[test]
fn truncated_input_fails() {
    let err = Parser::parse("p").expect_err("a selector needs its block");
    assert_eq!(err.kind, CssErrorKind::UnexpectedEnd);
}

#[test]
fn specificity_counts_id_class_tag() {
    let sel = Selector::Simple(SimpleSelector {
        tag_name: Some("p".to_string()),
        id: Some("x".to_string()),
        class: vec!["a".to_string(), "b".to_string()],
    });
    assert_eq!(sel.specificity(), (1, 2, 1));

    let id_only = Selector::Simple(SimpleSelector {
        tag_name: None,
        id: Some("x".to_string()),
        class: Vec::new(),
    });
    let class_only = Selector::Simple(SimpleSelector {
        tag_name: None,
        id: None,
        class: vec!["a".to_string()],
    });
    let tag_only = Selector::Simple(SimpleSelector {
        tag_name: Some("p".to_string()),
        id: None,
        class: Vec::new(),
    });
    // Lexicographic: an id outranks any class, a class outranks any tag.
    assert!(id_only.specificity() > class_only.specificity());
    assert!(class_only.specificity() > tag_only.specificity());
}

#[test]
fn selectors_are_sorted_descending_by_specificity() {
    let sheet = Parser::parse("p, .class, #id { color: #fff; }").expect("parses");
    assert_eq!(sheet.rules.len(), 1);
    let sels = &sheet.rules[0].selectors;
    assert_eq!(sels.len(), 3);
    let Selector::Simple(first) = &sels[0];
    assert_eq!(first.id.as_deref(), Some("id"));
    let Selector::Simple(second) = &sels[1];
    assert_eq!(second.class, vec!["class".to_string()]);
    let Selector::Simple(third) = &sels[2];
    assert_eq!(third.tag_name.as_deref(), Some("p"));
}

#[test]
fn universal_selector_adds_no_constraint() {
    let sheet = Parser::parse("* {}").expect("the universal selector parses");
    let Selector::Simple(sel) = &sheet.rules[0].selectors[0];
    assert!(sel.tag_name.is_none());
    assert!(sel.id.is_none());
    assert!(sel.class.is_empty());
}
