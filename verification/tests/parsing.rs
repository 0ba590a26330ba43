use toy_engine::css::{self, px, Selector, Unit, Value};
use toy_engine::dom::{Node, NodeType};
use toy_engine::html;
use toy_engine::text::{ParseError, ParseErrorKind};

fn tag(node: &Node) -> &str {
    match &node.node_type {
        NodeType::Element(e) => e.tag_name.as_str(),
        NodeType::Text(_) => panic!("not an element"),
    }
}

fn text_of(node: &Node) -> &str {
    match &node.node_type {
        NodeType::Text(t) => t.as_str(),
        NodeType::Element(_) => panic!("not a text"),
    }
}

#[test]
fn two_top_level_elements_get_a_root() {
    let root = html::parse("<p>a</p><p>b</p>".to_string()).unwrap();
    assert_eq!(tag(&root), "html");
    assert_eq!(root.children.len(), 2);
    assert_eq!(tag(&root.children[0]), "p");
    assert_eq!(tag(&root.children[1]), "p");
    assert_eq!(text_of(&root.children[0].children[0]), "a");
    assert_eq!(text_of(&root.children[1].children[0]), "b");
}

#[test]
fn single_root_element_is_returned() {
    let root = html::parse("<html><body></body></html>".to_string()).unwrap();
    assert_eq!(tag(&root), "html");
    assert_eq!(root.children.len(), 1);
    assert_eq!(tag(&root.children[0]), "body");
    assert_eq!(root.children[0].children.len(), 0);
}

#[test]
fn self_closing_tag_is_rejected() {
    let err = html::parse("<html><body/></html>".to_string()).unwrap_err();
    assert_eq!(err, ParseError { kind: ParseErrorKind::UnexpectedCharacter, offset: 11 });
}

#[test]
fn attributes_with_either_quote() {
    let root = html::parse("<a href='x' class=\"y z\">t</a>".to_string()).unwrap();
    assert_eq!(tag(&root), "a");
    match &root.node_type {
        NodeType::Element(e) => {
            assert_eq!(e.attributes.len(), 2);
            assert_eq!(e.attributes.get("href").unwrap(), "x");
            assert_eq!(e.attributes.get("class").unwrap(), "y z");
            assert!(e.attributes.get("id").is_none());
            assert_eq!(e.classes(), vec!["y".to_string(), "z".to_string()]);
            assert!(e.id().is_none());
        }
        NodeType::Text(_) => panic!("not an element"),
    }
    assert_eq!(root.children.len(), 1);
    assert_eq!(text_of(&root.children[0]), "t");
}

#[test]
fn later_attribute_overwrites_earlier() {
    let root = html::parse("<a id=\"x\" id=\"y\"></a>".to_string()).unwrap();
    match &root.node_type {
        NodeType::Element(e) => {
            assert_eq!(e.attributes.len(), 1);
            assert_eq!(e.id().unwrap(), "y");
        }
        NodeType::Text(_) => panic!("not an element"),
    }
}

#[test]
fn whitespace_between_nodes_is_skipped_and_text_keeps_its_tail() {
    let root = html::parse("  <div>\n  hello  <b>x</b>\n</div>  ".to_string()).unwrap();
    assert_eq!(tag(&root), "div");
    assert_eq!(root.children.len(), 2);
    assert_eq!(text_of(&root.children[0]), "hello  ");
    assert_eq!(tag(&root.children[1]), "b");
}

#[test]
fn lone_text_is_wrapped() {
    let root = html::parse("hello".to_string()).unwrap();
    assert_eq!(tag(&root), "html");
    match &root.node_type {
        NodeType::Element(e) => assert_eq!(e.attributes.len(), 0),
        NodeType::Text(_) => panic!("not an element"),
    }
    assert_eq!(root.children.len(), 1);
    assert_eq!(text_of(&root.children[0]), "hello");
    assert_eq!(root.children[0].children.len(), 0);
}

#[test]
fn lone_element_is_the_root() {
    let root = html::parse("<p>hello</p>".to_string()).unwrap();
    assert_eq!(tag(&root), "p");
    assert_eq!(root.children.len(), 1);
    assert_eq!(text_of(&root.children[0]), "hello");
}

#[test]
fn empty_tag_name_is_rejected() {
    let err = html::parse("<></>".to_string()).unwrap_err();
    assert_eq!(err, ParseError { kind: ParseErrorKind::UnexpectedCharacter, offset: 1 });
    let err = html::parse("<p>< ></p>".to_string()).unwrap_err();
    assert_eq!(err, ParseError { kind: ParseErrorKind::UnexpectedCharacter, offset: 4 });
}

#[test]
fn empty_attribute_name_is_rejected() {
    let err = html::parse("<a =\"x\"></a>".to_string()).unwrap_err();
    assert_eq!(err, ParseError { kind: ParseErrorKind::UnexpectedCharacter, offset: 3 });
}

#[test]
fn empty_input_gives_an_empty_root() {
    let root = html::parse("".to_string()).unwrap();
    assert_eq!(tag(&root), "html");
    assert_eq!(root.children.len(), 0);
}

#[test]
fn mismatched_closing_tag_is_an_error() {
    let err = html::parse("<a></b>".to_string()).unwrap_err();
    assert_eq!(err, ParseError { kind: ParseErrorKind::ExpectedLiteral, offset: 5 });
}

#[test]
fn missing_closing_tag_is_an_error() {
    let err = html::parse("<a>x".to_string()).unwrap_err();
    assert_eq!(err, ParseError { kind: ParseErrorKind::ExpectedLiteral, offset: 4 });
}

#[test]
fn unterminated_tag_is_an_error() {
    let err = html::parse("<a".to_string()).unwrap_err();
    assert_eq!(err, ParseError { kind: ParseErrorKind::UnexpectedCharacter, offset: 2 });
}

#[test]
fn unquoted_attribute_is_an_error() {
    let err = html::parse("<a b=c></a>".to_string()).unwrap_err();
    assert_eq!(err, ParseError { kind: ParseErrorKind::UnexpectedCharacter, offset: 5 });
}

#[test]
fn error_offset_counts_bytes() {
    // "é" takes two bytes, so the stray "=" stands at byte 7.
    let err = html::parse("<a>é</a =".to_string()).unwrap_err();
    assert_eq!(err, ParseError { kind: ParseErrorKind::ExpectedLiteral, offset: 8 });
}

#[test]
fn elements_by_tag_name_in_document_order() {
    let root = html::parse("<div><p>a</p><span><p>b</p></span><p>c</p></div>".to_string()).unwrap();
    let found = root.get_elements_by_tag_name("p");
    assert_eq!(found.len(), 3);
    assert_eq!(text_of(&found[0].children[0]), "a");
    assert_eq!(text_of(&found[1].children[0]), "b");
    assert_eq!(text_of(&found[2].children[0]), "c");
    assert_eq!(root.get_elements_by_tag_name("div").len(), 1);
    assert_eq!(root.get_elements_by_tag_name("em").len(), 0);
}

#[test]
fn stylesheet_rules_and_declarations() {
    let sheet = css::parse("h1, h2 { margin: auto; color: #cc0000; }\ndiv.note { padding: 1.5px; }".to_string()).unwrap();
    assert_eq!(sheet.rules.len(), 2);
    assert_eq!(sheet.rules[0].selectors.len(), 2);
    assert_eq!(sheet.rules[0].declarations.len(), 2);
    assert_eq!(sheet.rules[0].declarations[0].name, "margin");
    assert_eq!(sheet.rules[0].declarations[0].value, Value::Keyword("auto".to_string()));
    assert_eq!(sheet.rules[0].declarations[1].name, "color");
    assert_eq!(sheet.rules[0].declarations[1].value, Value::Color(204, 0, 0, 255));
    assert_eq!(sheet.rules[1].declarations[0].value, Value::Length(1500, Unit::Px));
    let Selector::Simple(s) = &sheet.rules[1].selectors[0];
    assert_eq!(s.tag_name, Some("div".to_string()));
    assert_eq!(s.id, None);
    assert_eq!(s.class, vec!["note".to_string()]);
}

#[test]
fn selectors_are_sorted_most_specific_first() {
    let sheet = css::parse("*, div, .a, #x, div.a, .a.b, p#y.c {}".to_string()).unwrap();
    let ranks: Vec<(usize, usize, usize)> =
        sheet.rules[0].selectors.iter().map(|s| s.specificity()).collect();
    assert_eq!(
        ranks,
        vec![(1, 1, 1), (1, 0, 0), (0, 2, 0), (0, 1, 1), (0, 1, 0), (0, 0, 1), (0, 0, 0)]
    );
}

#[test]
fn equally_specific_selectors_keep_their_order() {
    let sheet = css::parse("b, a, .z, c {}".to_string()).unwrap();
    let names: Vec<Option<String>> = sheet.rules[0]
        .selectors
        .iter()
        .map(|s| match s {
            Selector::Simple(s) => s.tag_name.clone(),
        })
        .collect();
    assert_eq!(
        names,
        vec![None, Some("b".to_string()), Some("a".to_string()), Some("c".to_string())]
    );
}

#[test]
fn lengths_are_thousandths() {
    let value = |text: &str| {
        let sheet = css::parse(format!("a {{ w: {}; }}", text)).unwrap();
        sheet.rules[0].declarations[0].value.clone()
    };
    assert_eq!(value("400px"), Value::Length(400_000, Unit::Px));
    assert_eq!(value("400px"), Value::Length(px(400), Unit::Px));
    assert_eq!(value("0.5PX"), Value::Length(500, Unit::Px));
    assert_eq!(value("1.Px"), Value::Length(1000, Unit::Px));
    assert_eq!(value("2.0049px"), Value::Length(2004, Unit::Px));
    assert_eq!(value("0012.25px"), Value::Length(12_250, Unit::Px));
    assert_eq!(value("9223372036854775.807px"), Value::Length(i64::MAX, Unit::Px));
}

#[test]
fn to_px_of_each_kind_of_value() {
    assert_eq!(Value::Length(1500, Unit::Px).to_px(), Some(1500));
    assert_eq!(Value::Keyword("auto".to_string()).to_px(), None);
    assert_eq!(Value::Color(1, 2, 3, 4).to_px(), None);
    assert!(Value::Keyword("auto".to_string()).is_auto());
    assert!(!Value::Keyword("none".to_string()).is_auto());
}

#[test]
fn stylesheet_errors() {
    let err = |text: &str| css::parse(text.to_string()).unwrap_err();
    assert_eq!(err("a { w: 1em; }"), ParseError { kind: ParseErrorKind::UnrecognizedUnit, offset: 8 });
    assert_eq!(err("a { w: 1; }"), ParseError { kind: ParseErrorKind::UnrecognizedUnit, offset: 8 });
    assert_eq!(err("a { w: 1.2.3px; }"), ParseError { kind: ParseErrorKind::UnexpectedCharacter, offset: 10 });
    assert_eq!(
        err("a { w: 9223372036854775.808px; }"),
        ParseError { kind: ParseErrorKind::LengthOutOfRange, offset: 7 }
    );
    assert_eq!(err("a { c: #12345; }"), ParseError { kind: ParseErrorKind::MalformedColor, offset: 13 });
    assert_eq!(err("a { c: #12g456; }"), ParseError { kind: ParseErrorKind::MalformedColor, offset: 10 });
    assert_eq!(err("a { c #123456; }"), ParseError { kind: ParseErrorKind::ExpectedLiteral, offset: 6 });
    assert_eq!(err("a { c: red }"), ParseError { kind: ParseErrorKind::ExpectedLiteral, offset: 11 });
    assert_eq!(err("a b {}"), ParseError { kind: ParseErrorKind::UnexpectedCharacter, offset: 2 });
    assert_eq!(err("a"), ParseError { kind: ParseErrorKind::UnexpectedCharacter, offset: 1 });
    assert_eq!(err("a {"), ParseError { kind: ParseErrorKind::UnexpectedCharacter, offset: 3 });
    assert_eq!(err("a { w:"), ParseError { kind: ParseErrorKind::UnexpectedCharacter, offset: 6 });
}

#[test]
fn empty_stylesheet() {
    assert_eq!(css::parse("  \n ".to_string()).unwrap().rules.len(), 0);
}

#[test]
fn written_markup_reads_back() {
    // An element with two attributes, holding a text, an element with a
    // text of its own, and an empty element.
    let source = "<div id=\"main\" class=\"a b\">Hello, <b>wide  world</b><hr lang=\"\"></hr></div>";
    let root = html::parse(source.to_string()).unwrap();
    assert_eq!(tag(&root), "div");
    match &root.node_type {
        NodeType::Element(e) => {
            assert_eq!(e.attributes.len(), 2);
            assert_eq!(e.attributes.get("id").unwrap(), "main");
            assert_eq!(e.attributes.get("class").unwrap(), "a b");
        }
        NodeType::Text(_) => panic!("not an element"),
    }
    assert_eq!(root.children.len(), 3);
    assert_eq!(text_of(&root.children[0]), "Hello, ");
    assert_eq!(tag(&root.children[1]), "b");
    assert_eq!(root.children[1].children.len(), 1);
    assert_eq!(text_of(&root.children[1].children[0]), "wide  world");
    assert_eq!(tag(&root.children[2]), "hr");
    assert_eq!(root.children[2].children.len(), 0);
    match &root.children[2].node_type {
        NodeType::Element(e) => assert_eq!(e.attributes.get("lang").unwrap(), ""),
        NodeType::Text(_) => panic!("not an element"),
    }
}

#[test]
fn white_space_and_quotes_do_not_change_the_tree() {
    let plain = html::parse(
        "<div id=\"a\" class=\"b c\"><p>x y </p><b></b>t</div>".to_string(),
    )
    .unwrap();
    let spaced = html::parse(
        " \n<div\t id='a'\n  class=\"b c\"  >\n  <p >x y </p> <b\n></b>\n\tt</div>  ".to_string(),
    )
    .unwrap();
    for root in [&plain, &spaced] {
        assert_eq!(tag(root), "div");
        match &root.node_type {
            NodeType::Element(e) => {
                assert_eq!(e.attributes.len(), 2);
                assert_eq!(e.attributes.get("id").unwrap(), "a");
                assert_eq!(e.attributes.get("class").unwrap(), "b c");
            }
            NodeType::Text(_) => panic!("not an element"),
        }
        assert_eq!(root.children.len(), 3);
        assert_eq!(tag(&root.children[0]), "p");
        assert_eq!(text_of(&root.children[0].children[0]), "x y ");
        assert_eq!(tag(&root.children[1]), "b");
        assert_eq!(root.children[1].children.len(), 0);
        assert_eq!(text_of(&root.children[2]), "t");
    }
}

#[test]
fn white_space_behind_a_text_belongs_to_it() {
    let root = html::parse("<p> a \n</p>".to_string()).unwrap();
    assert_eq!(root.children.len(), 1);
    assert_eq!(text_of(&root.children[0]), "a \n");
    let root = html::parse("<p>a\"b'c</p>".to_string()).unwrap();
    assert_eq!(text_of(&root.children[0]), "a\"b'c");
}

#[test]
fn a_value_may_hold_the_other_quotation_mark() {
    let root = html::parse("<a x='say \"hi\"' y=\"it's\"></a>".to_string()).unwrap();
    match &root.node_type {
        NodeType::Element(e) => {
            assert_eq!(e.attributes.get("x").unwrap(), "say \"hi\"");
            assert_eq!(e.attributes.get("y").unwrap(), "it's");
        }
        NodeType::Text(_) => panic!("not an element"),
    }
}

#[test]
fn an_attribute_may_follow_a_value_at_once() {
    let root = html::parse("<a x=\"1\"y='2'></a>".to_string()).unwrap();
    match &root.node_type {
        NodeType::Element(e) => {
            assert_eq!(e.attributes.len(), 2);
            assert_eq!(e.attributes.get("x").unwrap(), "1");
            assert_eq!(e.attributes.get("y").unwrap(), "2");
        }
        NodeType::Text(_) => panic!("not an element"),
    }
    // Behind the name of the element there must be white space.
    let err = html::parse("<a\"x\"></a>".to_string()).unwrap_err();
    assert_eq!(err, ParseError { kind: ParseErrorKind::UnexpectedCharacter, offset: 2 });
}
