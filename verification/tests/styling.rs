use toy_engine::assoc::StrMap;
use toy_engine::css::{self, Selector, SimpleSelector, Unit, Value};
use toy_engine::dom::{self, AttrMap, ElementData, NodeType};
use toy_engine::html;
use toy_engine::style::{matches_simple_selector, specified_values, style_tree, Display};

fn element(tag: &str, attrs: &[(&str, &str)]) -> ElementData {
    let mut attributes: AttrMap = StrMap::new();
    for (k, v) in attrs {
        attributes.insert(k.to_string(), v.to_string());
    }
    ElementData { tag_name: tag.to_string(), attributes }
}

fn selector(tag: Option<&str>, id: Option<&str>, class: &[&str]) -> SimpleSelector {
    SimpleSelector {
        tag_name: tag.map(|s| s.to_string()),
        id: id.map(|s| s.to_string()),
        class: class.iter().map(|s| s.to_string()).collect(),
    }
}

#[test]
fn most_specific_rule_wins() {
    let sheet = css::parse(
        "* { color: #000000 } div#x.y { color: #ff0000 } div { color: #00ff00 }".replace("}", ";}"),
    )
    .unwrap();
    let elem = element("div", &[("id", "x"), ("class", "y")]);
    let values = specified_values(&elem, &sheet);
    assert_eq!(values.get("color"), Some(&Value::Color(255, 0, 0, 255)));
    assert_eq!(values.len(), 1);
}

#[test]
fn later_rule_wins_among_equally_specific_ones() {
    let sheet = css::parse("p { a: 1px; b: 1px; } p { a: 2px; } .k { a: 3px; } p { c: 4px; }".to_string()).unwrap();
    let elem = element("p", &[]);
    let values = specified_values(&elem, &sheet);
    assert_eq!(values.get("a"), Some(&Value::Length(2000, Unit::Px)));
    assert_eq!(values.get("b"), Some(&Value::Length(1000, Unit::Px)));
    assert_eq!(values.get("c"), Some(&Value::Length(4000, Unit::Px)));
    assert_eq!(values.get("d"), None);
}

#[test]
fn later_declaration_wins_within_a_rule() {
    let sheet = css::parse("p { a: 1px; a: 2px; }".to_string()).unwrap();
    let values = specified_values(&element("p", &[]), &sheet);
    assert_eq!(values.get("a"), Some(&Value::Length(2000, Unit::Px)));
}

#[test]
fn rule_counts_with_its_most_specific_matching_selector() {
    // The first rule matches through `p.k`, which outranks `p` and `.k`.
    let sheet = css::parse("p.k, span { a: 1px; } .k { a: 2px; } p { a: 3px; }".to_string()).unwrap();
    let values = specified_values(&element("p", &[("class", "k")]), &sheet);
    assert_eq!(values.get("a"), Some(&Value::Length(1000, Unit::Px)));
}

#[test]
fn tag_id_and_class_must_all_match() {
    let elem = element("div", &[("id", "x"), ("class", "a b")]);
    assert!(matches_simple_selector(&elem, &selector(None, None, &[])));
    assert!(matches_simple_selector(&elem, &selector(Some("div"), None, &[])));
    assert!(!matches_simple_selector(&elem, &selector(Some("p"), None, &[])));
    assert!(matches_simple_selector(&elem, &selector(None, Some("x"), &[])));
    assert!(!matches_simple_selector(&elem, &selector(None, Some("y"), &[])));
    assert!(matches_simple_selector(&elem, &selector(None, None, &["a"])));
    assert!(matches_simple_selector(&elem, &selector(None, None, &["b", "a"])));
    assert!(!matches_simple_selector(&elem, &selector(None, None, &["a", "c"])));
    assert!(matches_simple_selector(&elem, &selector(Some("div"), Some("x"), &["a", "b"])));
    assert!(toy_engine::style::matches(
        &elem,
        &Selector::Simple(selector(Some("div"), Some("x"), &["b"]))
    ));
}

#[test]
fn id_selector_needs_an_id_attribute() {
    let elem = element("div", &[]);
    assert!(!matches_simple_selector(&elem, &selector(None, Some("x"), &[])));
}

#[test]
fn class_order_does_not_matter() {
    let one = element("p", &[("class", "a b c")]);
    let other = element("p", &[("class", "c a b")]);
    for classes in [&["a"][..], &["b", "c"], &["c", "b", "a"], &["d"], &["a", "d"]] {
        let s = selector(None, None, classes);
        assert_eq!(matches_simple_selector(&one, &s), matches_simple_selector(&other, &s));
    }
}

#[test]
fn classes_are_the_pieces_between_spaces() {
    assert_eq!(element("p", &[]).classes(), Vec::<String>::new());
    assert_eq!(element("p", &[("class", "")]).classes(), vec!["".to_string()]);
    assert_eq!(
        element("p", &[("class", "a  b ")]).classes(),
        vec!["a".to_string(), "".to_string(), "b".to_string()]
    );
}

#[test]
fn a_class_named_twice_counts_once() {
    assert_eq!(
        element("p", &[("class", "a b a c b")]).classes(),
        vec!["a".to_string(), "b".to_string(), "c".to_string()]
    );
    assert_eq!(element("p", &[("class", "x x x")]).classes(), vec!["x".to_string()]);
}

#[test]
fn styled_tree_mirrors_the_document() {
    let root = html::parse("<div id=\"m\"><p>one</p>two<p>three</p></div>".to_string()).unwrap();
    let sheet = css::parse("div { display: block; } p { display: none; margin: auto; }".to_string()).unwrap();
    let styled = style_tree(&root, &sheet);
    assert_eq!(styled.children.len(), 3);
    assert_eq!(styled.display(), Display::Block);
    assert_eq!(styled.children[0].display(), Display::DisplayNone);
    assert_eq!(styled.children[1].display(), Display::Inline);
    assert_eq!(styled.children[1].specified_values.len(), 0);
    assert_eq!(styled.children[0].children.len(), 1);
    assert!(matches!(styled.children[1].node.node_type, NodeType::Text(_)));
    assert_eq!(styled.value("display"), Some(Value::Keyword("block".to_string())));
    assert_eq!(styled.value("margin"), None);
    let zero = Value::Length(0, Unit::Px);
    let p = &styled.children[0];
    assert_eq!(p.lookup("margin-left", "margin", &zero), Value::Keyword("auto".to_string()));
    assert_eq!(p.lookup("padding-left", "padding", &zero), zero);
    assert_eq!(p.lookup("display", "margin", &zero), Value::Keyword("none".to_string()));
}

#[test]
fn display_defaults_to_inline() {
    let root = html::parse("<a></a>".to_string()).unwrap();
    for (css_text, expected) in [
        ("", Display::Inline),
        ("a { display: block; }", Display::Block),
        ("a { display: none; }", Display::DisplayNone),
        ("a { display: inline; }", Display::Inline),
        ("a { display: flex; }", Display::Inline),
        ("a { display: 1px; }", Display::Inline),
    ] {
        let sheet = css::parse(css_text.to_string()).unwrap();
        assert_eq!(style_tree(&root, &sheet).display(), expected);
    }
}

#[test]
fn constructors_build_nodes() {
    let t = dom::text("hi".to_string());
    assert!(matches!(&t.node_type, NodeType::Text(s) if s == "hi"));
    assert_eq!(t.children.len(), 0);
    let mut attrs: AttrMap = StrMap::new();
    attrs.insert("id".to_string(), "x".to_string());
    let e = dom::elem("p".to_string(), attrs, vec![t]);
    assert_eq!(e.children.len(), 1);
    match &e.node_type {
        NodeType::Element(d) => {
            assert_eq!(d.tag_name, "p");
            assert_eq!(d.id().unwrap(), "x");
            assert!(d.attributes.contains_key("id"));
            assert!(!d.attributes.contains_key("class"));
        }
        NodeType::Text(_) => panic!("not an element"),
    }
}
