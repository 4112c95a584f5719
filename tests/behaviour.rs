use style_engine::css::{self, specificity_less, Color, Selector, SimpleSelector, Unit, Value};
use style_engine::dom::{elem, text, AttrMap, ElementData, NodeType};
use style_engine::html;
use style_engine::style::{matches_simple_selector, style_tree, Display};
use style_engine::ParseError;

fn element(tag: &str, attrs: &[(&str, &str)]) -> ElementData {
    let mut map = AttrMap::new();
    for (k, v) in attrs {
        map.insert(k.to_string(), v.to_string());
    }
    ElementData { tag_name: tag.to_string(), attributes: map }
}

fn simple(tag: Option<&str>, id: Option<&str>, class: &[&str]) -> SimpleSelector {
    SimpleSelector {
        tag_name: tag.map(|t| t.to_string()),
        id: id.map(|t| t.to_string()),
        class: class.iter().map(|c| c.to_string()).collect(),
    }
}

#[test]
fn specificity_of_id_class_and_tag_selectors() {
    let a = Selector::Simple(simple(None, Some("x"), &[]));
    let b = Selector::Simple(simple(None, None, &["c"]));
    let c = Selector::Simple(simple(Some("p"), None, &[]));
    assert_eq!(a.specificity(), (1, 0, 0));
    assert_eq!(b.specificity(), (0, 1, 0));
    assert_eq!(c.specificity(), (0, 0, 1));
    assert!(specificity_less(b.specificity(), a.specificity()));
    assert!(specificity_less(c.specificity(), b.specificity()));
    assert!(!specificity_less(a.specificity(), a.specificity()));
    let full = Selector::Simple(simple(Some("div"), Some("m"), &["a", "b"]));
    assert_eq!(full.specificity(), (1, 2, 1));
}

#[test]
fn selector_list_is_sorted_most_specific_first() {
    let sheet = css::parse(String::from("p, .c, #x { a: b; }")).unwrap();
    let sels = &sheet.rules[0].selectors;
    assert_eq!(sels.len(), 3);
    assert_eq!(sels[0], Selector::Simple(simple(None, Some("x"), &[])));
    assert_eq!(sels[1], Selector::Simple(simple(None, None, &["c"])));
    assert_eq!(sels[2], Selector::Simple(simple(Some("p"), None, &[])));
}

#[test]
fn equal_specificity_keeps_source_order() {
    let sheet = css::parse(String::from("b, a, c.x, d { k: v; }")).unwrap();
    let sels = &sheet.rules[0].selectors;
    assert_eq!(sels[0], Selector::Simple(simple(Some("c"), None, &["x"])));
    assert_eq!(sels[1], Selector::Simple(simple(Some("b"), None, &[])));
    assert_eq!(sels[2], Selector::Simple(simple(Some("a"), None, &[])));
    assert_eq!(sels[3], Selector::Simple(simple(Some("d"), None, &[])));
}

#[test]
fn universal_selector_adds_nothing() {
    let sheet = css::parse(String::from("*.note { k: v; }")).unwrap();
    assert_eq!(
        sheet.rules[0].selectors[0],
        Selector::Simple(simple(None, None, &["note"]))
    );
    assert_eq!(sheet.rules[0].selectors[0].specificity(), (0, 1, 0));
}

#[test]
fn selector_matching_each_component() {
    let e = element("div", &[("id", "main"), ("class", "a b")]);
    assert!(matches_simple_selector(&e, &simple(None, None, &[])));
    assert!(matches_simple_selector(&e, &simple(Some("div"), Some("main"), &["a", "b"])));
    assert!(!matches_simple_selector(&e, &simple(Some("p"), None, &[])));
    assert!(!matches_simple_selector(&e, &simple(None, Some("other"), &[])));
    assert!(!matches_simple_selector(&e, &simple(None, None, &["a", "c"])));
    let bare = element("div", &[]);
    assert!(!matches_simple_selector(&bare, &simple(None, Some("main"), &[])));
    assert!(!matches_simple_selector(&bare, &simple(None, None, &["a"])));
    assert!(style_engine::style::matches(&bare, &Selector::Simple(simple(Some("div"), None, &[]))));
}

#[test]
fn element_id_and_classes() {
    let e = element("div", &[("id", "main"), ("class", "a  b")]);
    assert_eq!(e.id(), Some(&String::from("main")));
    assert_eq!(
        e.classes(),
        vec![String::from("a"), String::from(""), String::from("b")]
    );
    let bare = element("div", &[]);
    assert_eq!(bare.id(), None);
    assert!(bare.classes().is_empty());
    let empty = element("div", &[("class", "")]);
    assert_eq!(empty.classes(), vec![String::from("")]);
}

#[test]
fn attribute_insert_replaces_earlier_value() {
    let mut m = AttrMap::new();
    m.insert(String::from("k"), String::from("1"));
    m.insert(String::from("j"), String::from("2"));
    m.insert(String::from("k"), String::from("3"));
    assert_eq!(m.len(), 2);
    assert_eq!(m.get(&String::from("k")), Some(&String::from("3")));
    assert_eq!(m.get(&String::from("j")), Some(&String::from("2")));
    assert_eq!(m.get(&String::from("x")), None);
}

#[test]
fn duplicate_attribute_keeps_last_value() {
    let root = html::parse(String::from("<a x='1' x=\"2\"></a>")).unwrap();
    match &root.node_type {
        NodeType::Element(e) => {
            assert_eq!(e.attributes.len(), 1);
            assert_eq!(e.attributes.get(&String::from("x")), Some(&String::from("2")));
        }
        NodeType::Text(_) => panic!("expected an element"),
    }
}

#[test]
fn cascade_specificity_beats_source_order() {
    let root = html::parse(String::from("<p class=\"name\">Hello</p>")).unwrap();
    let sheet = css::parse(String::from(
        "p.name { color: #cc0000; } p { color: #cccccc; margin: auto; }",
    ))
    .unwrap();
    let styled = style_tree(&root, &sheet);
    assert_eq!(
        styled.value("color"),
        Some(Value::ColorValue(Color { r: 204, g: 0, b: 0, a: 255 }))
    );
    assert_eq!(styled.value("margin"), Some(Value::Keyword(String::from("auto"))));
    assert_eq!(styled.value("padding"), None);
}

#[test]
fn cascade_later_rule_wins_among_equals() {
    let root = html::parse(String::from("<p></p>")).unwrap();
    let sheet = css::parse(String::from("p { color: red; } p { color: blue; }")).unwrap();
    let styled = style_tree(&root, &sheet);
    assert_eq!(styled.value("color"), Some(Value::Keyword(String::from("blue"))));
}

#[test]
fn cascade_uses_most_specific_matching_selector_of_a_rule() {
    let root = html::parse(String::from("<p id=\"x\"></p>")).unwrap();
    let sheet = css::parse(String::from("p, #x { color: a; } .c, p.d, #x { color: b; }"))
        .unwrap();
    let styled = style_tree(&root, &sheet);
    assert_eq!(styled.value("color"), Some(Value::Keyword(String::from("b"))));
}

#[test]
fn styled_tree_mirrors_document_tree() {
    let root = html::parse(String::from(
        "<div><p>a</p><p>b<em>c</em></p>text</div>",
    ))
    .unwrap();
    let sheet = css::parse(String::from("p { display: block; }")).unwrap();
    let styled = style_tree(&root, &sheet);
    assert_eq!(styled.children.len(), 3);
    assert_eq!(styled.children[0].children.len(), 1);
    assert_eq!(styled.children[1].children.len(), 2);
    assert_eq!(styled.children[1].children[1].children.len(), 1);
    assert_eq!(styled.children[2].children.len(), 0);
    assert!(std::ptr::eq(styled.node, &root));
    assert!(std::ptr::eq(styled.children[1].node, &root.children[1]));
    assert_eq!(styled.children[0].display(), Display::Block);
    assert_eq!(styled.display(), Display::Inline);
    assert_eq!(styled.children[2].value("display"), None);
}

#[test]
fn root_wrapping() {
    let one = html::parse(String::from("<p>x</p>")).unwrap();
    assert_eq!(
        one,
        elem(String::from("p"), AttrMap::new(), vec![text(String::from("x"))])
    );
    let two = html::parse(String::from("<p></p><q></q>")).unwrap();
    assert_eq!(
        two,
        elem(
            String::from("html"),
            AttrMap::new(),
            vec![
                elem(String::from("p"), AttrMap::new(), vec![]),
                elem(String::from("q"), AttrMap::new(), vec![]),
            ]
        )
    );
    let none = html::parse(String::from("   ")).unwrap();
    assert_eq!(none, elem(String::from("html"), AttrMap::new(), vec![]));
    let lone_text = html::parse(String::from("hi")).unwrap();
    assert_eq!(lone_text, text(String::from("hi")));
}

#[test]
fn id_rule_parses_alone() {
    let sheet = css::parse(String::from("#foo { display: inline; }")).unwrap();
    assert_eq!(sheet.rules.len(), 1);
    assert_eq!(
        sheet.rules[0].selectors,
        vec![Selector::Simple(simple(None, Some("foo"), &[]))]
    );
    assert_eq!(sheet.rules[0].declarations.len(), 1);
    assert_eq!(sheet.rules[0].declarations[0].name, "display");
    assert_eq!(
        sheet.rules[0].declarations[0].value,
        Value::Keyword(String::from("inline"))
    );
}

#[test]
fn two_tag_selectors_apply_to_both_tags() {
    let sheet = css::parse(String::from("foo, bar { display: inline; }")).unwrap();
    assert_eq!(sheet.rules[0].selectors[0].specificity(), (0, 0, 1));
    assert_eq!(sheet.rules[0].selectors[1].specificity(), (0, 0, 1));
    let root = html::parse(String::from("<foo></foo><bar></bar><baz></baz>")).unwrap();
    let styled = style_tree(&root, &sheet);
    let inline = Some(Value::Keyword(String::from("inline")));
    assert_eq!(styled.children[0].value("display"), inline);
    assert_eq!(styled.children[1].value("display"), inline);
    assert_eq!(styled.children[2].value("display"), None);
}

#[test]
fn color_values() {
    let sheet = css::parse(String::from("a { x: #aabbcc; y: #cc0000; z: #0F0f09; }")).unwrap();
    let d = &sheet.rules[0].declarations;
    assert_eq!(d[0].value, Value::ColorValue(Color { r: 170, g: 187, b: 204, a: 255 }));
    assert_eq!(d[1].value, Value::ColorValue(Color { r: 204, g: 0, b: 0, a: 255 }));
    assert_eq!(d[2].value, Value::ColorValue(Color { r: 15, g: 15, b: 9, a: 255 }));
}

#[test]
fn length_values_and_unit_case() {
    let sheet = css::parse(String::from("a { w: 600px; h: 600PX; d: 1.5Px; }")).unwrap();
    let d = &sheet.rules[0].declarations;
    assert_eq!(d[0].value, Value::Length(String::from("600"), Unit::Px));
    assert_eq!(d[1].value, Value::Length(String::from("600"), Unit::Px));
    assert_eq!(d[2].value, Value::Length(String::from("1.5"), Unit::Px));
}

#[test]
fn markup_errors() {
    assert_eq!(html::parse(String::from("<a></b>")), Err(ParseError::TagMismatch));
    assert_eq!(html::parse(String::from("<a>")), Err(ParseError::UnexpectedEnd));
    assert_eq!(html::parse(String::from("<a x=\"1'></a>")), Err(ParseError::UnexpectedEnd));
    assert_eq!(html::parse(String::from("<a x 1></a>")), Err(ParseError::UnexpectedChar));
    assert_eq!(html::parse(String::from("<a x=1></a>")), Err(ParseError::UnexpectedChar));
    assert_eq!(html::parse(String::from("<a></a")), Err(ParseError::UnexpectedEnd));
    assert_eq!(html::parse(String::from("<a x='1'")), Err(ParseError::UnexpectedEnd));
}

#[test]
fn style_errors() {
    assert_eq!(css::parse(String::from("a { w: 1pt; }")), Err(ParseError::UnknownUnit));
    assert_eq!(css::parse(String::from("a { w: 1; }")), Err(ParseError::UnknownUnit));
    assert_eq!(css::parse(String::from("a { c: #zz0000; }")), Err(ParseError::MalformedHex));
    assert_eq!(css::parse(String::from("a { c: #cc00")), Err(ParseError::UnexpectedEnd));
    assert_eq!(css::parse(String::from("a { w: 1.2.3px; }")), Err(ParseError::MalformedNumber));
    assert_eq!(css::parse(String::from("a { w 1px; }")), Err(ParseError::UnexpectedChar));
    assert_eq!(css::parse(String::from("a { w: 1px }")), Err(ParseError::UnexpectedChar));
    assert_eq!(css::parse(String::from("a > b { w: 1px; }")), Err(ParseError::UnexpectedChar));
    assert_eq!(css::parse(String::from("a { w: 1px;")), Err(ParseError::UnexpectedEnd));
    assert_eq!(css::parse(String::from("a")), Err(ParseError::UnexpectedEnd));
}

#[test]
fn empty_style_sheet() {
    let sheet = css::parse(String::from("  \n ")).unwrap();
    assert!(sheet.rules.is_empty());
}

#[test]
fn lookup_falls_back() {
    let root = html::parse(String::from("<p></p>")).unwrap();
    let sheet = css::parse(String::from("p { margin: 2px; display: none; }")).unwrap();
    let styled = style_tree(&root, &sheet);
    let zero = Value::Length(String::from("0"), Unit::Px);
    assert_eq!(
        styled.lookup("margin-left", "margin", &zero),
        Value::Length(String::from("2"), Unit::Px)
    );
    assert_eq!(styled.lookup("padding-left", "padding", &zero), zero);
    assert_eq!(styled.display(), Display::Hidden);
}

#[test]
fn identifier_characters() {
    assert!(css::valid_identifier_char('a'));
    assert!(css::valid_identifier_char('Z'));
    assert!(css::valid_identifier_char('7'));
    assert!(css::valid_identifier_char('-'));
    assert!(css::valid_identifier_char('_'));
    assert!(!css::valid_identifier_char('.'));
    assert!(!css::valid_identifier_char(' '));
}

#[test]
fn text_is_kept_verbatim_and_unicode_names_parse() {
    let root = html::parse(String::from("<p>a &amp; b</p>")).unwrap();
    assert_eq!(root.children[0], text(String::from("a &amp; b")));
    let root = html::parse(String::from("<é>ü</é>")).unwrap();
    assert_eq!(root, elem(String::from("é"), AttrMap::new(), vec![text(String::from("ü"))]));
}

#[test]
fn attribute_order_does_not_matter_for_equality() {
    let a = html::parse(String::from("<div id=\"m\" class=\"c\"></div>")).unwrap();
    let b = html::parse(String::from("<div class=\"c\" id=\"m\"></div>")).unwrap();
    assert_eq!(a, b);
    let c = html::parse(String::from("<div class=\"c\" id=\"n\"></div>")).unwrap();
    assert_ne!(a, c);
    let d = html::parse(String::from("<div class=\"c\"></div>")).unwrap();
    assert_ne!(a, d);
}

#[test]
fn white_space_agrees_with_the_standard_library() {
    for u in 0u32..0x3100 {
        if let Some(c) = char::from_u32(u) {
            assert_eq!(style_engine::chars::is_whitespace(c), c.is_whitespace(), "{:x}", u);
        }
    }
}
