use style_engine::css;
use style_engine::css::{Color, Value};
use style_engine::dom::text;
use style_engine::html;
use style_engine::style::{style_tree, PropertyMap, StyledNode};

#[test]
fn test_style_tree_overwrite() {
    let html_source = String::from(r#"<p class="name">Hello</p>"#);

    let css_source = String::from(
        r#"
        p {
            color: #cccccc;
        }

        p.name {
            color: #cc0000;
        }
        "#,
    );
    let root = html::parse(html_source).unwrap();
    let css = css::parse(css_source).unwrap();

    let mut specified_values = PropertyMap::new();
    specified_values.insert(
        String::from("color"),
        Value::ColorValue(Color {
            r: 204,
            g: 0,
            b: 0,
            a: 255,
        }),
    );
    let text = text(String::from("Hello"));
    let expected = StyledNode {
        node: &root,
        specified_values,
        children: vec![StyledNode {
            node: &text,
            specified_values: PropertyMap::new(),
            children: vec![],
        }],
    };
    assert_eq!(expected, style_tree(&root, &css));
}
