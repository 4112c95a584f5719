use style_engine::dom::{elem, text, AttrMap};
use style_engine::html::parse;

#[test]
fn test0() {
    assert_eq!(1, 1);
}

#[test]
fn test1() {
    let source = String::from(
        r#"
<html>
    <h1>hello</h1>
</html>
"#,
    );
    let expected = elem(
        String::from("html"),
        AttrMap::new(),
        vec![elem(
            String::from("h1"),
            AttrMap::new(),
            vec![text(String::from("hello"))],
        )],
    );

    assert_eq!(Ok(expected), parse(source));
}

#[test]
fn test2() {
    let source = String::from(
        r#"
<html>
    <body>
        <h1>Title</h1>
        <div id="main" class="test">
            <p>Hello<em>world</em>!</p>
        </div>
    </body>
</html>
"#,
    );
    let mut div_attrs = AttrMap::new();
    div_attrs.insert(String::from("id"), String::from("main"));
    div_attrs.insert(String::from("class"), String::from("test"));
    let expected = elem(
        String::from("html"),
        AttrMap::new(),
        vec![elem(
            String::from("body"),
            AttrMap::new(),
            vec![
                elem(
                    String::from("h1"),
                    AttrMap::new(),
                    vec![text(String::from("Title"))],
                ),
                elem(
                    String::from("div"),
                    div_attrs,
                    vec![elem(
                        String::from("p"),
                        AttrMap::new(),
                        vec![
                            text(String::from("Hello")),
                            elem(
                                String::from("em"),
                                AttrMap::new(),
                                vec![text(String::from("world"))],
                            ),
                            text(String::from("!")),
                        ],
                    )],
                ),
            ],
        )],
    );

    assert_eq!(Ok(expected), parse(source));
}
