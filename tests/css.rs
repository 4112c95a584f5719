use style_engine::css::{
    parse, Color, Declaration, Rule, Selector, SimpleSelector, Stylesheet, Unit, Value,
};

#[test]
fn test_parse_id() {
    let source = String::from(
        "
        #foo {
            display: inline;
        }
        ",
    );

    let expected = Stylesheet {
        rules: vec![Rule {
            selectors: vec![Selector::Simple(SimpleSelector {
                class: vec![],
                id: Some(String::from("foo")),
                tag_name: None,
            })],
            declarations: vec![Declaration {
                name: String::from("display"),
                value: Value::Keyword(String::from("inline")),
            }],
        }],
    };
    assert_eq!(Ok(expected), parse(source));
}

#[test]
fn test_parse_multiple_selectors() {
    let source = String::from(
        r#"
        foo, bar {
            display: inline;
        }
        "#,
    );

    let expected = Stylesheet {
        rules: vec![Rule {
            selectors: vec![
                Selector::Simple(SimpleSelector {
                    class: vec![],
                    id: None,
                    tag_name: Some(String::from("foo")),
                }),
                Selector::Simple(SimpleSelector {
                    class: vec![],
                    id: None,
                    tag_name: Some(String::from("bar")),
                }),
            ],
            declarations: vec![Declaration {
                name: String::from("display"),
                value: Value::Keyword(String::from("inline")),
            }],
        }],
    };
    assert_eq!(Ok(expected), parse(source));
}

#[test]
fn test_parse_multiple_declarations() {
    let source = String::from(
        r#"
        html {
            width: 600px;
            padding: 10px;
            border-width: 1px;
            margin: auto;
            background: #aabbcc;
        }
        "#,
    );

    let expected = Stylesheet {
        rules: vec![Rule {
            selectors: vec![Selector::Simple(SimpleSelector {
                class: vec![],
                id: None,
                tag_name: Some(String::from("html")),
            })],
            declarations: vec![
                Declaration {
                    name: String::from("width"),
                    value: Value::Length(String::from("600"), Unit::Px),
                },
                Declaration {
                    name: String::from("padding"),
                    value: Value::Length(String::from("10"), Unit::Px),
                },
                Declaration {
                    name: String::from("border-width"),
                    value: Value::Length(String::from("1"), Unit::Px),
                },
                Declaration {
                    name: String::from("margin"),
                    value: Value::Keyword(String::from("auto")),
                },
                Declaration {
                    name: String::from("background"),
                    value: Value::ColorValue(Color {
                        r: 170,
                        g: 187,
                        b: 204,
                        a: 255,
                    }),
                },
            ],
        }],
    };
    assert_eq!(Ok(expected), parse(source));
}

#[test]
fn test_parse_multiple_rules() {
    let source = String::from(
        r#"
        h1, h2, h3 {
          margin: auto;
          color: #cc0000;
        }
        div.note {
          margin-bottom: 20px;
          padding: 10px;
        }
        "#,
    );

    let expected = Stylesheet {
        rules: vec![
            Rule {
                selectors: vec![
                    Selector::Simple(SimpleSelector {
                        class: vec![],
                        id: None,
                        tag_name: Some(String::from("h1")),
                    }),
                    Selector::Simple(SimpleSelector {
                        class: vec![],
                        id: None,
                        tag_name: Some(String::from("h2")),
                    }),
                    Selector::Simple(SimpleSelector {
                        class: vec![],
                        id: None,
                        tag_name: Some(String::from("h3")),
                    }),
                ],
                declarations: vec![
                    Declaration {
                        name: String::from("margin"),
                        value: Value::Keyword(String::from("auto")),
                    },
                    Declaration {
                        name: String::from("color"),
                        value: Value::ColorValue(Color {
                            r: 204,
                            g: 0,
                            b: 0,
                            a: 255,
                        }),
                    },
                ],
            },
            Rule {
                selectors: vec![Selector::Simple(SimpleSelector {
                    class: vec![String::from("note")],
                    id: None,
                    tag_name: Some(String::from("div")),
                })],
                declarations: vec![
                    Declaration {
                        name: String::from("margin-bottom"),
                        value: Value::Length(String::from("20"), Unit::Px),
                    },
                    Declaration {
                        name: String::from("padding"),
                        value: Value::Length(String::from("10"), Unit::Px),
                    },
                ],
            },
        ],
    };
    assert_eq!(Ok(expected), parse(source));
}
