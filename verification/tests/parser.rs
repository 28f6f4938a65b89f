use draco::{parse_args_opt, parse_doc, Arg, Expression, Node, Tag};

fn parse(input: &str) -> Vec<Arg> {
    parse_args_opt(input).unwrap()
}

#[test]
fn test_parse_args() {
    let arg_a = Arg {
        name: "a".to_string(),
        value: None,
    };

    let arg_b = Arg {
        name: "b".to_string(),
        value: Some(Expression::Str("lit".to_string())),
    };

    let arg_c = Arg {
        name: "c".to_string(),
        value: Some(Expression::Block("{true}".to_string(), false)),
    };

    assert_eq!(
        parse("a b=\"lit\" c={true}"),
        vec![arg_a.clone(), arg_b.clone(), arg_c.clone(),]
    );
    assert_eq!(
        parse("c={true} b=\"lit\" a"),
        vec![arg_c.clone(), arg_b.clone(), arg_a.clone(),]
    );
}

#[test]
fn test_parse_tag_selfclosing_no_args() {
    let ast = parse_doc(
        r#"
            <div />
        "#,
    )
    .unwrap();

    assert_eq!(
        ast,
        Node::Tag(Tag {
            name: "div".to_string(),
            args: Vec::new(),
            children: Vec::new(),
        })
    )
}

#[test]
fn test_parse_tag_selfclosing_with_args() {
    let ast = parse_doc(
        r#"
            <div bool lit="x" />
        "#,
    )
    .unwrap();

    assert_eq!(
        ast,
        Node::Tag(Tag {
            name: "div".to_string(),
            args: vec![
                Arg {
                    name: "bool".to_string(),
                    value: None,
                },
                Arg {
                    name: "lit".to_string(),
                    value: Some(Expression::Str("x".to_string())),
                }
            ],
            children: Vec::new(),
        })
    )
}

#[test]
fn test_parse_tag_empty_no_args() {
    let ast = parse_doc("<div></div>").unwrap();
    assert_eq!(
        ast,
        Node::Tag(Tag {
            name: "div".to_string(),
            args: vec![],
            children: Vec::new(),
        })
    );
}

#[test]
fn test_parse_tag_empty_with_args() {
    let ast = parse_doc("<div a={true} b></div>").unwrap();
    assert_eq!(
        ast,
        Node::Tag(Tag {
            name: "div".to_string(),
            args: vec![
                Arg {
                    name: "a".to_string(),
                    value: Some(Expression::Block("{true}".to_string(), false)),
                },
                Arg {
                    name: "b".to_string(),
                    value: None,
                }
            ],
            children: Vec::new(),
        })
    );
}

#[test]
fn test_parse_tag_with_children() {
    let ast = parse_doc(
        r#"
            <div a={true} b>
                "hello"
                <br />
                <ul>
                    <li>inner</li>
                    <li>#{multi}</li>
                </ul>
            </div>
        "#,
    )
    .unwrap();
    assert_eq!(
        ast,
        Node::Tag(Tag {
            name: "div".to_string(),
            args: vec![
                Arg {
                    name: "a".to_string(),
                    value: Some(Expression::Block("{true}".to_string(), false)),
                },
                Arg {
                    name: "b".to_string(),
                    value: None,
                }
            ],
            children: vec![
                Node::Expression(Expression::Str("hello".to_string())),
                Node::Tag(Tag {
                    name: "br".to_string(),
                    args: Vec::new(),
                    children: Vec::new(),
                }),
                Node::Tag(Tag {
                    name: "ul".to_string(),
                    args: Vec::new(),
                    children: vec![
                        Node::Tag(Tag {
                            name: "li".to_string(),
                            args: Vec::new(),
                            children: vec![Node::Expression(Expression::Str("inner".to_string()))],
                        }),
                        Node::Tag(Tag {
                            name: "li".to_string(),
                            args: Vec::new(),
                            children: vec![Node::Expression(Expression::Block(
                                "{multi}".to_string(),
                                true
                            ))],
                        })
                    ],
                })
            ],
        })
    );
}

#[test]
fn test_parse_empty_input_is_error() {
    assert!(parse_doc("").is_err());
    assert!(parse_doc("   \n  ").is_err());
}

#[test]
fn test_parse_unclosed_tag_is_error() {
    assert!(parse_doc("<div>").is_err());
    assert!(parse_doc("<div").is_err());
}

#[test]
fn test_parse_mismatched_closing_tag_is_error() {
    assert!(parse_doc("<div></span>").is_err());
}

#[test]
fn test_parse_unbalanced_block_is_error() {
    assert!(parse_doc("{a { b }").is_err());
}

#[test]
fn test_parse_nested_block_balances() {
    let ast = parse_doc("{a { b } c}").unwrap();
    assert_eq!(
        ast,
        Node::Expression(Expression::Block("{a { b } c}".to_string(), false))
    );
}

#[test]
fn test_parse_two_top_level_nodes_make_a_list() {
    let ast = parse_doc("<br /> <hr />").unwrap();
    assert_eq!(
        ast,
        Node::List(vec![
            Node::Tag(Tag {
                name: "br".to_string(),
                args: vec![],
                children: vec![],
            }),
            Node::Tag(Tag {
                name: "hr".to_string(),
                args: vec![],
                children: vec![],
            }),
        ])
    );
}

#[test]
fn test_parse_nodes_opt_requires_full_consumption() {
    let nodes = draco::parse_nodes_opt("<br /> \"x\"").unwrap();
    assert_eq!(nodes.len(), 2);
    assert!(draco::parse_nodes_opt("<br /> <").is_none());
}

#[test]
fn test_node_empty_is_empty_list() {
    assert_eq!(Node::empty(), Node::List(vec![]));
}
