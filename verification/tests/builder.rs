use draco::{build, parse_doc};

fn check(input: &str, expected_lines: &[&str]) {
    let node = parse_doc(input).unwrap();
    let output = build(node);
    let expected = expected_lines.join("\n");
    assert_eq!(output, expected);
}

#[test]
fn plain_str() {
    check("\"val\"", &["draco::Node::from(\"val\")"]);
}

#[test]
fn expr() {
    check("{true}", &["draco::Node::from({true})"]);
}

#[test]
fn tag_selfclosing_simple() {
    check("<div/>", &["{let mut node = draco::html::div();\nnode}"]);
}

#[test]
fn tag_simple() {
    check("<div></div>", &["{let mut node = draco::html::div();\nnode}"]);
}

#[test]
fn tag_with_attr_regular() {
    check(
        "<div name=\"name\"></div>",
        &[
            "{let mut node = draco::html::div();",
            "node = node.attr(\"name\",\"name\");",
            "node}",
        ],
    );
}

#[test]
fn tag_with_attr_novalue() {
    check(
        "<div disabled></div>",
        &[
            "{let mut node = draco::html::div();",
            "node = node.attr(\"disabled\",\"\");",
            "node}",
        ],
    );
}

#[test]
fn tag_with_attr_disabled_cond() {
    check(
        "<div disabled={true}></div>",
        &[
            "{let mut node = draco::html::div();",
            "if {true} { node = node.attr(\"disabled\",\"\")};",
            "node}",
        ],
    );
}

#[test]
fn tag_with_attr_oninput() {
    check(
        "<div oninput={true}></div>",
        &[
            "{let mut node = draco::html::div();",
            "node = node.on_input({true});",
            "node}",
        ],
    );
}

#[test]
fn tag_with_attr_onchecked() {
    check(
        "<div onchecked={true}></div>",
        &[
            "{let mut node = draco::html::div();",
            "node = node.on_checked({true});",
            "node}",
        ],
    );
}

#[test]
fn tag_with_attr_onevent() {
    check(
        "<div onclick={true}></div>",
        &[
            "{let mut node = draco::html::div();",
            "node = node.on(\"click\",{true});",
            "node}",
        ],
    );
}

#[test]
fn tag_with_child_str() {
    check(
        "<div>hello</div>",
        &[
            "{let mut node = draco::html::div();",
            "node.push(draco::Node::from(\"hello\"))",
            "}",
        ],
    );
}

#[test]
fn tag_with_child_block() {
    check(
        "<div>{true}</div>",
        &[
            "{let mut node = draco::html::div();",
            "node.push(draco::Node::from({true}))",
            "}",
        ],
    );
}

#[test]
fn tag_with_child_hashblock() {
    check(
        "<div>#{true}</div>",
        &[
            "{let mut node = draco::html::div();",
            "node.append({true})",
            "}",
        ],
    );
}

#[test]
fn tag_with_children() {
    check(
        "<div>hello <p>p</p></div>",
        &[
            "{let mut node = draco::html::div();",
            "node.push(draco::Node::from(\"hello\"))",
            ".push({let mut node = draco::html::p();\nnode.push(draco::Node::from(\"p\"))\n})",
            "}",
        ],
    );
}
