use draco::{build, parse_doc};

#[test]
fn div_nested_block_list() {
    let node = parse_doc(
        r#"
        <div>
            #{items}
        </div>
    "#,
    )
    .unwrap();
    let code = build(node);
    assert_eq!(
        code,
        "{let mut node = draco::html::div();\nnode.append({items})\n}"
    );
}
