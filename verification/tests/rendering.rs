use markup::ast::Literal;
use markup::html::{HtmlNode, HtmlNodeTag};
use markup::parser::Parser;
use markup::plugin::{transform_nodes, HtmlTransformer, Transformer};

fn b(s: &str) -> Vec<u8> {
    s.as_bytes().to_vec()
}

#[test]
fn to_string() {
    let mut node = HtmlNodeTag {
        name: b("div"),
        attributes: Vec::new(),
        children: vec![],
    };
    node.add_attribute(b("class"), b("p-4 flex"))
        .add_children(HtmlNode::Tag(HtmlNodeTag {
            name: b("p"),
            attributes: Vec::new(),
            children: vec![HtmlNode::String(b("contents"))],
        }));
    let node = HtmlNode::Tag(node);
    assert_eq!(node.render(), b(r#"<div class="p-4 flex"><p>contents</p></div>"#));
}

#[test]
fn add_attribute_replaces_existing_name() {
    let mut node = HtmlNodeTag {
        name: b("div"),
        attributes: Vec::new(),
        children: vec![],
    };
    node.add_attribute(b("class"), b("old"));
    node.add_attribute(b("class"), b("new"));
    assert_eq!(node.attributes.len(), 1);
    let node = HtmlNode::Tag(node);
    assert_eq!(node.render(), b(r#"<div class="new"></div>"#));
}

#[test]
fn two_attributes_join_with_a_space() {
    let mut node = HtmlNodeTag {
        name: b("div"),
        attributes: Vec::new(),
        children: vec![],
    };
    node.add_attribute(b("a"), b("1"));
    node.add_attribute(b("b"), b("2"));
    let node = HtmlNode::Tag(node);
    assert_eq!(node.render(), b(r#"<div a="1" b="2"></div>"#));
}

#[test]
fn html_transform_escapes_text_content() {
    let source = r#"div { "a<b&c" }"#;
    let ast = Parser::new().parse(source.as_bytes()).unwrap();
    let rendered = transform_nodes(&ast);
    assert_eq!(rendered, b("<div>a&lt;b&amp;c</div>"));
}

#[test]
fn html_transform_generic_elements() {
    let source = r#"div { div {"item1"} div {"item2"} }"#;
    let ast = Parser::new().parse(source.as_bytes()).unwrap();
    let rendered = HtmlTransformer.transform(&ast);
    assert_eq!(rendered, b("<div><div>item1</div><div>item2</div></div>"));
}

#[test]
fn html_transform_code_block_dedents() {
    let source = "code-block {\n\"    first line\n    second line\"\n}";
    let ast = Parser::new().parse(source.as_bytes()).unwrap();
    let rendered = transform_nodes(&ast);
    assert_eq!(
        rendered,
        b("<pre><code>first line\nsecond line</code></pre>")
    );
}

#[test]
fn literal_number_text() {
    assert_eq!(Literal::Number(123).render(), b("123"));
    assert_eq!(Literal::Number(0).render(), b("0"));
}

#[test]
fn literal_range_text() {
    let closed = Literal::Range {
        start: 1,
        end: Some(10),
    };
    assert_eq!(closed.render(), b("1..10"));
    let open = Literal::Range {
        start: 1,
        end: None,
    };
    assert_eq!(open.render(), b("1.."));
}

#[test]
fn literal_string_text() {
    assert_eq!(Literal::String(b("plain text")).render(), b("plain text"));
}

#[test]
fn literal_list_text() {
    let list = Literal::List(vec![
        Literal::Number(1),
        Literal::Range {
            start: 1,
            end: Some(3),
        },
        Literal::List(vec![Literal::String(b("x"))]),
    ]);
    assert_eq!(list.render(), b("[1,1..3,[x]]"));
    assert_eq!(Literal::List(vec![]).render(), b("[]"));
}
