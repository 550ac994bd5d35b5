use asciidoctrine::cst::{Pair, Rule};
use asciidoctrine::{
    AsciidocParser, AsciidocReader, AttributeValue, BlockType, Element, Env, Opts, AST,
};

fn at(rule: Rule, src: &str, part: &str, inner: Vec<Pair>) -> Pair {
    let start = src.find(part).unwrap();
    Pair { rule, start, end: start + part.len(), inner }
}

fn atx(src: &str, marker: &str, name: &str) -> Pair {
    let whole = format!("{}{}", marker, name);
    let title = at(
        Rule::Title,
        src,
        &whole,
        vec![
            Pair { rule: Rule::AtxTitleStyle, start: src.find(&whole).unwrap(), end: src.find(&whole).unwrap() + marker.len(), inner: vec![] },
            at(Rule::Line, src, name, vec![]),
        ],
    );
    at(Rule::Block, src, &whole, vec![at(Rule::TitleBlock, src, &whole, vec![title])])
}

fn setext(src: &str, name: &str, underline: &str) -> Pair {
    let whole = format!("{}\n{}", name, underline);
    let title = at(
        Rule::Title,
        src,
        &whole,
        vec![at(Rule::Line, src, name, vec![]), at(Rule::SetextTitleStyle, src, underline, vec![])],
    );
    at(Rule::Block, src, &whole, vec![at(Rule::TitleBlock, src, &whole, vec![title])])
}

fn end(src: &str) -> Pair {
    Pair::leaf(Rule::EOI, src.len(), src.len())
}

fn paragraph_document(text: &str) -> Vec<Pair> {
    vec![
        at(
            Rule::Block,
            text,
            text,
            vec![at(Rule::Paragraph, text, text, vec![at(Rule::OtherInline, text, text, vec![])])],
        ),
        end(text),
    ]
}

fn read<'a>(src: &'a str, roots: Vec<Pair>, parser: &mut AsciidocParser) -> AST<'a> {
    assert!(parser.record(Rule::Asciidoc, src, Ok(roots)));
    AsciidocReader::new().parse(src, &Opts::new(), parser, &Env::new()).unwrap()
}

fn collapsible(src: &str, option: &str, inner: &str) -> Vec<Pair> {
    let list = format!("[{}]\n", option);
    let fenced = format!("====\n{}\n====", inner);
    let whole = format!("{}{}", list, fenced);
    vec![
        at(
            Rule::Block,
            src,
            &whole,
            vec![at(
                Rule::DelimitedBlock,
                src,
                &whole,
                vec![
                    at(
                        Rule::AttributeList,
                        src,
                        &list,
                        vec![at(
                            Rule::InlineAttributeList,
                            src,
                            option,
                            vec![at(
                                Rule::Attribute,
                                src,
                                option,
                                vec![at(Rule::AttributeValue, src, option, vec![])],
                            )],
                        )],
                    ),
                    at(
                        Rule::DelimitedExample,
                        src,
                        &fenced,
                        vec![at(Rule::DelimitedInner, src, inner, vec![])],
                    ),
                ],
            )],
        ),
        end(src),
    ]
}

#[test]
fn a_collapsible_block_is_an_example_with_its_option() {
    let content = r#"
[%collapsible]
====
Additional Information, that will only be shown on demand.
====
"#;
    let inner = "Additional Information, that will only be shown on demand.";
    let mut parser = AsciidocParser::new();
    assert!(parser.record(Rule::Asciidoc, inner, Ok(paragraph_document(inner))));
    let ast = read(content, collapsible(content, "%collapsible", inner), &mut parser);
    assert_eq!(ast.elements.len(), 1);
    let block = &ast.elements[0];
    assert_eq!(block.element, Element::TypedBlock { kind: BlockType::Example });
    assert_eq!(block.positional_attributes, vec![AttributeValue::Ref("%collapsible")]);
    assert_eq!(block.get_attribute("content"), Some(inner));
    assert_eq!(block.children.len(), 1);
    assert_eq!(block.children[0].element, Element::Paragraph);
    assert_eq!(block.children[0].content, inner);
    assert_eq!((block.start_line, block.start_col), (2, 1));
}

#[test]
fn a_collapsible_block_may_be_open() {
    let content = r#"
[%collapsible%open]
====
This Information is visible by default.
====
"#;
    let inner = "This Information is visible by default.";
    let mut parser = AsciidocParser::new();
    assert!(parser.record(Rule::Asciidoc, inner, Ok(paragraph_document(inner))));
    let ast = read(content, collapsible(content, "%collapsible%open", inner), &mut parser);
    assert_eq!(ast.elements.len(), 1);
    let block = &ast.elements[0];
    assert_eq!(block.element, Element::TypedBlock { kind: BlockType::Example });
    assert_eq!(block.positional_attributes, vec![AttributeValue::Ref("%collapsible%open")]);
    assert_eq!(block.children.len(), 1);
    assert_eq!(block.children[0].content, inner);
}

#[test]
fn atx_headers_have_the_levels_of_their_markers() {
    let content = r#"
= This is a header

== This is a subheader

=== This is a subsubheader

==== This is a subsubsubheader
"#;
    let roots = vec![
        at(
            Rule::Header,
            content,
            "= This is a header",
            vec![at(
                Rule::Title,
                content,
                "= This is a header",
                vec![
                    at(Rule::AtxTitleStyle, content, "= ", vec![]),
                    at(Rule::Line, content, "This is a header", vec![]),
                ],
            )],
        ),
        atx(content, "== ", "This is a subheader"),
        atx(content, "=== ", "This is a subsubheader"),
        atx(content, "==== ", "This is a subsubsubheader"),
        end(content),
    ];
    let ast = read(content, roots, &mut AsciidocParser::new());
    let titles: Vec<(Element, Option<&str>)> =
        ast.elements.iter().map(|e| (e.element.duplicate(), e.get_attribute("name"))).collect();
    assert_eq!(
        titles,
        vec![
            (Element::Title { level: 1 }, Some("This is a header")),
            (Element::Title { level: 2 }, Some("This is a subheader")),
            (Element::Title { level: 3 }, Some("This is a subsubheader")),
            (Element::Title { level: 4 }, Some("This is a subsubsubheader")),
        ]
    );
    let lines: Vec<usize> = ast.elements.iter().map(|e| e.start_line).collect();
    assert_eq!(lines, vec![2, 4, 6, 8]);
}

#[test]
fn setext_headers_have_the_levels_of_their_underlines() {
    let content = r#"
This is a header
================

This is a subheader
-------------------

This is a subsubheader
~~~~~~~~~~~~~~~~~~~~~~

This is a subsubsubheader
^^^^^^^^^^^^^^^^^^^^^^^^^
"#;
    let roots = vec![
        setext(content, "This is a header", "================"),
        setext(content, "This is a subheader", "-------------------"),
        setext(content, "This is a subsubheader", "~~~~~~~~~~~~~~~~~~~~~~"),
        setext(content, "This is a subsubsubheader", "^^^^^^^^^^^^^^^^^^^^^^^^^"),
        end(content),
    ];
    let ast = read(content, roots, &mut AsciidocParser::new());
    let titles: Vec<(Element, Option<&str>)> =
        ast.elements.iter().map(|e| (e.element.duplicate(), e.get_attribute("name"))).collect();
    assert_eq!(
        titles,
        vec![
            (Element::Title { level: 1 }, Some("This is a header")),
            (Element::Title { level: 2 }, Some("This is a subheader")),
            (Element::Title { level: 3 }, Some("This is a subsubheader")),
            (Element::Title { level: 4 }, Some("This is a subsubsubheader")),
        ]
    );
}

#[test]
fn a_source_block_keeps_its_code() {
    let content = r#"
[source, bash]
----
echo "hello world!"
----
"#;
    let positional =
        |value: &str| at(Rule::Attribute, content, value, vec![at(Rule::AttributeValue, content, value, vec![])]);
    let roots = vec![
        at(
            Rule::Block,
            content,
            content.trim(),
            vec![at(
                Rule::DelimitedBlock,
                content,
                content.trim(),
                vec![
                    at(
                        Rule::AttributeList,
                        content,
                        "[source, bash]\n",
                        vec![at(
                            Rule::InlineAttributeList,
                            content,
                            "source, bash",
                            vec![positional("source"), positional("bash")],
                        )],
                    ),
                    at(
                        Rule::DelimitedSource,
                        content,
                        "----\necho \"hello world!\"\n----",
                        vec![at(Rule::DelimitedInner, content, "echo \"hello world!\"", vec![])],
                    ),
                ],
            )],
        ),
        end(content),
    ];
    let ast = read(content, roots, &mut AsciidocParser::new());
    assert_eq!(ast.elements.len(), 1);
    let block = &ast.elements[0];
    assert_eq!(block.element, Element::TypedBlock { kind: BlockType::Listing });
    assert_eq!(block.get_attribute("content"), Some("echo \"hello world!\""));
    assert_eq!(
        block.positional_attributes,
        vec![AttributeValue::Ref("source"), AttributeValue::Ref("bash")]
    );
}
