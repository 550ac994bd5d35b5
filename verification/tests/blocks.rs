use asciidoctrine::cst::{Pair, Rule};
use asciidoctrine::{
    process_element, AsciidocParser, AttributeValue, BlockType, Element, ElementSpan, Env, Halt,
    ListType,
};

fn at(rule: Rule, src: &str, part: &str, inner: Vec<Pair>) -> Pair {
    let start = src.find(part).unwrap();
    Pair { rule, start, end: start + part.len(), inner }
}

fn read<'a>(src: &'a str, pair: &Pair, parser: &AsciidocParser) -> Result<Option<ElementSpan<'a>>, Halt<'a>> {
    assert!(pair.is_within(src));
    process_element(src, 0, pair, parser, &Env::new(), 8)
}

fn positional(src: &str, value: &str) -> Pair {
    at(Rule::Attribute, src, value, vec![at(Rule::AttributeValue, src, value, vec![])])
}

fn listing(src: &str) -> Pair {
    at(
        Rule::DelimitedBlock,
        src,
        src.trim_end(),
        vec![
            at(
                Rule::AttributeList,
                src,
                "[source, bash]",
                vec![at(
                    Rule::InlineAttributeList,
                    src,
                    "source, bash",
                    vec![positional(src, "source"), positional(src, "bash")],
                )],
            ),
            at(
                Rule::DelimitedSource,
                src,
                "----\necho \"hi\"\n----",
                vec![at(Rule::DelimitedInner, src, "echo \"hi\"", vec![])],
            ),
        ],
    )
}

fn paragraph_document(text: &str) -> Vec<Pair> {
    vec![
        Pair {
            rule: Rule::Block,
            start: 0,
            end: text.len(),
            inner: vec![Pair {
                rule: Rule::Paragraph,
                start: 0,
                end: text.len(),
                inner: vec![Pair { rule: Rule::OtherInline, start: 0, end: text.len(), inner: vec![] }],
            }],
        },
        Pair { rule: Rule::EOI, start: text.len(), end: text.len(), inner: vec![] },
    ]
}

fn example(src: &str, inner: &str) -> Pair {
    let whole = format!("====\n{}\n====", inner);
    at(
        Rule::DelimitedBlock,
        src,
        &whole,
        vec![at(Rule::DelimitedExample, src, &whole, vec![at(Rule::DelimitedInner, src, inner, vec![])])],
    )
}

#[test]
fn a_listing_keeps_its_text_and_its_attributes() {
    let src = "[source, bash]\n----\necho \"hi\"\n----\n";
    let node = read(src, &listing(src), &AsciidocParser::new()).unwrap().unwrap();
    assert_eq!(node.element, Element::TypedBlock { kind: BlockType::Listing });
    assert_eq!(node.get_attribute("content"), Some("echo \"hi\""));
    assert_eq!(node.attributes.len(), 1);
    assert_eq!(node.attributes[0].value, AttributeValue::Ref("echo \"hi\""));
    assert_eq!(
        node.positional_attributes,
        vec![AttributeValue::Ref("source"), AttributeValue::Ref("bash")]
    );
    assert!(node.children.is_empty());
    assert_eq!(node.content, &src[node.start..node.end]);
    assert_eq!((node.start_line, node.start_col, node.end_line, node.end_col), (1, 1, 4, 5));
}

#[test]
fn a_literal_block_is_a_listing_and_a_comment_a_comment() {
    let src = "....\nas is\n....";
    let literal = at(
        Rule::DelimitedBlock,
        src,
        src,
        vec![at(Rule::DelimitedLiteral, src, src, vec![at(Rule::DelimitedInner, src, "as is", vec![])])],
    );
    let node = read(src, &literal, &AsciidocParser::new()).unwrap().unwrap();
    assert_eq!(node.element, Element::TypedBlock { kind: BlockType::Listing });
    assert_eq!(node.get_attribute("content"), Some("as is"));
    let comment = at(
        Rule::DelimitedBlock,
        src,
        src,
        vec![at(Rule::DelimitedComment, src, src, vec![at(Rule::DelimitedInner, src, "as is", vec![])])],
    );
    let node = read(src, &comment, &AsciidocParser::new()).unwrap().unwrap();
    assert_eq!(node.element, Element::TypedBlock { kind: BlockType::Comment });
    assert_eq!(node.get_attribute("content"), Some("as is"));
    assert!(node.children.is_empty());
}

#[test]
fn a_block_takes_its_anchor_and_its_title() {
    let src = "[[code]]\n.The code\n----\nx\n----";
    let block = at(
        Rule::DelimitedBlock,
        src,
        src,
        vec![
            at(
                Rule::Anchor,
                src,
                "[[code]]",
                vec![at(Rule::InlineAnchor, src, "[[code]]", vec![at(Rule::Identifier, src, "code", vec![])])],
            ),
            at(Rule::Blocktitle, src, ".The code", vec![at(Rule::Line, src, "The code", vec![])]),
            at(
                Rule::DelimitedSource,
                src,
                "----\nx\n----",
                vec![at(Rule::DelimitedInner, src, "x", vec![])],
            ),
        ],
    );
    let node = read(src, &block, &AsciidocParser::new()).unwrap().unwrap();
    assert_eq!(node.element, Element::TypedBlock { kind: BlockType::Listing });
    let keys: Vec<&str> = node.attributes.iter().map(|a| a.key.as_str()).collect();
    assert_eq!(keys, vec!["anchor", "title", "content"]);
    assert_eq!(node.get_attribute("anchor"), Some("code"));
    assert_eq!(node.get_attribute("title"), Some("The code"));
    assert_eq!(node.get_attribute("content"), Some("x"));
}

#[test]
fn a_block_takes_in_nothing_after_a_part_it_does_not_know() {
    let src = "[[code]]\n.The code\n----\nx\n----";
    let block = at(
        Rule::DelimitedBlock,
        src,
        src,
        vec![
            at(
                Rule::Anchor,
                src,
                "[[code]]",
                vec![at(Rule::InlineAnchor, src, "[[code]]", vec![at(Rule::Identifier, src, "code", vec![])])],
            ),
            at(Rule::Line, src, ".The code", vec![]),
            at(
                Rule::DelimitedSource,
                src,
                "----\nx\n----",
                vec![at(Rule::DelimitedInner, src, "x", vec![])],
            ),
        ],
    );
    let node = read(src, &block, &AsciidocParser::new()).unwrap().unwrap();
    assert_eq!(node.element, Element::Error("Not implemented: delimited_block".to_string()));
    assert_eq!(node.attributes.len(), 1);
    assert_eq!(node.get_attribute("anchor"), Some("code"));
}

#[test]
fn named_attributes_are_kept_with_their_keys() {
    let src = "[quote, author=\"A. B.\", 1999]\n----\nx\n----";
    let block = at(
        Rule::DelimitedBlock,
        src,
        src,
        vec![
            at(
                Rule::AttributeList,
                src,
                "[quote, author=\"A. B.\", 1999]",
                vec![at(
                    Rule::InlineAttributeList,
                    src,
                    "quote, author=\"A. B.\", 1999",
                    vec![
                        positional(src, "quote"),
                        at(
                            Rule::Attribute,
                            src,
                            "author=\"A. B.\"",
                            vec![at(
                                Rule::NamedAttribute,
                                src,
                                "author=\"A. B.\"",
                                vec![
                                    at(Rule::Identifier, src, "author", vec![]),
                                    at(
                                        Rule::AttributeValue,
                                        src,
                                        "\"A. B.\"",
                                        vec![
                                            at(Rule::InnerAttributeValue, src, "A.", vec![]),
                                            at(Rule::InnerAttributeValue, src, " B.", vec![]),
                                        ],
                                    ),
                                ],
                            )],
                        ),
                        positional(src, "1999"),
                    ],
                )],
            ),
            at(
                Rule::DelimitedSource,
                src,
                "----\nx\n----",
                vec![at(Rule::DelimitedInner, src, "x", vec![])],
            ),
        ],
    );
    let node = read(src, &block, &AsciidocParser::new()).unwrap().unwrap();
    assert_eq!(node.element, Element::TypedBlock { kind: BlockType::Listing });
    assert_eq!(node.get_attribute("author"), Some("A. B."));
    assert_eq!(node.attributes[0].value, AttributeValue::String("A. B.".to_string()));
    assert_eq!(
        node.positional_attributes,
        vec![AttributeValue::Ref("quote"), AttributeValue::Ref("1999")]
    );
}

#[test]
fn a_named_attribute_without_its_value_makes_an_error_node() {
    let src = "image::a.png[alt=]";
    let image = at(
        Rule::ImageBlock,
        src,
        src,
        vec![
            at(Rule::Path, src, "a.png", vec![]),
            at(
                Rule::InlineAttributeList,
                src,
                "alt=",
                vec![at(
                    Rule::Attribute,
                    src,
                    "alt=",
                    vec![at(Rule::NamedAttribute, src, "alt=", vec![at(Rule::Identifier, src, "alt", vec![])])],
                )],
            ),
        ],
    );
    let node = read(src, &image, &AsciidocParser::new()).unwrap().unwrap();
    assert_eq!(node.element, Element::Error("Incomplete named attribute".to_string()));
    assert_eq!(node.get_attribute("alt"), None);
    assert_eq!(node.get_attribute("path"), Some("a.png"));
}

#[test]
fn an_attribute_value_without_parts_is_empty() {
    let src = "image::a.png[alt=]";
    let image = at(
        Rule::ImageBlock,
        src,
        src,
        vec![at(
            Rule::InlineAttributeList,
            src,
            "alt=",
            vec![at(
                Rule::Attribute,
                src,
                "alt=",
                vec![at(
                    Rule::NamedAttribute,
                    src,
                    "alt=",
                    vec![
                        at(Rule::Identifier, src, "alt", vec![]),
                        Pair { rule: Rule::AttributeValue, start: src.len() - 1, end: src.len() - 1, inner: vec![] },
                    ],
                )],
            )],
        )],
    );
    let node = read(src, &image, &AsciidocParser::new()).unwrap().unwrap();
    assert_eq!(node.element, Element::Image);
    assert_eq!(node.get_attribute("alt"), Some(""));
}

#[test]
fn an_example_holds_its_text_and_the_document_in_it() {
    let inner = "One paragraph.";
    let src = "====\nOne paragraph.\n====\n";
    let block = example(src, inner);
    let mut parser = AsciidocParser::new();
    assert!(parser.record(Rule::Asciidoc, inner, Ok(paragraph_document(inner))));
    let node = read(src, &block, &parser).unwrap().unwrap();
    assert_eq!(node.element, Element::TypedBlock { kind: BlockType::Example });
    let contents: Vec<_> = node.attributes.iter().filter(|a| a.key == "content").collect();
    assert_eq!(contents.len(), 1);
    assert_eq!(contents[0].value, AttributeValue::Ref("One paragraph."));
    assert_eq!(node.children.len(), 1);
    assert_eq!(node.children[0].element, Element::Paragraph);
    assert_eq!(node.children[0].content, "One paragraph.");
    assert_eq!((node.children[0].start, node.children[0].end), (5, 5 + inner.len()));
    assert_eq!((node.children[0].start_line, node.children[0].start_col), (2, 1));
    assert_eq!((node.children[0].end_line, node.children[0].end_col), (2, 15));
    assert_eq!(node.children[0].content, &src[node.children[0].start..node.children[0].end]);
    assert_eq!((node.children[0].children[0].start, node.children[0].children[0].end), (5, 19));
    assert_eq!(node.children[0].children.len(), 1);
    assert_eq!(node.children[0].children[0].element, Element::Text);
    assert_eq!(node.content, &src[node.start..node.end]);
    assert_eq!((node.start, node.end), (0, src.len() - 1));
}

#[test]
fn an_example_asks_for_the_document_in_it() {
    let inner = "One paragraph.";
    let src = "====\nOne paragraph.\n====\n";
    let block = example(src, inner);
    let halt = read(src, &block, &AsciidocParser::new()).unwrap_err();
    assert_eq!(halt, Halt::Unparsed { rule: Rule::Asciidoc, text: "One paragraph." });
    let mut other = AsciidocParser::new();
    assert!(other.record(Rule::TableInner, inner, Ok(paragraph_document(inner))));
    assert!(other.record(Rule::Asciidoc, "Another paragraph.", Ok(Vec::new())));
    let halt = read(src, &block, &other).unwrap_err();
    assert_eq!(halt, Halt::Unparsed { rule: Rule::Asciidoc, text: "One paragraph." });
}

#[test]
fn an_example_with_a_document_that_the_grammar_rejects_fails() {
    let inner = "One paragraph.";
    let src = "====\nOne paragraph.\n====\n";
    let block = example(src, inner);
    let mut parser = AsciidocParser::new();
    assert!(parser.record(Rule::Asciidoc, inner, Err("expected a block".to_string())));
    let halt = read(src, &block, &parser).unwrap_err();
    assert_eq!(halt, Halt::Syntax { message: "expected a block".to_string() });
}

#[test]
fn examples_are_followed_as_deep_as_allowed() {
    let inmost = "Deep.";
    let inner = "====\nDeep.\n====";
    let src = "======\n====\nDeep.\n====\n======";
    let outer = at(
        Rule::DelimitedBlock,
        src,
        src,
        vec![at(Rule::DelimitedExample, src, src, vec![at(Rule::DelimitedInner, src, inner, vec![])])],
    );
    let mut parser = AsciidocParser::new();
    assert!(parser.record(Rule::Asciidoc, inner, Ok(vec![example(inner, inmost)])));
    assert!(parser.record(Rule::Asciidoc, inmost, Ok(paragraph_document(inmost))));
    let env = Env::new();
    assert_eq!(process_element(src, 0, &outer, &parser, &env, 0).unwrap_err(), Halt::TooDeep);
    assert_eq!(process_element(src, 0, &outer, &parser, &env, 1).unwrap_err(), Halt::TooDeep);
    let node = process_element(src, 0, &outer, &parser, &env, 2).unwrap().unwrap();
    assert_eq!(node.children.len(), 1);
    assert_eq!(node.children[0].element, Element::TypedBlock { kind: BlockType::Example });
    assert_eq!(node.children[0].get_attribute("content"), Some("Deep."));
    assert_eq!(node.children[0].children.len(), 1);
    assert_eq!(node.children[0].children[0].element, Element::Paragraph);
    assert_eq!(node.children[0].children[0].content, "Deep.");
    assert_eq!(node.get_attribute("content"), Some(inner));
}

#[test]
fn a_listing_needs_no_nesting() {
    let src = "[source, bash]\n----\necho \"hi\"\n----\n";
    let pair = listing(src);
    let node = process_element(src, 0, &pair, &AsciidocParser::new(), &Env::new(), 0).unwrap().unwrap();
    assert_eq!(node.element, Element::TypedBlock { kind: BlockType::Listing });
}

#[test]
fn continuations_and_the_end_of_input_become_nothing() {
    let src = "+\n";
    assert_eq!(read(src, &at(Rule::Continuation, src, "+", vec![]), &AsciidocParser::new()).unwrap(), None);
    assert_eq!(read(src, &Pair::leaf(Rule::EOI, 2, 2), &AsciidocParser::new()).unwrap(), None);
}

#[test]
fn a_rule_without_a_builder_becomes_an_error_node() {
    let src = "////";
    let node = read(src, &at(Rule::Unknown, src, src, vec![]), &AsciidocParser::new()).unwrap().unwrap();
    assert_eq!(node.element, Element::Error("Not implemented: unknown".to_string()));
    assert_eq!(node.content, "////");
    let node = read(src, &at(Rule::Word, src, src, vec![]), &AsciidocParser::new()).unwrap().unwrap();
    assert_eq!(node.element, Element::Error("Not implemented: word".to_string()));
}

#[test]
fn a_block_becomes_the_last_thing_inside_it() {
    let src = "first\n\nsecond";
    let block = at(
        Rule::Block,
        src,
        src,
        vec![
            at(Rule::Paragraph, src, "first", vec![at(Rule::OtherInline, src, "first", vec![])]),
            at(Rule::Continuation, src, "\n\n", vec![]),
            at(Rule::Paragraph, src, "second", vec![at(Rule::OtherInline, src, "second", vec![])]),
            Pair::leaf(Rule::EOI, src.len(), src.len()),
        ],
    );
    let node = read(src, &block, &AsciidocParser::new()).unwrap().unwrap();
    assert_eq!(node.element, Element::Paragraph);
    assert_eq!(node.content, "second");
    let empty = at(Rule::Block, src, src, vec![at(Rule::Continuation, src, "\n\n", vec![])]);
    let node = read(src, &empty, &AsciidocParser::new()).unwrap().unwrap();
    assert_eq!(node.element, Element::Error("Not implemented: block".to_string()));
    assert_eq!(node.content, src);
}

#[test]
fn a_bullet_list_has_its_items_with_their_marker_lengths() {
    let src = "* one\n** two\n";
    let list = at(
        Rule::List,
        src,
        "* one\n** two",
        vec![at(
            Rule::BulletList,
            src,
            "* one\n** two",
            vec![
                at(
                    Rule::BulletListElement,
                    src,
                    "* one",
                    vec![
                        at(Rule::Bullet, src, "* ", vec![]),
                        at(
                            Rule::ListElement,
                            src,
                            "one",
                            vec![
                                at(Rule::ListParagraph, src, "one", vec![at(Rule::OtherListInline, src, "one", vec![])]),
                                at(Rule::Continuation, src, "\n", vec![]),
                            ],
                        ),
                    ],
                ),
                at(
                    Rule::BulletListElement,
                    src,
                    "** two",
                    vec![
                        at(Rule::Bullet, src, "** ", vec![]),
                        at(Rule::Word, src, "two", vec![]),
                        at(Rule::ListElement, src, "two", vec![at(Rule::OtherListInline, src, "two", vec![])]),
                    ],
                ),
            ],
        )],
    );
    let node = read(src, &list, &AsciidocParser::new()).unwrap().unwrap();
    assert_eq!(node.element, Element::List(ListType::Bullet));
    assert_eq!(node.children.len(), 2);
    let first = &node.children[0];
    assert_eq!(first.element, Element::ListItem(1));
    assert_eq!(first.content, "* one");
    assert_eq!(first.children.len(), 1);
    assert_eq!(first.children[0].element, Element::Paragraph);
    assert_eq!(first.children[0].children[0].element, Element::Text);
    let second = &node.children[1];
    assert_eq!(second.element, Element::ListItem(2));
    assert_eq!(second.children.len(), 2);
    assert_eq!(second.children[0].element, Element::Error("Not implemented: word".to_string()));
    assert_eq!(second.children[1].element, Element::Text);
    assert_eq!(second.children[1].content, "two");
}

#[test]
fn a_numbered_list_has_its_items_with_their_marker_lengths() {
    let src = "... deep";
    let list = at(
        Rule::NumberedList,
        src,
        src,
        vec![at(
            Rule::NumberBulletListElement,
            src,
            src,
            vec![
                at(Rule::NumberBullet, src, "... ", vec![]),
                at(Rule::Bullet, src, "...", vec![]),
                at(Rule::ListElement, src, "deep", vec![at(Rule::OtherListInline, src, "deep", vec![])]),
            ],
        )],
    );
    let node = read(src, &list, &AsciidocParser::new()).unwrap().unwrap();
    assert_eq!(node.element, Element::List(ListType::Number));
    assert_eq!(node.children.len(), 1);
    assert_eq!(node.children[0].element, Element::ListItem(3));
    assert_eq!(node.children[0].children.len(), 2);
    assert_eq!(node.children[0].children[0].element, Element::Error("Not implemented: bullet".to_string()));
    assert_eq!(node.children[0].children[1].content, "deep");
}
