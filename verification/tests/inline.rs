use asciidoctrine::cst::{Pair, Rule};
use asciidoctrine::inline::concat_elements;
use asciidoctrine::{process_element, AsciidocParser, AttributeValue, Element, ElementSpan, Env};

fn at(rule: Rule, src: &str, part: &str, inner: Vec<Pair>) -> Pair {
    let start = src.find(part).unwrap();
    Pair { rule, start, end: start + part.len(), inner }
}

fn read<'a>(src: &'a str, pair: &Pair) -> ElementSpan<'a> {
    assert!(pair.is_within(src));
    process_element(src, 0, pair, &AsciidocParser::new(), &Env::new(), 8).unwrap().unwrap()
}

fn chars(src: &str, part: &str) -> Vec<Pair> {
    let start = src.find(part).unwrap();
    part.char_indices()
        .map(|(i, c)| Pair { rule: Rule::Linechar, start: start + i, end: start + i + c.len_utf8(), inner: vec![] })
        .collect()
}

#[test]
fn a_paragraph_has_a_child_for_each_part() {
    let src = "Some *bold* text.\n";
    let paragraph = at(
        Rule::Paragraph,
        src,
        "Some *bold* text.",
        vec![
            at(Rule::OtherInline, src, "Some ", vec![]),
            at(Rule::Inline, src, "*bold*", vec![at(Rule::Strong, src, "*bold*", chars(src, "bold"))]),
            at(Rule::OtherInline, src, " text.", vec![]),
            at(Rule::Unknown, src, "\n", vec![]),
        ],
    );
    let node = read(src, &paragraph);
    assert_eq!(node.element, Element::Paragraph);
    assert_eq!(node.content, "Some *bold* text.");
    assert_eq!(node.children.len(), 4);
    assert_eq!(node.children[0].element, Element::Text);
    assert_eq!(node.children[0].content, "Some ");
    assert_eq!(node.children[1].element, Element::Styled);
    assert_eq!(node.children[1].content, "*bold*");
    assert_eq!(node.children[1].get_attribute("style"), Some("strong"));
    assert_eq!(node.children[1].get_attribute("content"), Some("bold"));
    assert_eq!(node.children[2].element, Element::Text);
    assert_eq!(node.children[2].content, " text.");
    assert_eq!(node.children[3].element, Element::Error("Not implemented: unknown".to_string()));
    for child in node.children.iter() {
        assert_eq!(child.content, &src[child.start..child.end]);
    }
}

#[test]
fn styles_are_named() {
    for (rule, style) in [(Rule::Monospaced, "monospaced"), (Rule::Strong, "strong"), (Rule::Emphasized, "em")] {
        let src = "_word_";
        let inline = at(Rule::Inline, src, src, vec![at(rule, src, src, chars(src, "word"))]);
        let node = read(src, &inline);
        assert_eq!(node.element, Element::Styled);
        assert_eq!(node.attributes.len(), 2);
        assert_eq!(node.attributes[0].key, "style");
        assert_eq!(node.attributes[0].value, AttributeValue::Ref(style));
        assert_eq!(node.attributes[1].key, "content");
        assert_eq!(node.attributes[1].value, AttributeValue::String("word".to_string()));
    }
}

#[test]
fn styled_text_without_characters_has_no_content() {
    let src = "**";
    let inline = at(Rule::Inline, src, src, vec![at(Rule::Strong, src, src, vec![])]);
    let node = read(src, &inline);
    assert_eq!(node.element, Element::Styled);
    assert_eq!(node.get_attribute("style"), Some("strong"));
    assert_eq!(node.get_attribute("content"), None);
}

#[test]
fn monospaced_text_takes_its_anchors() {
    let src = "`[[here]]code`";
    let mut inner =
        vec![at(Rule::InlineAnchor, src, "[[here]]", vec![at(Rule::Identifier, src, "here", vec![])])];
    inner.extend(chars(src, "code"));
    let inline = at(Rule::Inline, src, src, vec![at(Rule::Monospaced, src, src, inner)]);
    let node = read(src, &inline);
    assert_eq!(node.get_attribute("style"), Some("monospaced"));
    assert_eq!(node.get_attribute("content"), Some("code"));
    assert_eq!(node.get_attribute("anchor"), Some("here"));
    assert_eq!(node.attributes.len(), 3);
    assert_eq!(node.attributes[2].key, "anchor");
}

#[test]
fn a_link_has_its_address_its_protocol_and_its_text() {
    let src = "https://example.org/a[the text, role=ext]";
    let link = at(
        Rule::Link,
        src,
        src,
        vec![
            at(Rule::Url, src, "https://example.org/a", vec![at(Rule::Proto, src, "https", vec![])]),
            at(
                Rule::InlineAttributeList,
                src,
                "the text, role=ext",
                vec![
                    at(Rule::Attribute, src, "the text", vec![at(Rule::AttributeValue, src, "the text", vec![])]),
                    at(
                        Rule::Attribute,
                        src,
                        "role=ext",
                        vec![at(
                            Rule::NamedAttribute,
                            src,
                            "role=ext",
                            vec![
                                at(Rule::Identifier, src, "role", vec![]),
                                at(
                                    Rule::AttributeValue,
                                    src,
                                    "ext",
                                    vec![at(Rule::InnerAttributeValue, src, "ext", vec![])],
                                ),
                            ],
                        )],
                    ),
                ],
            ),
            at(Rule::Word, src, "text", vec![]),
        ],
    );
    let node = read(src, &at(Rule::Inline, src, src, vec![link]));
    assert_eq!(node.element, Element::Link);
    assert_eq!(node.get_attribute("url"), Some("https://example.org/a"));
    assert_eq!(node.get_attribute("protocol"), Some("https"));
    assert_eq!(node.get_attribute("role"), Some("ext"));
    assert_eq!(node.attributes.len(), 3);
    assert_eq!(node.attributes[2].value, AttributeValue::String("ext".to_string()));
    assert_eq!(node.positional_attributes, vec![AttributeValue::Ref("the text")]);
    assert_eq!(node.children.len(), 1);
    assert_eq!(node.children[0].content, "text");
    assert_eq!(node.children[0].element, Element::Error("Not implemented: word".to_string()));
}

#[test]
fn an_address_without_parts_has_no_protocol() {
    let src = "example.org";
    let link = at(Rule::Link, src, src, vec![at(Rule::Url, src, src, vec![])]);
    let node = read(src, &at(Rule::Inline, src, src, vec![link]));
    assert_eq!(node.element, Element::Link);
    assert_eq!(node.get_attribute("url"), Some("example.org"));
    assert_eq!(node.get_attribute("protocol"), None);
}

#[test]
fn a_cross_reference_has_its_id_and_its_words() {
    let src = "<<sec-1,see the  first section>>";
    let xref = at(
        Rule::Xref,
        src,
        src,
        vec![
            at(Rule::Identifier, src, "sec-1", vec![]),
            at(Rule::Word, src, "see", vec![]),
            at(Rule::Word, src, "the", vec![]),
            at(Rule::Word, src, "first", vec![]),
            at(Rule::Word, src, "section", vec![]),
        ],
    );
    let node = read(src, &at(Rule::Inline, src, src, vec![xref]));
    assert_eq!(node.element, Element::XRef);
    assert_eq!(node.get_attribute("id"), Some("sec-1"));
    assert_eq!(node.get_attribute("content"), Some("see the first section"));
    assert_eq!(node.attributes[1].value, AttributeValue::String("see the first section".to_string()));
}

#[test]
fn a_cross_reference_without_words_has_no_content() {
    let src = "<<sec-1>>";
    let xref = at(Rule::Xref, src, src, vec![at(Rule::Identifier, src, "sec-1", vec![])]);
    let node = read(src, &at(Rule::Inline, src, src, vec![xref]));
    assert_eq!(node.element, Element::XRef);
    assert_eq!(node.attributes.len(), 1);
    assert_eq!(node.get_attribute("content"), None);
}

#[test]
fn texts_are_joined_in_the_order_of_the_text() {
    let src = "a b c";
    let pair = at(
        Rule::Line,
        src,
        src,
        vec![
            at(Rule::Word, src, "a", vec![]),
            at(Rule::Identifier, src, "b", vec![]),
            at(Rule::Word, src, "c", vec![]),
        ],
    );
    assert_eq!(concat_elements(src, 0, &pair, Rule::Word, "--"), Some("a--c".to_string()));
    assert_eq!(concat_elements(src, 0, &pair, Rule::Identifier, "--"), Some("b".to_string()));
    assert_eq!(concat_elements(src, 0, &pair, Rule::Linechar, "--"), None);
    assert_eq!(concat_elements(src, 0, &pair, Rule::Word, ""), Some("ac".to_string()));
}

#[test]
fn the_first_attribute_with_a_key_counts() {
    let src = "[[one]][[two]]";
    let anchor = at(
        Rule::Anchor,
        src,
        src,
        vec![
            at(Rule::InlineAnchor, src, "[[one]]", vec![at(Rule::Identifier, src, "one", vec![])]),
            at(Rule::InlineAnchor, src, "[[two]]", vec![at(Rule::Identifier, src, "two", vec![])]),
        ],
    );
    let node = read(src, &at(Rule::TitleBlock, src, src, vec![anchor]));
    assert_eq!(node.attributes.len(), 2);
    assert_eq!(node.get_attribute("anchor"), Some("one"));
    assert_eq!(node.attributes[1].value, AttributeValue::Ref("two"));
    assert_eq!(node.get_attribute("missing"), None);
}
