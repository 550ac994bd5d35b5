use asciidoctrine::cst::{Pair, Rule};
use asciidoctrine::image::{image_diagnostic, inline_diagnostic, inline_image};
use asciidoctrine::{process_element, AsciidocParser, AttributeValue, Element, Env, Halt};

fn at(rule: Rule, src: &str, part: &str, inner: Vec<Pair>) -> Pair {
    let start = src.find(part).unwrap();
    Pair { rule, start, end: start + part.len(), inner }
}

fn named(src: &str, whole: &str, key: &str, value: &str) -> Pair {
    at(
        Rule::Attribute,
        src,
        whole,
        vec![at(
            Rule::NamedAttribute,
            src,
            whole,
            vec![
                at(Rule::Identifier, src, key, vec![]),
                at(Rule::AttributeValue, src, value, vec![at(Rule::InnerAttributeValue, src, value, vec![])]),
            ],
        )],
    )
}

fn image(src: &str, path: &str, attributes: &str, inner: Vec<Pair>) -> Pair {
    at(
        Rule::ImageBlock,
        src,
        src.trim_end(),
        vec![at(
            Rule::Unknown,
            src,
            src.trim_end(),
            vec![at(Rule::Path, src, path, vec![]), at(Rule::InlineAttributeList, src, attributes, inner)],
        )],
    )
}

const INLINE: &str = "image::pics/a.svg[opts=inline]\n";

fn inline_picture() -> Pair {
    image(INLINE, "pics/a.svg", "opts=inline", vec![named(INLINE, "opts=inline", "opts", "inline")])
}

#[test]
fn an_image_has_the_path_and_the_attributes_found_anywhere_inside_it() {
    let src = "image::pics/a.svg[A picture, width=20]\n";
    let pair = image(
        src,
        "pics/a.svg",
        "A picture, width=20",
        vec![
            at(Rule::Attribute, src, "A picture", vec![at(Rule::AttributeValue, src, "A picture", vec![])]),
            named(src, "width=20", "width", "20"),
        ],
    );
    assert!(pair.is_within(src));
    let node = process_element(src, 0, &pair, &AsciidocParser::new(), &Env::new(), 0).unwrap().unwrap();
    assert_eq!(node.element, Element::Image);
    assert_eq!(node.get_attribute("path"), Some("pics/a.svg"));
    assert_eq!(node.get_attribute("width"), Some("20"));
    assert_eq!(node.get_attribute("content"), None);
    assert_eq!(node.positional_attributes, vec![AttributeValue::Ref("A picture")]);
    assert!(node.children.is_empty());
    assert_eq!(node.content, "image::pics/a.svg[A picture, width=20]");
}

#[test]
fn a_later_path_is_added_and_the_first_counts() {
    let src = "image::a.svg[] https://example.org/b.svg";
    let pair = at(
        Rule::ImageBlock,
        src,
        src,
        vec![
            at(Rule::Path, src, "a.svg", vec![]),
            at(Rule::Url, src, "https://example.org/b.svg", vec![at(Rule::Proto, src, "https", vec![])]),
        ],
    );
    let node = process_element(src, 0, &pair, &AsciidocParser::new(), &Env::new(), 0).unwrap().unwrap();
    assert_eq!(node.attributes.len(), 2);
    assert_eq!(node.attributes[0].key, "path");
    assert_eq!(node.attributes[1].key, "path");
    assert_eq!(node.attributes[1].value, AttributeValue::Ref("https://example.org/b.svg"));
    assert_eq!(node.get_attribute("path"), Some("a.svg"));
}

#[test]
fn an_inline_image_asks_for_its_file() {
    let halt = process_element(INLINE, 0, &inline_picture(), &AsciidocParser::new(), &Env::new(), 0).unwrap_err();
    assert_eq!(halt, Halt::Unread { path: "pics/a.svg".to_string() });
    let mut env = Env::new();
    env.record("pics/b.svg", Ok("<svg/>".to_string()));
    let halt = process_element(INLINE, 0, &inline_picture(), &AsciidocParser::new(), &env, 0).unwrap_err();
    assert_eq!(halt, Halt::Unread { path: "pics/a.svg".to_string() });
}

#[test]
fn an_inline_image_holds_what_its_file_holds() {
    let mut env = Env::new();
    env.record("pics/a.svg", Ok("<svg/>".to_string()));
    env.record("pics/a.svg", Ok("later".to_string()));
    let node = process_element(INLINE, 0, &inline_picture(), &AsciidocParser::new(), &env, 0).unwrap().unwrap();
    assert_eq!(node.element, Element::Image);
    assert_eq!(node.get_attribute("content"), Some("<svg/>"));
    let keys: Vec<&str> = node.attributes.iter().map(|a| a.key.as_str()).collect();
    assert_eq!(keys, vec!["path", "opts", "content"]);
    assert_eq!(node.attributes[2].value, AttributeValue::String("<svg/>".to_string()));
}

#[test]
fn an_inline_image_with_an_unreadable_file_has_no_content() {
    let mut env = Env::new();
    env.record("pics/a.svg", Err("no such file".to_string()));
    let node = process_element(INLINE, 0, &inline_picture(), &AsciidocParser::new(), &env, 0).unwrap().unwrap();
    assert_eq!(node.element, Element::Image);
    assert_eq!(node.get_attribute("content"), None);
    assert_eq!(node.get_attribute("path"), Some("pics/a.svg"));
    assert_eq!(node.get_attribute("opts"), Some("inline"));
    assert_eq!(node.attributes.len(), 2);
}

#[test]
fn an_inline_image_without_a_path_stays_as_it_is() {
    let src = "image::[opts=inline]";
    let pair = at(
        Rule::ImageBlock,
        src,
        src,
        vec![at(Rule::InlineAttributeList, src, "opts=inline", vec![named(src, "opts=inline", "opts", "inline")])],
    );
    let node = process_element(src, 0, &pair, &AsciidocParser::new(), &Env::new(), 0).unwrap().unwrap();
    assert_eq!(node.element, Element::Image);
    assert_eq!(node.attributes.len(), 1);
    assert_eq!(node.get_attribute("content"), None);
}

#[test]
fn an_image_with_other_options_reads_no_file() {
    let src = "image::a.svg[opts=interactive]";
    let pair = image(src, "a.svg", "opts=interactive", vec![named(src, "opts=interactive", "opts", "interactive")]);
    let node = process_element(src, 0, &pair, &AsciidocParser::new(), &Env::new(), 0).unwrap().unwrap();
    assert_eq!(node.get_attribute("opts"), Some("interactive"));
    assert_eq!(node.get_attribute("content"), None);
    let same = inline_image(node.duplicate(), &Env::new()).unwrap();
    assert_eq!(same, node);
}

#[test]
fn files_are_known_by_their_whole_path() {
    let mut env = Env::new();
    assert_eq!(env.read_to_string("a"), None);
    env.record("a", Err("no such file".to_string()));
    env.record("ab", Ok("x".to_string()));
    assert_eq!(env.read_to_string("a"), Some(Err("no such file")));
    assert_eq!(env.read_to_string("ab"), Some(Ok("x")));
    assert_eq!(env.read_to_string("b"), None);
    assert_eq!(env.read_to_string(""), None);
}

#[test]
fn an_unreadable_file_is_said_with_its_path_and_the_reason() {
    let mut env = Env::new();
    env.record("pics/a.svg", Err("No such file or directory (os error 2)".to_string()));
    let node = process_element(INLINE, 0, &inline_picture(), &AsciidocParser::new(), &env, 0).unwrap().unwrap();
    assert_eq!(
        image_diagnostic(&node, &env),
        Some("couldn't read content of image file pics/a.svg (No such file or directory (os error 2))".to_string())
    );
}

#[test]
fn a_missing_path_is_said() {
    let src = "image::[opts=inline]";
    let pair = at(
        Rule::ImageBlock,
        src,
        src,
        vec![at(Rule::InlineAttributeList, src, "opts=inline", vec![named(src, "opts=inline", "opts", "inline")])],
    );
    let node = process_element(src, 0, &pair, &AsciidocParser::new(), &Env::new(), 0).unwrap().unwrap();
    assert_eq!(
        image_diagnostic(&node, &Env::new()),
        Some("There was no path of inline image defined".to_string())
    );
}

#[test]
fn of_other_nodes_nothing_is_said() {
    let mut env = Env::new();
    env.record("pics/a.svg", Ok("<svg/>".to_string()));
    let read = process_element(INLINE, 0, &inline_picture(), &AsciidocParser::new(), &env, 0).unwrap().unwrap();
    assert_eq!(image_diagnostic(&read, &env), None);
    let src = "image::a.svg[opts=interactive]";
    let pair = image(src, "a.svg", "opts=interactive", vec![named(src, "opts=interactive", "opts", "interactive")]);
    let other = process_element(src, 0, &pair, &AsciidocParser::new(), &Env::new(), 0).unwrap().unwrap();
    assert_eq!(image_diagnostic(&other, &Env::new()), None);
    let mut unreadable = Env::new();
    unreadable.record("pics/a.svg", Err("gone".to_string()));
    let mut link = read.duplicate();
    link.element = Element::Link;
    assert_eq!(image_diagnostic(&link, &unreadable), None);
    assert_eq!(
        inline_diagnostic(&link, &unreadable),
        Some("couldn't read content of image file pics/a.svg (gone)".to_string())
    );
    assert_eq!(inline_diagnostic(&read, &env), None);
}
