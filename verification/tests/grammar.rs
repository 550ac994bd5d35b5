use asciidoctrine::{
    diagnostics, AsciidocParser, AsciidocReader, AttributeValue, BlockType, Element, ElementSpan, Env, Halt,
    ListType, Opts, Pair, Rule, AST,
};

const GRAMMAR: &str = r##"
asciidoc = _{ SOI ~ NEWLINE* ~ (header ~ NEWLINE*)? ~ (block ~ NEWLINE*)* ~ EOI }

eol = _{ NEWLINE | &EOI }
blank = _{ " " | "\t" }

header = { &"= " ~ title }
block = { delimited_block | image_block | title_block | list | paragraph }

title_block = { anchor* ~ title }
title = { atx_title_style ~ line ~ eol | line ~ NEWLINE ~ setext_title_style ~ eol }
atx_title_style = { "="+ ~ blank+ }
setext_title_style = { "="{4,} | "-"{4,} | "~"{4,} | "^"{4,} }
line = { (!NEWLINE ~ ANY)+ }

anchor = { inline_anchor ~ NEWLINE }
inline_anchor = { "[[" ~ identifier ~ "]]" }
identifier = @{ (ASCII_ALPHANUMERIC | "_" | "-")+ }

attribute_list = { "[" ~ inline_attribute_list ~ "]" ~ NEWLINE }
inline_attribute_list = { (attribute ~ ("," ~ blank* ~ attribute)*)? }
attribute = { named_attribute | attribute_value }
named_attribute = { identifier ~ "=" ~ attribute_value }
attribute_value = { "\"" ~ inner_attribute_value? ~ "\"" | bare_attribute_value }
inner_attribute_value = { (!("\"" | NEWLINE) ~ ANY)+ }
bare_attribute_value = { (!("," | "]" | "\"" | "=" | NEWLINE) ~ ANY)+ }
blocktitle = { "." ~ !("." | blank) ~ line ~ NEWLINE }

delimited_block = {
    (anchor | attribute_list | blocktitle)* ~
    (delimited_table | delimited_comment | delimited_source | delimited_literal | delimited_example)
}
delimited_table = { PUSH("|" ~ "="{3,}) ~ NEWLINE ~ delimited_body ~ eol }
delimited_comment = { PUSH("/"{4,}) ~ NEWLINE ~ delimited_body ~ eol }
delimited_source = { PUSH("-"{4,}) ~ NEWLINE ~ delimited_body ~ eol }
delimited_literal = { PUSH("."{4,}) ~ NEWLINE ~ delimited_body ~ eol }
delimited_example = { PUSH("="{4,}) ~ NEWLINE ~ delimited_body ~ eol }
delimited_body = _{ POP | delimited_inner ~ NEWLINE ~ POP }
delimited_inner = { (!(NEWLINE ~ PEEK ~ eol) ~ ANY)+ }

table_inner = { NEWLINE* ~ (table_row ~ NEWLINE*)* ~ EOI }
table_row = { table_cell+ }
table_cell = { "|" ~ table_cell_content? }
table_cell_content = { (!("|" | NEWLINE) ~ ANY)+ }

image_block = { "image::" ~ (url | path) ~ "[" ~ inline_attribute_list ~ "]" ~ eol }
path = { (!("[" | blank | NEWLINE) ~ ANY)+ }

list = { bullet_list | numbered_list }
bullet_list = { bullet_list_element+ }
bullet_list_element = { bullet ~ list_element ~ eol }
bullet = { "*"+ ~ blank+ }
numbered_list = { number_bullet_list_element+ }
number_bullet_list_element = { number_bullet ~ list_element ~ eol }
number_bullet = { "."+ ~ blank+ }
list_element = { list_paragraph ~ (NEWLINE ~ continuation ~ NEWLINE ~ delimited_block)* }
list_paragraph = { (inline | other_list_inline)+ }
other_list_inline = { (!(inline | NEWLINE) ~ ANY)+ }
continuation = { "+" }

paragraph = { paragraph_line ~ (NEWLINE ~ !paragraph_end ~ paragraph_line)* ~ eol }
paragraph_line = _{ (inline | other_inline)+ }
paragraph_end = _{
    NEWLINE | "[" | "image::" | "|===" | "////" | "----" | "...." | "====" |
    ("*"+ ~ blank) | ("."+ ~ blank) | ("="+ ~ blank)
}
other_inline = { (!(inline | NEWLINE) ~ ANY)+ }

inline = { link | xref | monospaced | strong | emphasized }
link = { url ~ ("[" ~ inline_attribute_list ~ "]")? }
url = { proto ~ "://" ~ address }
proto = { "https" | "http" | "ftp" | "irc" | "file" }
address = { (!("[" | "]" | blank | NEWLINE) ~ ANY)+ }
xref = { "<<" ~ identifier ~ ("," ~ blank* ~ word ~ (blank+ ~ word)*)? ~ ">>" }
word = { (!(">>" | blank | NEWLINE) ~ ANY)+ }
monospaced = { "`" ~ (inline_anchor | linechar)+ ~ "`" }
strong = { "*" ~ linechar+ ~ "*" }
emphasized = { "_" ~ linechar+ ~ "_" }
linechar = { !("`" | "*" | "_" | NEWLINE) ~ ANY }
"##;

fn grammar() -> pest_vm::Vm {
    let (_, rules) = pest_meta::parse_and_optimize(GRAMMAR).unwrap();
    pest_vm::Vm::new(rules)
}

fn convert(pair: pest::iterators::Pair<&str>) -> Pair {
    let span = pair.as_span();
    Pair {
        rule: Rule::from_name(pair.as_rule()),
        start: span.start(),
        end: span.end(),
        inner: pair.into_inner().map(convert).collect(),
    }
}

fn run(grammar: &pest_vm::Vm, rule: Rule, text: &str) -> Result<Vec<Pair>, String> {
    match grammar.parse(rule.name(), text) {
        Ok(pairs) => Ok(pairs.map(convert).collect()),
        Err(error) => Err(error.to_string()),
    }
}

fn read_with<'a>(input: &'a str, opts: &Opts, files: &[(&str, Option<&str>)]) -> Result<AST<'a>, Halt<'a>> {
    let grammar = grammar();
    let reader = AsciidocReader::new();
    let mut parser = AsciidocParser::new();
    let mut env = Env::new();
    loop {
        match reader.parse(input, opts, &parser, &env) {
            Err(Halt::Unparsed { rule, text }) => {
                assert!(parser.parse(rule, text).is_none());
                assert!(parser.record(rule, text, run(&grammar, rule, text)));
            }
            Err(Halt::Unread { path }) => {
                assert!(env.read_to_string(&path).is_none());
                let known = files.iter().find(|(name, _)| *name == path);
                let content = match known {
                    Some((_, Some(content))) => Ok(content.to_string()),
                    _ => Err("No such file or directory".to_string()),
                };
                env.record(&path, content);
            }
            done => return done,
        }
    }
}

fn read(input: &str) -> AST<'_> {
    read_with(input, &Opts::new(), &[]).unwrap()
}

fn titles<'a>(ast: &'a AST) -> Vec<(u32, &'a str)> {
    ast.elements
        .iter()
        .map(|e| match e.element {
            Element::Title { level } => (level, e.get_attribute("name").unwrap()),
            _ => panic!("no title: {:?}", e),
        })
        .collect()
}

fn spans_its_text(node: &ElementSpan, text: &str) -> bool {
    node.start <= node.end
        && node.end <= text.len()
        && node.content == &text[node.start..node.end]
        && node.children.iter().all(|child| spans_its_text(child, text))
}

#[test]
fn a_header_line_is_a_title_of_level_one() {
    let ast = read("= Header\n");
    assert_eq!(ast.elements.len(), 1);
    assert_eq!(ast.elements[0].element, Element::Title { level: 1 });
    assert_eq!(ast.elements[0].get_attribute("name"), Some("Header"));
    assert_eq!(ast.elements[0].attributes.len(), 1);
    assert_eq!(ast.content, "= Header\n");
}

#[test]
fn a_title_of_four_markers_has_level_four() {
    let ast = read("==== Deep\n");
    assert_eq!(titles(&ast), vec![(4, "Deep")]);
}

#[test]
fn a_listing_with_a_language_is_read_from_its_text() {
    let content = "[source, bash]\n----\necho \"hi\"\n----\n";
    let ast = read(content);
    assert_eq!(ast.elements.len(), 1);
    let block = &ast.elements[0];
    assert_eq!(block.element, Element::TypedBlock { kind: BlockType::Listing });
    assert_eq!(block.get_attribute("content"), Some("echo \"hi\""));
    assert_eq!(block.attributes.len(), 1);
    assert_eq!(
        block.positional_attributes,
        vec![AttributeValue::Ref("source"), AttributeValue::Ref("bash")]
    );
    assert!(block.children.is_empty());
}

#[test]
fn collapsible_blocks_are_read_from_their_text() {
    let content = r#"
[%collapsible]
====
Additional Information, that will only be shown on demand.
====
"#;
    let ast = read(content);
    assert_eq!(ast.elements.len(), 1);
    let block = &ast.elements[0];
    assert_eq!(block.element, Element::TypedBlock { kind: BlockType::Example });
    assert_eq!(block.positional_attributes, vec![AttributeValue::Ref("%collapsible")]);
    let inner = "Additional Information, that will only be shown on demand.";
    assert_eq!(block.get_attribute("content"), Some(inner));
    assert_eq!(block.children.len(), 1);
    assert_eq!(block.children[0].element, Element::Paragraph);
    assert_eq!(block.children[0].content, inner);
    assert_eq!(block.children[0].children.len(), 1);
    assert_eq!(block.children[0].children[0].element, Element::Text);
    assert_eq!(block.children[0].children[0].content, inner);
    assert_eq!((block.children[0].start, block.children[0].start_line, block.children[0].start_col), (21, 4, 1));
    assert!(spans_its_text(block, content));
}

#[test]
fn open_collapsible_blocks_are_read_from_their_text() {
    let content = r#"
[%collapsible%open]
====
This Information is visible by default.
====
"#;
    let ast = read(content);
    assert_eq!(ast.elements.len(), 1);
    let block = &ast.elements[0];
    assert_eq!(block.element, Element::TypedBlock { kind: BlockType::Example });
    assert_eq!(block.positional_attributes, vec![AttributeValue::Ref("%collapsible%open")]);
    assert_eq!(block.children.len(), 1);
    assert_eq!(block.children[0].content, "This Information is visible by default.");
}

#[test]
fn atx_headers_are_read_from_their_text() {
    let content = r#"
= This is a header

== This is a subheader

=== This is a subsubheader

==== This is a subsubsubheader
"#;
    let ast = read(content);
    assert_eq!(
        titles(&ast),
        vec![
            (1, "This is a header"),
            (2, "This is a subheader"),
            (3, "This is a subsubheader"),
            (4, "This is a subsubsubheader"),
        ]
    );
    let lines: Vec<usize> = ast.elements.iter().map(|e| e.start_line).collect();
    assert_eq!(lines, vec![2, 4, 6, 8]);
}

#[test]
fn setext_headers_are_read_from_their_text() {
    let content = r#"
This is a header
================

This is a subheader
-------------------

This is a subsubheader
~~~~~~~~~~~~~~~~~~~~~~

This is a subsubsubheader
^^^^^^^^^^^^^^^^^^^^^^^^^
"#;
    let ast = read(content);
    assert_eq!(
        titles(&ast),
        vec![
            (1, "This is a header"),
            (2, "This is a subheader"),
            (3, "This is a subsubheader"),
            (4, "This is a subsubsubheader"),
        ]
    );
}

#[test]
fn sourcecode_blocks_are_read_from_their_text() {
    let content = r#"
[source, bash]
----
echo "hello world!"
----
"#;
    let ast = read(content);
    assert_eq!(ast.elements.len(), 1);
    let block = &ast.elements[0];
    assert_eq!(block.element, Element::TypedBlock { kind: BlockType::Listing });
    assert_eq!(block.get_attribute("content"), Some("echo \"hello world!\""));
    assert_eq!(
        block.positional_attributes,
        vec![AttributeValue::Ref("source"), AttributeValue::Ref("bash")]
    );
}

#[test]
fn an_example_with_one_paragraph_has_one_content_and_one_child() {
    let content = "====\nJust one paragraph.\n====\n";
    let ast = read(content);
    assert_eq!(ast.elements.len(), 1);
    let block = &ast.elements[0];
    assert_eq!(block.element, Element::TypedBlock { kind: BlockType::Example });
    let contents: Vec<_> = block.attributes.iter().filter(|a| a.key == "content").collect();
    assert_eq!(contents.len(), 1);
    assert_eq!(contents[0].value, AttributeValue::Ref("Just one paragraph."));
    assert_eq!(block.children.len(), 1);
    assert_eq!(block.children[0].element, Element::Paragraph);
    assert_eq!(block.children[0].content, "Just one paragraph.");
}

#[test]
fn examples_in_examples_are_followed_as_deep_as_allowed() {
    let content = "======\n====\nDeep inside.\n====\n======\n";
    let ast = read(content);
    let outer = &ast.elements[0];
    assert_eq!(outer.element, Element::TypedBlock { kind: BlockType::Example });
    assert_eq!(outer.get_attribute("content"), Some("====\nDeep inside.\n===="));
    assert_eq!(outer.children.len(), 1);
    let inner = &outer.children[0];
    assert_eq!(inner.element, Element::TypedBlock { kind: BlockType::Example });
    assert_eq!(inner.children.len(), 1);
    assert_eq!(inner.children[0].content, "Deep inside.");
    assert_eq!((inner.start, inner.start_line), (7, 2));
    assert_eq!((inner.children[0].start, inner.children[0].start_line), (12, 3));
    assert!(spans_its_text(outer, content));
    let shallow = Opts { input: None, max_depth: 1 };
    assert_eq!(read_with(content, &shallow, &[]).unwrap_err(), Halt::TooDeep);
    let enough = Opts { input: None, max_depth: 2 };
    assert!(read_with(content, &enough, &[]).is_ok());
}

#[test]
fn a_paragraph_is_read_with_what_stands_in_its_lines() {
    let content = "Some *bold* and `fixed` text, https://example.org/x[a site] and <<sec-2,see there>>.\n";
    let ast = read(content);
    assert_eq!(ast.elements.len(), 1);
    let paragraph = &ast.elements[0];
    assert_eq!(paragraph.element, Element::Paragraph);
    let kinds: Vec<&Element> = paragraph.children.iter().map(|c| &c.element).collect();
    assert_eq!(
        kinds,
        vec![
            &Element::Text,
            &Element::Styled,
            &Element::Text,
            &Element::Styled,
            &Element::Text,
            &Element::Link,
            &Element::Text,
            &Element::XRef,
            &Element::Text,
        ]
    );
    let bold = &paragraph.children[1];
    assert_eq!(bold.get_attribute("style"), Some("strong"));
    assert_eq!(bold.get_attribute("content"), Some("bold"));
    let fixed = &paragraph.children[3];
    assert_eq!(fixed.get_attribute("style"), Some("monospaced"));
    assert_eq!(fixed.get_attribute("content"), Some("fixed"));
    let link = &paragraph.children[5];
    assert_eq!(link.get_attribute("url"), Some("https://example.org/x"));
    assert_eq!(link.get_attribute("protocol"), Some("https"));
    assert_eq!(link.positional_attributes, vec![AttributeValue::Ref("a site")]);
    let xref = &paragraph.children[7];
    assert_eq!(xref.get_attribute("id"), Some("sec-2"));
    assert_eq!(xref.get_attribute("content"), Some("see there"));
    assert_eq!(paragraph.children[8].content, ".");
    assert!(spans_its_text(paragraph, content));
}

#[test]
fn lists_are_read_with_their_items() {
    let content = "* one\n** two\n\n. first\n. second\n";
    let ast = read(content);
    assert_eq!(ast.elements.len(), 2);
    let bullets = &ast.elements[0];
    assert_eq!(bullets.element, Element::List(ListType::Bullet));
    let items: Vec<(&Element, &str)> =
        bullets.children.iter().map(|i| (&i.element, i.children[0].content)).collect();
    assert_eq!(items, vec![(&Element::ListItem(1), "one"), (&Element::ListItem(2), "two")]);
    let numbers = &ast.elements[1];
    assert_eq!(numbers.element, Element::List(ListType::Number));
    let items: Vec<(&Element, &str)> =
        numbers.children.iter().map(|i| (&i.element, i.children[0].content)).collect();
    assert_eq!(items, vec![(&Element::ListItem(1), "first"), (&Element::ListItem(1), "second")]);
    assert_eq!(numbers.start_line, 4);
    for element in ast.elements.iter() {
        assert!(spans_its_text(element, content));
    }
}

#[test]
fn tables_are_read_with_their_rows_and_cells() {
    let content = "[[prices]]\n.Prices\n[cols=\"1,a\"]\n|===\n| apple | 1\n| pear  | 2\n|===\n";
    let ast = read(content);
    assert_eq!(ast.elements.len(), 1);
    let table = &ast.elements[0];
    assert_eq!(table.element, Element::Table);
    assert_eq!(table.get_attribute("anchor"), Some("prices"));
    assert_eq!(table.get_attribute("title"), Some("Prices"));
    assert_eq!(table.get_attribute("cols"), Some("1,a"));
    assert_eq!(table.get_attribute("content"), Some("| apple | 1\n| pear  | 2"));
    let cells: Vec<Vec<&str>> =
        table.children.iter().map(|row| row.children.iter().map(|c| c.content).collect()).collect();
    assert_eq!(cells, vec![vec!["apple", "1"], vec!["pear", "2"]]);
    let documents: Vec<Vec<usize>> =
        table.children.iter().map(|row| row.children.iter().map(|c| c.children.len()).collect()).collect();
    assert_eq!(documents, vec![vec![0, 1], vec![0, 1]]);
    let two = &table.children[1].children[1];
    assert_eq!(two.children[0].element, Element::Paragraph);
    assert_eq!(two.children[0].content, "2");
    assert_eq!((two.start_line, two.start_col), (6, 11));
    assert_eq!((two.children[0].start_line, two.children[0].start_col), (6, 11));
    assert_eq!(table.children[1].start_line, 6);
    assert!(spans_its_text(table, content));
    for row in table.children.iter() {
        assert_eq!(row.element, Element::TableRow);
    }
}

#[test]
fn a_table_body_that_the_grammar_rejects_fails_the_document() {
    let content = "|===\nno cells here\n|===\n";
    match read_with(content, &Opts::new(), &[]) {
        Err(Halt::Syntax { message }) => assert!(!message.is_empty()),
        other => panic!("{:?}", other),
    }
}

#[test]
fn an_inline_image_is_read_with_the_content_of_its_file() {
    let content = "image::pics/a.svg[A picture, opts=inline]\n";
    let ast = read_with(content, &Opts::new(), &[("pics/a.svg", Some("<svg/>"))]).unwrap();
    assert_eq!(ast.elements.len(), 1);
    let image = &ast.elements[0];
    assert_eq!(image.element, Element::Image);
    assert_eq!(image.get_attribute("path"), Some("pics/a.svg"));
    assert_eq!(image.get_attribute("opts"), Some("inline"));
    assert_eq!(image.get_attribute("content"), Some("<svg/>"));
    assert_eq!(image.positional_attributes, vec![AttributeValue::Ref("A picture")]);
}

#[test]
fn an_inline_image_with_an_unreadable_file_is_read_without_content() {
    let content = "Before.\n\nimage::missing.svg[opts=inline]\n\nAfter.\n";
    let ast = read_with(content, &Opts::new(), &[("missing.svg", None)]).unwrap();
    assert_eq!(ast.elements.len(), 3);
    let image = &ast.elements[1];
    assert_eq!(image.element, Element::Image);
    assert_eq!(image.get_attribute("path"), Some("missing.svg"));
    assert_eq!(image.get_attribute("content"), None);
    assert_eq!(ast.elements[0].content.trim_end(), "Before.");
    assert_eq!(ast.elements[2].content.trim_end(), "After.");
    let mut env = Env::new();
    env.record("missing.svg", Err("No such file or directory".to_string()));
    assert_eq!(
        diagnostics(&ast, &env),
        vec!["couldn't read content of image file missing.svg (No such file or directory)".to_string()]
    );
    let read = read_with(content, &Opts::new(), &[("missing.svg", Some("<svg/>"))]).unwrap();
    assert_eq!(read.elements[0], ast.elements[0]);
    assert_eq!(read.elements[2], ast.elements[2]);
    assert_eq!(read.elements[1].get_attribute("content"), Some("<svg/>"));
}

#[test]
fn every_rule_of_the_grammar_has_its_name() {
    let (_, rules) = pest_meta::parse_and_optimize(GRAMMAR).unwrap();
    let silent = ["asciidoc", "eol", "blank", "delimited_body", "paragraph_line", "paragraph_end"];
    let unnamed = ["bare_attribute_value", "address"];
    for rule in rules.iter() {
        let name = rule.name.as_str();
        if silent.contains(&name) {
            continue;
        }
        let found = Rule::from_name(name);
        if unnamed.contains(&name) {
            assert_eq!(found, Rule::Unknown);
        } else {
            assert_eq!(found.name(), name);
        }
    }
    assert_eq!(Rule::from_name("EOI"), Rule::EOI);
    assert_eq!(Rule::from_name("asciidoc"), Rule::Asciidoc);
    assert_eq!(Rule::from_name("no_such_rule"), Rule::Unknown);
    assert_eq!(Rule::from_name("unknown"), Rule::Unknown);
}
