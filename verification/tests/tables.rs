use asciidoctrine::cst::{Pair, Rule};
use asciidoctrine::dispatch::{process_inner_table, process_table_cell, process_table_row, span_of_cell};
use asciidoctrine::element::set_span;
use asciidoctrine::{
    process_element, AsciidocParser, AttributeValue, CellFormat, CellKind, Element, ElementSpan, Env,
    Halt,
};

fn at(rule: Rule, src: &str, part: &str, inner: Vec<Pair>) -> Pair {
    let start = src.find(part).unwrap();
    Pair { rule, start, end: start + part.len(), inner }
}

fn cell(src: &str, whole: &str, content: &str) -> Pair {
    at(Rule::TableCell, src, whole, vec![at(Rule::TableCellContent, src, content, vec![])])
}

fn paragraph_document(text: &str) -> Vec<Pair> {
    vec![
        Pair {
            rule: Rule::Paragraph,
            start: 0,
            end: text.len(),
            inner: vec![Pair { rule: Rule::OtherInline, start: 0, end: text.len(), inner: vec![] }],
        },
        Pair { rule: Rule::EOI, start: text.len(), end: text.len(), inner: vec![] },
    ]
}

fn lies_in(node: &ElementSpan, text: &str) -> bool {
    node.start <= node.end
        && node.end <= text.len()
        && node.content == &text[node.start..node.end]
        && node.children.iter().all(|child| lies_in(child, text))
}

const TEXT: CellFormat = CellFormat { length: 1, kind: CellKind::Default };
const DOCUMENT: CellFormat = CellFormat { length: 1, kind: CellKind::Asciidoc };

#[test]
fn a_cell_holds_its_text_trimmed() {
    let src = "|  one two \t|three";
    let first = cell(src, "|  one two \t", "  one two \t");
    assert_eq!(span_of_cell(src, 0, &first), (3, 10));
    let node = process_element(src, 0, &first, &AsciidocParser::new(), &Env::new(), 0).unwrap().unwrap();
    assert_eq!(node.element, Element::TableCell);
    assert_eq!(node.content, "one two");
    assert_eq!((node.start, node.end), (3, 10));
    assert_eq!((node.start_line, node.start_col, node.end_line, node.end_col), (1, 4, 1, 11));
    assert!(node.children.is_empty());
    assert!(node.attributes.is_empty());
}

#[test]
fn a_cell_of_white_space_is_empty_where_its_content_starts() {
    let src = "| \u{a0}\t|x";
    let blank = cell(src, "| \u{a0}\t", " \u{a0}\t");
    let node = process_element(src, 0, &blank, &AsciidocParser::new(), &Env::new(), 0).unwrap().unwrap();
    assert_eq!(node.content, "");
    assert_eq!(node.start, node.end);
    assert!(lies_in(&node, src));
}

#[test]
fn a_cell_without_content_is_empty() {
    let src = "||x";
    let empty = at(Rule::TableCell, src, "|", vec![at(Rule::Unknown, src, "|", vec![])]);
    assert_eq!(span_of_cell(src, 0, &empty), (1, 1));
    let node = process_element(src, 0, &empty, &AsciidocParser::new(), &Env::new(), 0).unwrap().unwrap();
    assert_eq!(node.element, Element::TableCell);
    assert_eq!(node.content, "");
    assert_eq!((node.start, node.end), (1, 1));
}

#[test]
fn the_first_content_of_a_cell_counts() {
    let src = "| a | b";
    let both = at(
        Rule::TableCell,
        src,
        src,
        vec![
            at(Rule::Unknown, src, "|", vec![]),
            at(Rule::TableCellContent, src, " a ", vec![]),
            at(Rule::TableCellContent, src, " b", vec![]),
        ],
    );
    assert_eq!(span_of_cell(src, 0, &both), (2, 3));
}

#[test]
fn the_offsets_of_a_cell_count_characters_as_bytes() {
    let src = "|\u{2003}é ü\u{2003}|";
    let pair = cell(src, "|\u{2003}é ü\u{2003}", "\u{2003}é ü\u{2003}");
    let node = process_element(src, 0, &pair, &AsciidocParser::new(), &Env::new(), 0).unwrap().unwrap();
    assert_eq!(node.content, "é ü");
    assert_eq!((node.start, node.end), (4, 9));
    assert_eq!((node.start_col, node.end_col), (3, 6));
}

#[test]
fn a_row_by_itself_has_cells_of_text() {
    let src = "| a | b | c\n";
    let row = at(
        Rule::TableRow,
        src,
        "| a | b | c",
        vec![cell(src, "| a ", " a "), cell(src, "| b ", " b "), cell(src, "| c", " c")],
    );
    let node = process_element(src, 0, &row, &AsciidocParser::new(), &Env::new(), 0).unwrap().unwrap();
    assert_eq!(node.element, Element::TableRow);
    assert_eq!(node.content, "| a | b | c");
    assert_eq!(node.children.len(), 3);
    let contents: Vec<&str> = node.children.iter().map(|c| c.content).collect();
    assert_eq!(contents, vec!["a", "b", "c"]);
    let places: Vec<(usize, usize)> = node.children.iter().map(|c| (c.start, c.end)).collect();
    assert_eq!(places, vec![(2, 3), (6, 7), (10, 11)]);
    for child in node.children.iter() {
        assert_eq!(child.element, Element::TableCell);
        assert!(child.children.is_empty());
        assert!(child.attributes.is_empty());
    }
    assert!(lies_in(&node, src));
}

#[test]
fn cells_take_nothing_over_from_their_row() {
    let src = "| a | b | c\n";
    let row = at(
        Rule::TableRow,
        src,
        "| a | b | c",
        vec![cell(src, "| a ", " a "), cell(src, "| b ", " b "), cell(src, "| c", " c")],
    );
    let mut base = set_span(src, 0, &row);
    base.add_attribute("role", AttributeValue::Ref("wide"));
    let node =
        process_table_row(src, 0, &row, base, &vec![TEXT], &AsciidocParser::new(), &Env::new(), 0).unwrap();
    assert_eq!(node.get_attribute("role"), Some("wide"));
    assert_eq!((node.start, node.end), (0, 11));
    assert_eq!(node.children.len(), 3);
    for child in node.children.iter() {
        assert_eq!(child.children.len(), 0);
        assert_eq!(child.get_attribute("role"), None);
    }
}

#[test]
fn formats_are_given_to_the_cells_of_a_row_in_turn() {
    let src = "|1|2|3|4|5";
    let row = at(
        Rule::TableRow,
        src,
        src,
        vec![cell(src, "|1", "1"), cell(src, "|2", "2"), cell(src, "|3", "3"), cell(src, "|4", "4"), cell(src, "|5", "5")],
    );
    let mut parser = AsciidocParser::new();
    for text in ["2", "4"] {
        assert!(parser.record(Rule::Asciidoc, text, Ok(paragraph_document(text))));
    }
    let formats = vec![TEXT, DOCUMENT];
    let node =
        process_table_row(src, 0, &row, set_span(src, 0, &row), &formats, &parser, &Env::new(), 1).unwrap();
    assert_eq!(node.children.len(), 5);
    let nested: Vec<bool> = node
        .children
        .iter()
        .map(|c| c.children.len() == 1 && c.children[0].element == Element::Paragraph)
        .collect();
    assert_eq!(nested, vec![false, true, false, true, false]);
    let plain: Vec<bool> = node.children.iter().map(|c| c.children.is_empty()).collect();
    assert_eq!(plain, vec![true, false, true, false, true]);
    assert_eq!((node.children[3].children[0].start, node.children[3].children[0].end), (7, 8));
    assert!(lies_in(&node, src));
    let halt =
        process_table_row(src, 0, &row, set_span(src, 0, &row), &vec![DOCUMENT], &parser, &Env::new(), 1)
            .unwrap_err();
    assert_eq!(halt, Halt::Unparsed { rule: Rule::Asciidoc, text: "1" });
}

#[test]
fn a_row_without_formats_has_no_cells() {
    let src = "|1|2";
    let row = at(Rule::TableRow, src, src, vec![cell(src, "|1", "1"), cell(src, "|2", "2")]);
    let node = process_table_row(
        src,
        0,
        &row,
        set_span(src, 0, &row),
        &Vec::new(),
        &AsciidocParser::new(),
        &Env::new(),
        0,
    )
    .unwrap();
    assert_eq!(node.element, Element::TableRow);
    assert!(node.children.is_empty());
}

#[test]
fn a_cell_that_holds_a_document_has_its_elements() {
    let src = "| Some text. ";
    let pair = cell(src, src, " Some text. ");
    let mut parser = AsciidocParser::new();
    let env = Env::new();
    let halt =
        process_table_cell(src, 0, &pair, set_span(src, 0, &pair), &DOCUMENT, &parser, &env, 1).unwrap_err();
    assert_eq!(halt, Halt::Unparsed { rule: Rule::Asciidoc, text: "Some text." });
    assert!(parser.record(Rule::Asciidoc, "Some text.", Ok(paragraph_document("Some text."))));
    let halt =
        process_table_cell(src, 0, &pair, set_span(src, 0, &pair), &DOCUMENT, &parser, &env, 0).unwrap_err();
    assert_eq!(halt, Halt::TooDeep);
    let node = process_table_cell(src, 0, &pair, set_span(src, 0, &pair), &DOCUMENT, &parser, &env, 1).unwrap();
    assert_eq!(node.element, Element::TableCell);
    assert_eq!(node.content, "Some text.");
    assert_eq!((node.start, node.end), (2, 12));
    assert_eq!(node.children.len(), 1);
    assert_eq!(node.children[0].element, Element::Paragraph);
    assert_eq!(node.children[0].content, "Some text.");
    assert_eq!((node.children[0].start, node.children[0].end), (2, 12));
    assert_eq!((node.children[0].start_line, node.children[0].start_col), (1, 3));
    assert!(lies_in(&node, src));
    let text = process_table_cell(src, 0, &pair, set_span(src, 0, &pair), &TEXT, &parser, &env, 0).unwrap();
    assert!(text.children.is_empty());
    assert_eq!(text.content, "Some text.");
}

fn table(src: &str, cols: &str, body: &str) -> Pair {
    let fenced = format!("|===\n{}\n|===", body);
    let named = format!("cols=\"{}\"", cols);
    let list = format!("[{}]", named);
    let quoted = format!("\"{}\"", cols);
    at(
        Rule::DelimitedBlock,
        src,
        src.trim_end(),
        vec![
            at(
                Rule::AttributeList,
                src,
                &list,
                vec![at(
                    Rule::InlineAttributeList,
                    src,
                    &named,
                    vec![at(
                        Rule::Attribute,
                        src,
                        &named,
                        vec![at(
                            Rule::NamedAttribute,
                            src,
                            &named,
                            vec![
                                at(Rule::Identifier, src, "cols", vec![]),
                                at(
                                    Rule::AttributeValue,
                                    src,
                                    &quoted,
                                    vec![at(Rule::InnerAttributeValue, src, cols, vec![])],
                                ),
                            ],
                        )],
                    )],
                )],
            ),
            at(Rule::DelimitedTable, src, &fenced, vec![at(Rule::DelimitedInner, src, body, vec![])]),
        ],
    )
}

fn body_rows(body: &str) -> Vec<Pair> {
    vec![at(
        Rule::TableInner,
        body,
        body,
        vec![
            at(
                Rule::TableRow,
                body,
                "| a | b | c",
                vec![cell(body, "| a ", " a "), cell(body, "| b ", " b "), cell(body, "| c", " c")],
            ),
            at(Rule::TableRow, body, "| d | e", vec![cell(body, "| d ", " d "), cell(body, "| e", " e")]),
            Pair::leaf(Rule::EOI, body.len(), body.len()),
        ],
    )]
}

#[test]
fn the_columns_of_a_table_give_the_cells_of_its_rows_their_formats() {
    let body = "| a | b | c\n| d | e";
    let src = "[cols=\"1,a\"]\n|===\n| a | b | c\n| d | e\n|===\n";
    let pair = table(src, "1,a", body);
    assert!(pair.is_within(src));
    let mut parser = AsciidocParser::new();
    let env = Env::new();
    let halt = process_element(src, 0, &pair, &parser, &env, 2).unwrap_err();
    assert_eq!(halt, Halt::Unparsed { rule: Rule::TableInner, text: body });
    assert!(parser.record(Rule::TableInner, body, Ok(body_rows(body))));
    assert_eq!(process_element(src, 0, &pair, &parser, &env, 0).unwrap_err(), Halt::TooDeep);
    let halt = process_element(src, 0, &pair, &parser, &env, 2).unwrap_err();
    assert_eq!(halt, Halt::Unparsed { rule: Rule::Asciidoc, text: "b" });
    assert!(parser.record(Rule::Asciidoc, "b", Ok(paragraph_document("b"))));
    assert_eq!(process_element(src, 0, &pair, &parser, &env, 1).unwrap_err(), Halt::TooDeep);
    let halt = process_element(src, 0, &pair, &parser, &env, 2).unwrap_err();
    assert_eq!(halt, Halt::Unparsed { rule: Rule::Asciidoc, text: "e" });
    assert!(parser.record(Rule::Asciidoc, "e", Ok(paragraph_document("e"))));
    let node = process_element(src, 0, &pair, &parser, &env, 2).unwrap().unwrap();
    assert_eq!(node.element, Element::Table);
    assert_eq!(node.get_attribute("cols"), Some("1,a"));
    assert_eq!(node.get_attribute("content"), Some(body));
    let keys: Vec<&str> = node.attributes.iter().map(|a| a.key.as_str()).collect();
    assert_eq!(keys, vec!["cols", "content"]);
    assert_eq!(node.children.len(), 2);
    let cells: Vec<Vec<&str>> =
        node.children.iter().map(|row| row.children.iter().map(|c| c.content).collect()).collect();
    assert_eq!(cells, vec![vec!["a", "b", "c"], vec!["d", "e"]]);
    let documents: Vec<Vec<usize>> =
        node.children.iter().map(|row| row.children.iter().map(|c| c.children.len()).collect()).collect();
    assert_eq!(documents, vec![vec![0, 1, 0], vec![0, 1]]);
    for row in node.children.iter() {
        assert_eq!(row.element, Element::TableRow);
        assert!(row.attributes.is_empty());
    }
    let second = &node.children[1];
    assert_eq!(second.content, "| d | e");
    assert_eq!((second.start, second.end), (30, 37));
    assert_eq!((second.start_line, second.start_col), (4, 1));
    let e = &second.children[1];
    assert_eq!((e.start, e.end), (36, 37));
    assert_eq!((e.start_line, e.start_col), (4, 7));
    assert_eq!(e.children[0].element, Element::Paragraph);
    assert_eq!((e.children[0].start, e.children[0].end), (36, 37));
    assert_eq!((e.children[0].start_line, e.children[0].start_col), (4, 7));
    assert!(lies_in(&node, src));
}

#[test]
fn a_table_without_columns_has_cells_of_text() {
    let body = "| a | b | c\n| d | e";
    let src = "|===\n| a | b | c\n| d | e\n|===\n";
    let fenced = src.trim_end();
    let pair = at(
        Rule::DelimitedBlock,
        src,
        fenced,
        vec![at(Rule::DelimitedTable, src, fenced, vec![at(Rule::DelimitedInner, src, body, vec![])])],
    );
    let mut parser = AsciidocParser::new();
    assert!(parser.record(Rule::TableInner, body, Ok(body_rows(body))));
    let node = process_element(src, 0, &pair, &parser, &Env::new(), 1).unwrap().unwrap();
    assert_eq!(node.element, Element::Table);
    assert_eq!(node.children.len(), 2);
    for row in node.children.iter() {
        for cell in row.children.iter() {
            assert_eq!(cell.element, Element::TableCell);
            assert!(cell.children.is_empty());
        }
    }
    assert!(lies_in(&node, src));
}

#[test]
fn a_row_directly_in_a_table_starts_from_its_own_node() {
    let src = "[cols=\"1,a\"]\n|===\n| a | b\n|===\n";
    let row = at(Rule::TableRow, src, "| a | b", vec![cell(src, "| a ", " a "), cell(src, "| b", " b")]);
    let whole = at(Rule::DelimitedTable, src, "|===\n| a | b\n|===", vec![row]);
    let mut base = set_span(src, 0, &whole);
    base.element = Element::Table;
    base.add_attribute("cols", AttributeValue::Ref("1,a"));
    let mut parser = AsciidocParser::new();
    let env = Env::new();
    let halt = process_inner_table(src, 0, &whole, base.duplicate(), &parser, &env, 1).unwrap_err();
    assert_eq!(halt, Halt::Unparsed { rule: Rule::Asciidoc, text: "b" });
    assert!(parser.record(Rule::Asciidoc, "b", Ok(paragraph_document("b"))));
    let node = process_inner_table(src, 0, &whole, base, &parser, &env, 1).unwrap();
    assert_eq!(node.element, Element::Table);
    assert_eq!(node.children.len(), 1);
    let row = &node.children[0];
    assert_eq!(row.element, Element::TableRow);
    assert_eq!(row.content, "| a | b");
    assert_eq!((row.start, row.end), (18, 25));
    assert!(row.attributes.is_empty());
    assert_eq!(row.children.len(), 2);
    assert_eq!(row.children[0].content, "a");
    assert_eq!(row.children[0].children.len(), 0);
    assert_eq!(row.children[1].content, "b");
    assert_eq!(row.children[1].children.len(), 1);
    assert_eq!(row.children[1].children[0].element, Element::Paragraph);
    assert!(lies_in(&node, src));
}
