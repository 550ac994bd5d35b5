use asciidoctrine::cst::{are_within, Pair, Rule};
use asciidoctrine::element::{from_element, set_span};
use asciidoctrine::source::{position_at, text_at};
use asciidoctrine::text::{chars_of, is_space, measure_marker, same_text, trim_str};
use asciidoctrine::Element;

#[test]
fn text_between_offsets() {
    let src = "one two three";
    assert_eq!(text_at(src, 4, 7), "two");
    assert_eq!(text_at(src, 0, 0), "");
    assert_eq!(text_at(src, 8, 13), "three");
}

#[test]
fn text_between_offsets_counts_bytes() {
    let src = "é=ü";
    assert_eq!(text_at(src, 0, 2), "é");
    assert_eq!(text_at(src, 2, 3), "=");
    assert_eq!(text_at(src, 3, 5), "ü");
}

#[test]
fn positions_count_lines_and_columns_from_one() {
    let src = "ab\ncd\n\nef";
    assert_eq!(position_at(src, 0), (1, 1));
    assert_eq!(position_at(src, 2), (1, 3));
    assert_eq!(position_at(src, 3), (2, 1));
    assert_eq!(position_at(src, 5), (2, 3));
    assert_eq!(position_at(src, 6), (3, 1));
    assert_eq!(position_at(src, 7), (4, 1));
    assert_eq!(position_at(src, 9), (4, 3));
}

#[test]
fn positions_count_characters_not_bytes() {
    let src = "éé\nü!";
    assert_eq!(position_at(src, 4), (1, 3));
    assert_eq!(position_at(src, 5), (2, 1));
    assert_eq!(position_at(src, 7), (2, 2));
}

#[test]
fn carriage_return_before_a_line_feed_starts_no_line_of_its_own() {
    let src = "a\r\nb\rc";
    assert_eq!(position_at(src, 1), (1, 2));
    assert_eq!(position_at(src, 2), (1, 3));
    assert_eq!(position_at(src, 3), (2, 1));
    assert_eq!(position_at(src, 4), (2, 2));
    assert_eq!(position_at(src, 5), (2, 3));
    assert_eq!(position_at(src, 6), (2, 4));
}

#[test]
fn nodes_lie_within_their_text() {
    let src = "één";
    let good = Pair { rule: Rule::Line, start: 0, end: 5, inner: vec![Pair::leaf(Rule::Word, 2, 4)] };
    assert!(good.is_within(src));
    let splits_a_character = Pair::leaf(Rule::Line, 0, 3);
    assert!(!splits_a_character.is_within(src));
    let backwards = Pair::leaf(Rule::Line, 3, 1);
    assert!(!backwards.is_within(src));
    let beyond = Pair::leaf(Rule::Line, 0, 6);
    assert!(!beyond.is_within(src));
    let bad_inside = Pair::node(Rule::Line, 0, 5, vec![Pair::leaf(Rule::Word, 4, 9)]);
    assert!(!bad_inside.is_within(src));
    assert!(are_within(&vec![good], src));
    assert!(!are_within(&vec![Pair::leaf(Rule::Line, 0, 2), bad_inside], src));
    assert!(are_within(&Vec::new(), src));
}

#[test]
fn a_node_starts_with_its_place_and_nothing_else() {
    let src = "first\nsecond line\n";
    let pair = Pair::leaf(Rule::OtherInline, 6, 17);
    let node = from_element(src, 0, &pair, Element::Text);
    assert_eq!(node.element, Element::Text);
    assert_eq!(node.content, "second line");
    assert_eq!(node.content, &src[node.start..node.end]);
    assert_eq!((node.start, node.end), (6, 17));
    assert_eq!((node.start_line, node.start_col), (2, 1));
    assert_eq!((node.end_line, node.end_col), (2, 12));
    assert!(node.children.is_empty());
    assert!(node.attributes.is_empty());
    assert!(node.positional_attributes.is_empty());
}

#[test]
fn a_node_without_a_builder_names_its_rule() {
    let src = "whatever";
    let node = set_span(src, 0, &Pair::leaf(Rule::Unknown, 0, 8));
    assert_eq!(node.element, Element::Error("Not implemented: unknown".to_string()));
    assert_eq!(node.content, "whatever");
    let node = set_span(src, 0, &Pair::leaf(Rule::DelimitedInner, 0, 4));
    assert_eq!(node.element, Element::Error("Not implemented: delimited_inner".to_string()));
    assert_eq!(node.content, "what");
}

#[test]
fn rules_have_their_names_in_the_grammar() {
    assert_eq!(Rule::EOI.name(), "EOI");
    assert_eq!(Rule::NumberBulletListElement.name(), "number_bullet_list_element");
    assert_eq!(Rule::AtxTitleStyle.name(), "atx_title_style");
    assert_eq!(Rule::Xref.name(), "xref");
}

#[test]
fn markers_are_measured_trimmed() {
    assert_eq!(measure_marker("== "), 2);
    assert_eq!(measure_marker("  ***\t"), 3);
    assert_eq!(measure_marker("   "), 0);
    assert_eq!(measure_marker(""), 0);
    assert_eq!(measure_marker("\u{a0}..\u{2003}\n"), 2);
    assert_eq!(measure_marker("é"), 2);
}

#[test]
fn texts_are_the_same_when_their_characters_are() {
    assert!(same_text("inline", "inline"));
    assert!(!same_text("inline", "inlin"));
    assert!(!same_text("inline", "inlinE"));
    assert!(same_text("", ""));
    assert!(same_text("ü", "\u{fc}"));
}

#[test]
fn characters_come_one_by_one() {
    assert_eq!(chars_of("aé,b"), vec!['a', 'é', ',', 'b']);
    assert_eq!(chars_of(""), Vec::<char>::new());
}

#[test]
fn trimming_takes_off_white_space_at_both_ends() {
    assert_eq!(trim_str("  a b \t\n"), "a b");
    assert_eq!(trim_str("a b"), "a b");
    assert_eq!(trim_str(" \u{3000}\r\n"), "");
    assert_eq!(trim_str(""), "");
    assert_eq!(trim_str("\u{2028}é \u{a0}ü\u{1680}"), "é \u{a0}ü");
    assert_eq!(trim_str("\u{200b}a\u{200b}"), "\u{200b}a\u{200b}");
}

#[test]
fn white_space_is_what_unicode_calls_so() {
    for code in 0u32..0x11000 {
        if let Some(c) = char::from_u32(code) {
            assert_eq!(is_space(c), c.is_whitespace(), "U+{:04X}", code);
        }
    }
    for c in ['\u{9}', ' ', '\u{85}', '\u{2005}', '\u{205f}', 'x', '\u{180e}', '\u{feff}'] {
        let text = format!("{}{}x{}y{}", c, c, c, c);
        assert_eq!(trim_str(&text), text.trim());
    }
}
