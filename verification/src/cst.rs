//! The syntax tree that the grammar gives for a text.

use vstd::prelude::*;
use crate::text::{byte_len, lemma_span_fits, lemma_window, same_text, slice, valid_span};
use crate::source::text_at;

verus! {

/// The kinds of syntax node, one for each rule of the grammar that the reader
/// knows by name.
#[derive(Clone, Copy, PartialEq, Eq, Structural, Debug)]
pub enum Rule {
    Asciidoc,
    Header,
    Block,
    Title,
    TitleBlock,
    AtxTitleStyle,
    SetextTitleStyle,
    Line,
    Anchor,
    InlineAnchor,
    Identifier,
    AttributeList,
    InlineAttributeList,
    Attribute,
    AttributeValue,
    InnerAttributeValue,
    NamedAttribute,
    Blocktitle,
    DelimitedBlock,
    DelimitedTable,
    DelimitedComment,
    DelimitedSource,
    DelimitedLiteral,
    DelimitedExample,
    DelimitedInner,
    TableInner,
    TableRow,
    TableCell,
    TableCellContent,
    Paragraph,
    Inline,
    OtherInline,
    Link,
    Url,
    Proto,
    Path,
    Xref,
    Word,
    Monospaced,
    Strong,
    Emphasized,
    Linechar,
    List,
    ListParagraph,
    OtherListInline,
    Continuation,
    BulletList,
    BulletListElement,
    Bullet,
    NumberedList,
    NumberBulletListElement,
    NumberBullet,
    ListElement,
    ImageBlock,
    EOI,
    /// A rule of the grammar that has no name here.
    Unknown,
}

impl Rule {
    /// The rule's name in the grammar.
    pub open spec fn spec_name(self) -> Seq<char> {
        match self {
            Rule::Asciidoc => "asciidoc"@,
            Rule::Header => "header"@,
            Rule::Block => "block"@,
            Rule::Title => "title"@,
            Rule::TitleBlock => "title_block"@,
            Rule::AtxTitleStyle => "atx_title_style"@,
            Rule::SetextTitleStyle => "setext_title_style"@,
            Rule::Line => "line"@,
            Rule::Anchor => "anchor"@,
            Rule::InlineAnchor => "inline_anchor"@,
            Rule::Identifier => "identifier"@,
            Rule::AttributeList => "attribute_list"@,
            Rule::InlineAttributeList => "inline_attribute_list"@,
            Rule::Attribute => "attribute"@,
            Rule::AttributeValue => "attribute_value"@,
            Rule::InnerAttributeValue => "inner_attribute_value"@,
            Rule::NamedAttribute => "named_attribute"@,
            Rule::Blocktitle => "blocktitle"@,
            Rule::DelimitedBlock => "delimited_block"@,
            Rule::DelimitedTable => "delimited_table"@,
            Rule::DelimitedComment => "delimited_comment"@,
            Rule::DelimitedSource => "delimited_source"@,
            Rule::DelimitedLiteral => "delimited_literal"@,
            Rule::DelimitedExample => "delimited_example"@,
            Rule::DelimitedInner => "delimited_inner"@,
            Rule::TableInner => "table_inner"@,
            Rule::TableRow => "table_row"@,
            Rule::TableCell => "table_cell"@,
            Rule::TableCellContent => "table_cell_content"@,
            Rule::Paragraph => "paragraph"@,
            Rule::Inline => "inline"@,
            Rule::OtherInline => "other_inline"@,
            Rule::Link => "link"@,
            Rule::Url => "url"@,
            Rule::Proto => "proto"@,
            Rule::Path => "path"@,
            Rule::Xref => "xref"@,
            Rule::Word => "word"@,
            Rule::Monospaced => "monospaced"@,
            Rule::Strong => "strong"@,
            Rule::Emphasized => "emphasized"@,
            Rule::Linechar => "linechar"@,
            Rule::List => "list"@,
            Rule::ListParagraph => "list_paragraph"@,
            Rule::OtherListInline => "other_list_inline"@,
            Rule::Continuation => "continuation"@,
            Rule::BulletList => "bullet_list"@,
            Rule::BulletListElement => "bullet_list_element"@,
            Rule::Bullet => "bullet"@,
            Rule::NumberedList => "numbered_list"@,
            Rule::NumberBulletListElement => "number_bullet_list_element"@,
            Rule::NumberBullet => "number_bullet"@,
            Rule::ListElement => "list_element"@,
            Rule::ImageBlock => "image_block"@,
            Rule::EOI => "EOI"@,
            Rule::Unknown => "unknown"@,
        }
    }

    /// The rule's name in the grammar.
    pub fn name(self) -> (r: &'static str)
        ensures
            r@ == self.spec_name(),
    {
        match self {
            Rule::Asciidoc => "asciidoc",
            Rule::Header => "header",
            Rule::Block => "block",
            Rule::Title => "title",
            Rule::TitleBlock => "title_block",
            Rule::AtxTitleStyle => "atx_title_style",
            Rule::SetextTitleStyle => "setext_title_style",
            Rule::Line => "line",
            Rule::Anchor => "anchor",
            Rule::InlineAnchor => "inline_anchor",
            Rule::Identifier => "identifier",
            Rule::AttributeList => "attribute_list",
            Rule::InlineAttributeList => "inline_attribute_list",
            Rule::Attribute => "attribute",
            Rule::AttributeValue => "attribute_value",
            Rule::InnerAttributeValue => "inner_attribute_value",
            Rule::NamedAttribute => "named_attribute",
            Rule::Blocktitle => "blocktitle",
            Rule::DelimitedBlock => "delimited_block",
            Rule::DelimitedTable => "delimited_table",
            Rule::DelimitedComment => "delimited_comment",
            Rule::DelimitedSource => "delimited_source",
            Rule::DelimitedLiteral => "delimited_literal",
            Rule::DelimitedExample => "delimited_example",
            Rule::DelimitedInner => "delimited_inner",
            Rule::TableInner => "table_inner",
            Rule::TableRow => "table_row",
            Rule::TableCell => "table_cell",
            Rule::TableCellContent => "table_cell_content",
            Rule::Paragraph => "paragraph",
            Rule::Inline => "inline",
            Rule::OtherInline => "other_inline",
            Rule::Link => "link",
            Rule::Url => "url",
            Rule::Proto => "proto",
            Rule::Path => "path",
            Rule::Xref => "xref",
            Rule::Word => "word",
            Rule::Monospaced => "monospaced",
            Rule::Strong => "strong",
            Rule::Emphasized => "emphasized",
            Rule::Linechar => "linechar",
            Rule::List => "list",
            Rule::ListParagraph => "list_paragraph",
            Rule::OtherListInline => "other_list_inline",
            Rule::Continuation => "continuation",
            Rule::BulletList => "bullet_list",
            Rule::BulletListElement => "bullet_list_element",
            Rule::Bullet => "bullet",
            Rule::NumberedList => "numbered_list",
            Rule::NumberBulletListElement => "number_bullet_list_element",
            Rule::NumberBullet => "number_bullet",
            Rule::ListElement => "list_element",
            Rule::ImageBlock => "image_block",
            Rule::EOI => "EOI",
            Rule::Unknown => "unknown",
        }
    }

    /// The rule that has the name `name` in the grammar; [`Rule::Unknown`] for
    /// a name that no rule has.
    pub fn from_name(name: &str) -> (r: Rule)
        ensures
            r.spec_name() == name@ || (r == Rule::Unknown && forall|rule: Rule|
                rule.spec_name() != name@),
    {
        if same_text(name, "asciidoc") {
            Rule::Asciidoc
        } else         if same_text(name, "header") {
            Rule::Header
        } else         if same_text(name, "block") {
            Rule::Block
        } else         if same_text(name, "title") {
            Rule::Title
        } else         if same_text(name, "title_block") {
            Rule::TitleBlock
        } else         if same_text(name, "atx_title_style") {
            Rule::AtxTitleStyle
        } else         if same_text(name, "setext_title_style") {
            Rule::SetextTitleStyle
        } else         if same_text(name, "line") {
            Rule::Line
        } else         if same_text(name, "anchor") {
            Rule::Anchor
        } else         if same_text(name, "inline_anchor") {
            Rule::InlineAnchor
        } else         if same_text(name, "identifier") {
            Rule::Identifier
        } else         if same_text(name, "attribute_list") {
            Rule::AttributeList
        } else         if same_text(name, "inline_attribute_list") {
            Rule::InlineAttributeList
        } else         if same_text(name, "attribute") {
            Rule::Attribute
        } else         if same_text(name, "attribute_value") {
            Rule::AttributeValue
        } else         if same_text(name, "inner_attribute_value") {
            Rule::InnerAttributeValue
        } else         if same_text(name, "named_attribute") {
            Rule::NamedAttribute
        } else         if same_text(name, "blocktitle") {
            Rule::Blocktitle
        } else         if same_text(name, "delimited_block") {
            Rule::DelimitedBlock
        } else         if same_text(name, "delimited_table") {
            Rule::DelimitedTable
        } else         if same_text(name, "delimited_comment") {
            Rule::DelimitedComment
        } else         if same_text(name, "delimited_source") {
            Rule::DelimitedSource
        } else         if same_text(name, "delimited_literal") {
            Rule::DelimitedLiteral
        } else         if same_text(name, "delimited_example") {
            Rule::DelimitedExample
        } else         if same_text(name, "delimited_inner") {
            Rule::DelimitedInner
        } else         if same_text(name, "table_inner") {
            Rule::TableInner
        } else         if same_text(name, "table_row") {
            Rule::TableRow
        } else         if same_text(name, "table_cell") {
            Rule::TableCell
        } else         if same_text(name, "table_cell_content") {
            Rule::TableCellContent
        } else         if same_text(name, "paragraph") {
            Rule::Paragraph
        } else         if same_text(name, "inline") {
            Rule::Inline
        } else         if same_text(name, "other_inline") {
            Rule::OtherInline
        } else         if same_text(name, "link") {
            Rule::Link
        } else         if same_text(name, "url") {
            Rule::Url
        } else         if same_text(name, "proto") {
            Rule::Proto
        } else         if same_text(name, "path") {
            Rule::Path
        } else         if same_text(name, "xref") {
            Rule::Xref
        } else         if same_text(name, "word") {
            Rule::Word
        } else         if same_text(name, "monospaced") {
            Rule::Monospaced
        } else         if same_text(name, "strong") {
            Rule::Strong
        } else         if same_text(name, "emphasized") {
            Rule::Emphasized
        } else         if same_text(name, "linechar") {
            Rule::Linechar
        } else         if same_text(name, "list") {
            Rule::List
        } else         if same_text(name, "list_paragraph") {
            Rule::ListParagraph
        } else         if same_text(name, "other_list_inline") {
            Rule::OtherListInline
        } else         if same_text(name, "continuation") {
            Rule::Continuation
        } else         if same_text(name, "bullet_list") {
            Rule::BulletList
        } else         if same_text(name, "bullet_list_element") {
            Rule::BulletListElement
        } else         if same_text(name, "bullet") {
            Rule::Bullet
        } else         if same_text(name, "numbered_list") {
            Rule::NumberedList
        } else         if same_text(name, "number_bullet_list_element") {
            Rule::NumberBulletListElement
        } else         if same_text(name, "number_bullet") {
            Rule::NumberBullet
        } else         if same_text(name, "list_element") {
            Rule::ListElement
        } else         if same_text(name, "image_block") {
            Rule::ImageBlock
        } else         if same_text(name, "EOI") {
            Rule::EOI
        } else {
            Rule::Unknown
        }
    }
}

/// One node of the syntax tree: the rule that matched, the bytes of the text
/// that it matched, and the nodes of the rules that matched inside it, in the
/// order of the text.
pub struct Pair {
    pub rule: Rule,
    pub start: usize,
    pub end: usize,
    pub inner: Vec<Pair>,
}

/// Every node of `pairs`, at any depth, covers whole characters of `text`,
/// its offsets counted from the byte `origin` of `text`.
pub open spec fn all_within(pairs: Seq<Pair>, text: Seq<char>, origin: int) -> bool {
    forall|i: int| 0 <= i < pairs.len() ==> (#[trigger] pairs[i]).within(text, origin)
}

impl Pair {
    /// This node and every node below it cover whole characters of `text`,
    /// their offsets counted from the byte `origin` of `text`.
    pub open spec fn within(self, text: Seq<char>, origin: int) -> bool
        decreases self,
    {
        &&& 0 <= origin
        &&& valid_span(text, origin + self.start, origin + self.end)
        &&& forall|i: int|
            0 <= i < self.inner@.len() ==> (#[trigger] self.inner@[i]).within(text, origin)
    }

    /// The characters of `text` that this node covers, its offsets counted
    /// from the byte `origin` of `text`.
    pub open spec fn text(self, text: Seq<char>, origin: int) -> Seq<char> {
        slice(text, origin + self.start, origin + self.end)
    }

    /// A node without inner nodes.
    pub fn leaf(rule: Rule, start: usize, end: usize) -> (r: Pair)
        ensures
            r.rule == rule,
            r.start == start,
            r.end == end,
            r.inner@ == Seq::<Pair>::empty(),
    {
        Pair { rule, start, end, inner: Vec::new() }
    }

    /// A node with the given inner nodes.
    pub fn node(rule: Rule, start: usize, end: usize, inner: Vec<Pair>) -> (r: Pair)
        ensures
            r.rule == rule,
            r.start == start,
            r.end == end,
            r.inner == inner,
    {
        Pair { rule, start, end, inner }
    }

    /// Says whether this node and every node below it cover whole characters
    /// of `text`, their offsets counted from the start of `text`.
    pub fn is_within(&self, text: &str) -> (r: bool)
        ensures
            r == self.within(text@, 0),
        decreases *self,
    {
        if self.start > self.end || !text.is_char_boundary(self.start) || !text.is_char_boundary(
            self.end,
        ) {
            return false;
        }
        let mut i: usize = 0;
        while i < self.inner.len()
            invariant
                i <= self.inner@.len(),
                forall|k: int| 0 <= k < i ==> (#[trigger] self.inner@[k]).within(text@, 0),
            decreases self.inner@.len() - i,
        {
            if !self.inner[i].is_within(text) {
                return false;
            }
            i = i + 1;
        }
        true
    }

    /// The characters of `text` that this node covers, its offsets counted
    /// from the byte `origin` of `text`.
    pub fn as_str<'a>(&self, text: &'a str, origin: usize) -> (r: &'a str)
        requires
            valid_span(text@, origin + self.start, origin + self.end),
        ensures
            r@ == self.text(text@, origin as int),
    {
        let all: usize = text.as_bytes().len();
        proof {
            lemma_span_fits(text@, origin + self.start, origin + self.end);
        }
        text_at(text, origin + self.start, origin + self.end)
    }
}

/// A node that lies in a text covers whole characters of it, and so does each
/// of its inner nodes.
pub proof fn lemma_within(pair: Pair, text: Seq<char>, origin: int)
    requires
        pair.within(text, origin),
    ensures
        0 <= origin,
        valid_span(text, origin + pair.start, origin + pair.end),
        origin + pair.end <= byte_len(text),
        all_within(pair.inner@, text, origin),
        forall|i: int|
            0 <= i < pair.inner@.len() ==> valid_span(
                text,
                origin + (#[trigger] pair.inner@[i]).start,
                origin + pair.inner@[i].end,
            ),
{
    reveal_with_fuel(Pair::within, 2);
    lemma_span_fits(text, origin + pair.start, origin + pair.end);
}

/// A node that lies in a piece of a text lies in the text, its offsets
/// counted from where the piece starts.
pub proof fn lemma_within_piece(pair: Pair, text: Seq<char>, from: int, to: int)
    requires
        0 <= from,
        valid_span(text, from, to),
        pair.within(slice(text, from, to), 0),
    ensures
        pair.within(text, from),
        pair.text(text, from) == pair.text(slice(text, from, to), 0),
        from + pair.end <= to,
    decreases pair,
{
    lemma_window(text, from, to, pair.start as int, pair.end as int);
    assert forall|i: int| 0 <= i < pair.inner@.len() implies (#[trigger] pair.inner@[i]).within(
        text,
        from,
    ) by {
        lemma_within_piece(pair.inner@[i], text, from, to);
    }
}

/// Nodes that lie in a piece of a text lie in the text, their offsets counted
/// from where the piece starts.
pub proof fn lemma_all_within_piece(pairs: Seq<Pair>, text: Seq<char>, from: int, to: int)
    requires
        0 <= from,
        valid_span(text, from, to),
        all_within(pairs, slice(text, from, to), 0),
    ensures
        all_within(pairs, text, from),
{
    assert forall|i: int| 0 <= i < pairs.len() implies (#[trigger] pairs[i]).within(text, from) by {
        lemma_within_piece(pairs[i], text, from, to);
    }
}

/// Says whether every node of `pairs` covers whole characters of `text`,
/// their offsets counted from the start of `text`.
pub fn are_within(pairs: &Vec<Pair>, text: &str) -> (r: bool)
    ensures
        r == all_within(pairs@, text@, 0),
{
    let mut i: usize = 0;
    while i < pairs.len()
        invariant
            i <= pairs@.len(),
            forall|k: int| 0 <= k < i ==> (#[trigger] pairs@[k]).within(text@, 0),
        decreases pairs@.len() - i,
    {
        if !pairs[i].is_within(text) {
            return false;
        }
        i = i + 1;
    }
    true
}

} // verus!
