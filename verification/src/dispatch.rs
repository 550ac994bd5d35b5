//! From syntax nodes to the nodes of the document: which node of the document
//! a syntax node becomes, and how blocks, lists and tables are put together
//! from what stands inside them.

use vstd::prelude::*;
use vstd::string::*;
use crate::ast::{
    AttributeValue,
    AttributeValueView,
    BlockType,
    Element,
    ElementSpan,
    ElementSpanView,
    ElementView,
    ListType,
};
use crate::attributes::{
    process_anchor,
    process_attribute_list,
    process_blocktitle,
    spec_process_anchor,
    spec_process_attribute_list,
    spec_process_blocktitle,
};
use crate::cst::{all_within, lemma_all_within_piece, lemma_within, Pair, Rule};
use crate::element::{
    from_element,
    node_at,
    set_span,
    spec_from_element,
    spec_node_at,
    spec_set_span,
};
use crate::fold::fold_while;
use crate::image::{process_image, spec_process_image};
use crate::inline::{process_inline, process_paragraph, spec_process_inline, spec_process_paragraph};
use crate::known::{element_result, span_result, AsciidocParser, Env, Halt, HaltView};
use crate::table::{
    cell_format_at,
    format_at,
    parse_row_format,
    row_format,
    CellFormat,
    CellKind,
};
use crate::source::text_at;
use crate::text::{
    byte_len,
    slice,
    lemma_span_fits,
    lemma_trim_span,
    lemma_window,
    marker_length,
    measure_marker,
    trim_from,
    trim_span,
    trim_to,
    valid_span,
};
use crate::title::{entitle, process_title, spec_process_title};

verus! {

/// The format of a cell of which nothing else is known: text, one column wide.
pub open spec fn default_cell_format() -> CellFormat {
    CellFormat { length: 1, kind: CellKind::Default }
}

/// The syntax nodes of the text `text` nested in a block, read from `rule`.
/// They are there where `depth` allows another level of nesting and the
/// grammar is known to accept `text`.
pub open spec fn spec_reparse(
    parser: AsciidocParser,
    rule: Rule,
    text: Seq<char>,
    depth: nat,
) -> Result<
    Seq<Pair>,
    HaltView,
> {
    if depth == 0 {
        Err(HaltView::TooDeep)
    } else {
        match parser.answer(rule, text) {
            None => Err(HaltView::Unparsed { rule, text }),
            Some(Err(message)) => Err(HaltView::Syntax { message }),
            Some(Ok(roots)) => Ok(roots),
        }
    }
}

/// Takes in one part of a header: a title, and nothing after anything else.
pub open spec fn header_step(src: Seq<char>, origin: int) -> spec_fn(ElementSpanView, Pair) -> (
    ElementSpanView,
    bool,
) {
    |base: ElementSpanView, sub: Pair|
        if sub.rule == Rule::Title {
            (spec_process_title(src, origin, sub, base), true)
        } else {
            (base, false)
        }
}

/// Takes in one part of a title block: a title or an anchor, and nothing
/// after anything else.
pub open spec fn title_block_step(
    src: Seq<char>,
    origin: int) -> spec_fn(ElementSpanView,
    Pair,
) -> (
    ElementSpanView,
    bool,
) {
    |base: ElementSpanView, sub: Pair|
        if sub.rule == Rule::Title {
            (spec_process_title(src, origin, sub, base), true)
        } else if sub.rule == Rule::Anchor {
            (spec_process_anchor(src, origin, sub, base), true)
        } else {
            (base, false)
        }
}

/// The first of `items`, from index `from` on, that is of the rule `rule`.
pub open spec fn first_of(items: Seq<Pair>, rule: Rule, from: int) -> Option<Pair>
    decreases items.len() - from,
{
    if from < 0 || from >= items.len() {
        None
    } else if items[from].rule == rule {
        Some(items[from])
    } else {
        first_of(items, rule, from + 1)
    }
}

/// Where in `src` a table cell holds something: the bytes of the first cell
/// content directly inside `element` that are left when the content is
/// trimmed; the end of the cell where there is no content.
pub open spec fn cell_span(src: Seq<char>, origin: int, element: Pair) -> (int, int) {
    match first_of(element.inner@, Rule::TableCellContent, 0) {
        Some(content) => (
            origin + content.start + trim_from(content.text(src, origin)),
            origin + content.start + trim_to(content.text(src, origin)),
        ),
        None => (origin + element.end, origin + element.end),
    }
}

/// What the syntax node `element` of the text `src` becomes. The offsets of
/// `element` count from the byte `origin` of `src`: from 0 in a document,
/// from where the text starts in a document nested in `src`. The offsets,
/// lines and columns of what it becomes count from the start of `src`.
///
/// A continuation and the end of input become nothing. A delimited block, a
/// title, a paragraph, an image, an inline element, a table row and a table
/// cell become what their builders make of them. A header and a title block
/// take in the titles (and anchors) they start with. A list of one kind
/// becomes a list with its items as children; a list item gets the trimmed
/// length of its marker and the elements of its content as children, and any
/// other part of it as an error node. A list, and a block, of no special kind
/// becomes the last thing that a part of it becomes. Everything else becomes
/// an error node that names the rule.
pub open spec fn spec_process_element(
    src: Seq<char>,
    origin: int,
    element: Pair,
    parser: AsciidocParser,
    env: Env,
    depth: nat,
) -> Result<Option<ElementSpanView>, HaltView>
    decreases depth, element, 1int,
{
    let base = spec_set_span(src, origin, element);
    match element.rule {
        Rule::DelimitedBlock => match spec_process_delimited_block(
            src,
            origin,
            element,
            parser,
            env,
            depth,
        ) {
            Ok(block) => Ok(Some(block)),
            Err(halt) => Err(halt),
        },
        Rule::Header => Ok(Some(fold_while(element.inner@, 0, base, header_step(src, origin)))),
        Rule::Title => Ok(Some(spec_process_title(src, origin, element, base))),
        Rule::TitleBlock => Ok(Some(fold_while(element.inner@, 0, base, title_block_step(src, origin)))),
        Rule::Paragraph => Ok(Some(spec_process_paragraph(src, origin, element))),
        Rule::ListParagraph => Ok(Some(spec_process_paragraph(src, origin, element))),
        Rule::OtherListInline => Ok(Some(spec_from_element(src, origin, element, ElementView::Text))),
        Rule::Continuation => Ok(None),
        Rule::EOI => Ok(None),
        Rule::List => match spec_last_element(
            src,
            origin,
            element.inner@,
            0,
            base,
            parser,
            env,
            depth,
        ) {
            Ok(last) => Ok(Some(last)),
            Err(halt) => Err(halt),
        },
        Rule::Block => match spec_last_element(
            src,
            origin,
            element.inner@,
            0,
            base,
            parser,
            env,
            depth,
        ) {
            Ok(last) => Ok(Some(last)),
            Err(halt) => Err(halt),
        },
        Rule::BulletList => match spec_push_elements(
            src,
            origin,
            element.inner@,
            0,
            base.with_element(ElementView::List(ListType::Bullet)),
            parser,
            env,
            depth,
        ) {
            Ok(list) => Ok(Some(list)),
            Err(halt) => Err(halt),
        },
        Rule::NumberedList => match spec_push_elements(
            src,
            origin,
            element.inner@,
            0,
            base.with_element(ElementView::List(ListType::Number)),
            parser,
            env,
            depth,
        ) {
            Ok(list) => Ok(Some(list)),
            Err(halt) => Err(halt),
        },
        Rule::BulletListElement => match spec_list_item(
            src,
            origin,
            element.inner@,
            0,
            base,
            Rule::Bullet,
            parser,
            env,
            depth,
        ) {
            Ok(item) => Ok(Some(item)),
            Err(halt) => Err(halt),
        },
        Rule::NumberBulletListElement => match spec_list_item(
            src,
            origin,
            element.inner@,
            0,
            base,
            Rule::NumberBullet,
            parser,
            env,
            depth,
        ) {
            Ok(item) => Ok(Some(item)),
            Err(halt) => Err(halt),
        },
        Rule::ImageBlock => match spec_process_image(src, origin, element, base, env) {
            Ok(image) => Ok(Some(image)),
            Err(halt) => Err(halt),
        },
        Rule::TableRow => match spec_process_table_row(
            src,
            origin,
            element,
            base,
            seq![default_cell_format()],
            parser,
            env,
            depth,
        ) {
            Ok(row) => Ok(Some(row)),
            Err(halt) => Err(halt),
        },
        Rule::TableCell => match spec_process_table_cell(
            src,
            origin,
            element,
            base,
            default_cell_format(),
            parser,
            env,
            depth,
        ) {
            Ok(cell) => Ok(Some(cell)),
            Err(halt) => Err(halt),
        },
        Rule::Inline => Ok(Some(spec_process_inline(src, origin, element, base))),
        _ => Ok(Some(base)),
    }
}

/// `base` with what each of `items` becomes, from index `from` on, as one
/// more child.
pub open spec fn spec_push_elements(
    src: Seq<char>,
    origin: int,
    items: Seq<Pair>,
    from: int,
    base: ElementSpanView,
    parser: AsciidocParser,
    env: Env,
    depth: nat,
) -> Result<ElementSpanView, HaltView>
    decreases depth, items, items.len() - from,
{
    if 0 <= from < items.len() {
        match spec_process_element(src, origin, items[from], parser, env, depth) {
            Err(halt) => Err(halt),
            Ok(Some(child)) => spec_push_elements(
                src,
                origin,
                items,
                from + 1,
                base.add_child(child),
                parser,
                env,
                depth,
            ),
            Ok(None) => spec_push_elements(src, origin, items, from + 1, base, parser, env, depth),
        }
    } else {
        Ok(base)
    }
}

/// What the last of `items`, from index `from` on, that becomes anything
/// becomes; `base` where none does.
pub open spec fn spec_last_element(
    src: Seq<char>,
    origin: int,
    items: Seq<Pair>,
    from: int,
    base: ElementSpanView,
    parser: AsciidocParser,
    env: Env,
    depth: nat,
) -> Result<ElementSpanView, HaltView>
    decreases depth, items, items.len() - from,
{
    if 0 <= from < items.len() {
        match spec_process_element(src, origin, items[from], parser, env, depth) {
            Err(halt) => Err(halt),
            Ok(Some(last)) => spec_last_element(src, origin, items, from + 1, last, parser, env, depth),
            Ok(None) => spec_last_element(src, origin, items, from + 1, base, parser, env, depth),
        }
    } else {
        Ok(base)
    }
}

/// `base` after taking in the part `sub` of a list item: a marker (a node of
/// the rule `marker`) makes it an item with the marker's trimmed length, the
/// elements inside a list element become children, and any other part becomes
/// an error node among the children.
pub open spec fn spec_list_item_part(
    src: Seq<char>,
    origin: int,
    sub: Pair,
    base: ElementSpanView,
    marker: Rule,
    parser: AsciidocParser,
    env: Env,
    depth: nat,
) -> Result<ElementSpanView, HaltView>
    decreases depth, sub, 1int,
{
    if sub.rule == marker {
        Ok(base.with_element(ElementView::ListItem(marker_length(sub.text(src, origin)))))
    } else if sub.rule == Rule::ListElement {
        spec_push_elements(src, origin, sub.inner@, 0, base, parser, env, depth)
    } else {
        Ok(base.add_child(spec_set_span(src, origin, sub)))
    }
}

/// `base` as a list item made of the parts `items`, from index `from` on.
pub open spec fn spec_list_item(
    src: Seq<char>,
    origin: int,
    items: Seq<Pair>,
    from: int,
    base: ElementSpanView,
    marker: Rule,
    parser: AsciidocParser,
    env: Env,
    depth: nat,
) -> Result<ElementSpanView, HaltView>
    decreases depth, items, items.len() - from,
{
    if 0 <= from < items.len() {
        match spec_list_item_part(src, origin, items[from], base, marker, parser, env, depth) {
            Err(halt) => Err(halt),
            Ok(next) => spec_list_item(src, origin, items, from + 1, next, marker, parser, env, depth),
        }
    } else {
        Ok(base)
    }
}

/// The delimited block `element`. What stands before the block itself is
/// taken in first: an anchor, an attribute list, a block title. The block
/// itself is a table, a comment, a listing (source or literal) or an example.
/// Nothing is taken in after the first part that is none of these.
pub open spec fn spec_process_delimited_block(
    src: Seq<char>,
    origin: int,
    element: Pair,
    parser: AsciidocParser,
    env: Env,
    depth: nat,
) -> Result<ElementSpanView, HaltView>
    decreases depth, element, 0int,
{
    spec_delimited_parts(
        src,
        origin,
        element.inner@,
        0,
        spec_set_span(src, origin, element),
        parser,
        env,
        depth,
    )
}

/// `base` after taking in the part `sub` of a delimited block; nothing where
/// `sub` is no part that a delimited block takes in.
pub open spec fn spec_delimited_part(
    src: Seq<char>,
    origin: int,
    sub: Pair,
    base: ElementSpanView,
    parser: AsciidocParser,
    env: Env,
    depth: nat,
) -> Option<Result<ElementSpanView, HaltView>>
    decreases depth, sub, 1int,
{
    if sub.rule == Rule::Anchor {
        Some(Ok(spec_process_anchor(src, origin, sub, base)))
    } else if sub.rule == Rule::AttributeList {
        Some(Ok(spec_process_attribute_list(src, origin, sub, base)))
    } else if sub.rule == Rule::Blocktitle {
        Some(Ok(spec_process_blocktitle(src, origin, sub, base)))
    } else if sub.rule == Rule::DelimitedTable {
        Some(
            spec_process_inner_table(
                src,
                origin,
                sub,
                base.with_element(ElementView::Table),
                parser,
                env,
                depth,
            ),
        )
    } else if sub.rule == Rule::DelimitedComment {
        Some(
            spec_process_delimited_inner(
                src,
                origin,
                sub,
                base.with_element(ElementView::TypedBlock { kind: BlockType::Comment }),
                parser,
                env,
                depth,
            ),
        )
    } else if sub.rule == Rule::DelimitedSource || sub.rule == Rule::DelimitedLiteral {
        Some(
            spec_process_delimited_inner(
                src,
                origin,
                sub,
                base.with_element(ElementView::TypedBlock { kind: BlockType::Listing }),
                parser,
                env,
                depth,
            ),
        )
    } else if sub.rule == Rule::DelimitedExample {
        Some(
            spec_process_delimited_inner(
                src,
                origin,
                sub,
                base.with_element(ElementView::TypedBlock { kind: BlockType::Example }),
                parser,
                env,
                depth,
            ),
        )
    } else {
        None
    }
}

/// `base` after taking in the parts `items` of a delimited block, from index
/// `from` on, up to the first that is no such part.
pub open spec fn spec_delimited_parts(
    src: Seq<char>,
    origin: int,
    items: Seq<Pair>,
    from: int,
    base: ElementSpanView,
    parser: AsciidocParser,
    env: Env,
    depth: nat,
) -> Result<ElementSpanView, HaltView>
    decreases depth, items, items.len() - from,
{
    if 0 <= from < items.len() {
        match spec_delimited_part(src, origin, items[from], base, parser, env, depth) {
            None => Ok(base),
            Some(Err(halt)) => Err(halt),
            Some(Ok(next)) => spec_delimited_parts(src, origin, items, from + 1, next, parser, env, depth),
        }
    } else {
        Ok(base)
    }
}

/// `base` with what stands between the delimiters of the block `element`: the
/// text there, as it stands, becomes the attribute `content`. Where `base` is
/// an example, the text is a document of its own, and its elements first
/// become children of `base`.
pub open spec fn spec_process_delimited_inner(
    src: Seq<char>,
    origin: int,
    element: Pair,
    base: ElementSpanView,
    parser: AsciidocParser,
    env: Env,
    depth: nat,
) -> Result<ElementSpanView, HaltView>
    decreases depth, element, 0int,
{
    spec_inner_parts(src, origin, element.inner@, 0, base, parser, env, depth)
}

/// `base` after taking in the part `sub` of the inside of a delimited block.
pub open spec fn spec_inner_part(
    src: Seq<char>,
    origin: int,
    sub: Pair,
    base: ElementSpanView,
    parser: AsciidocParser,
    env: Env,
    depth: nat,
) -> Result<ElementSpanView, HaltView>
    decreases depth, sub, 1int,
{
    if sub.rule == Rule::DelimitedInner {
        let text = sub.text(src, origin);
        let filled = if base.element == (ElementView::TypedBlock { kind: BlockType::Example }) {
            match spec_reparse(parser, Rule::Asciidoc, text, depth) {
                Err(halt) => Err(halt),
                Ok(roots) => spec_push_elements(
                    src,
                    origin + sub.start,
                    roots,
                    0,
                    base,
                    parser,
                    env,
                    (depth - 1) as nat,
                ),
            }
        } else {
            Ok(base)
        };
        match filled {
            Err(halt) => Err(halt),
            Ok(filled) => Ok(filled.add_attribute("content"@, AttributeValueView::Ref(text))),
        }
    } else {
        Ok(base)
    }
}

/// `base` after taking in the parts `items` of the inside of a delimited
/// block, from index `from` on.
pub open spec fn spec_inner_parts(
    src: Seq<char>,
    origin: int,
    items: Seq<Pair>,
    from: int,
    base: ElementSpanView,
    parser: AsciidocParser,
    env: Env,
    depth: nat,
) -> Result<ElementSpanView, HaltView>
    decreases depth, items, items.len() - from,
{
    if 0 <= from < items.len() {
        match spec_inner_part(src, origin, items[from], base, parser, env, depth) {
            Err(halt) => Err(halt),
            Ok(next) => spec_inner_parts(src, origin, items, from + 1, next, parser, env, depth),
        }
    } else {
        Ok(base)
    }
}

/// The formats of the columns of the table `base`: what its attribute `cols`
/// writes, and what nothing writes where it has no such attribute.
pub open spec fn spec_table_formats(base: ElementSpanView) -> Seq<CellFormat> {
    row_format(
        match base.attribute("cols"@) {
            Some(cols) => cols,
            None => ""@,
        },
    )
}

/// What the syntax node `sub` of a table becomes: a row becomes a row with
/// cells in the formats `formats`, anything else what it becomes anywhere.
pub open spec fn spec_table_element(
    src: Seq<char>,
    origin: int,
    sub: Pair,
    formats: Seq<CellFormat>,
    parser: AsciidocParser,
    env: Env,
    depth: nat,
) -> Result<Option<ElementSpanView>, HaltView>
    decreases depth, sub, 2int,
{
    if sub.rule == Rule::TableRow {
        match spec_process_table_row(
            src,
            origin,
            sub,
            spec_set_span(src, origin, sub),
            formats,
            parser,
            env,
            depth,
        ) {
            Ok(row) => Ok(Some(row)),
            Err(halt) => Err(halt),
        }
    } else {
        spec_process_element(src, origin, sub, parser, env, depth)
    }
}

/// `base` with what each of the syntax nodes `items` of a table becomes, from
/// index `from` on, as one more child.
pub open spec fn spec_push_table_elements(
    src: Seq<char>,
    origin: int,
    items: Seq<Pair>,
    from: int,
    base: ElementSpanView,
    formats: Seq<CellFormat>,
    parser: AsciidocParser,
    env: Env,
    depth: nat,
) -> Result<ElementSpanView, HaltView>
    decreases depth, items, items.len() - from,
{
    if 0 <= from < items.len() {
        match spec_table_element(src, origin, items[from], formats, parser, env, depth) {
            Err(halt) => Err(halt),
            Ok(Some(child)) => spec_push_table_elements(
                src,
                origin,
                items,
                from + 1,
                base.add_child(child),
                formats,
                parser,
                env,
                depth,
            ),
            Ok(None) => spec_push_table_elements(
                src,
                origin,
                items,
                from + 1,
                base,
                formats,
                parser,
                env,
                depth,
            ),
        }
    } else {
        Ok(base)
    }
}

/// `base` with what each node directly inside each of `roots`, from index
/// `from` on, becomes as a node of a table, as one more child.
pub open spec fn spec_push_inner_elements(
    src: Seq<char>,
    origin: int,
    roots: Seq<Pair>,
    from: int,
    base: ElementSpanView,
    formats: Seq<CellFormat>,
    parser: AsciidocParser,
    env: Env,
    depth: nat,
) -> Result<ElementSpanView, HaltView>
    decreases depth, roots, roots.len() - from,
{
    if 0 <= from < roots.len() {
        match spec_push_table_elements(
            src,
            origin,
            roots[from].inner@,
            0,
            base,
            formats,
            parser,
            env,
            depth,
        ) {
            Err(halt) => Err(halt),
            Ok(next) => spec_push_inner_elements(
                src,
                origin,
                roots,
                from + 1,
                next,
                formats,
                parser,
                env,
                depth,
            ),
        }
    } else {
        Ok(base)
    }
}

/// `base` as the table that stands in `element`. The formats of its columns
/// are what the attribute `cols` of `base` writes. What stands between the
/// delimiters is read as the body of a table: what its rows and cells become
/// is added to the children, and its text, as it stands, becomes the
/// attribute `content`. A row directly inside `element` becomes a child too.
/// The cells of every row are in the formats of the columns.
pub open spec fn spec_process_inner_table(
    src: Seq<char>,
    origin: int,
    element: Pair,
    base: ElementSpanView,
    parser: AsciidocParser,
    env: Env,
    depth: nat,
) -> Result<ElementSpanView, HaltView>
    decreases depth, element, 0int,
{
    spec_table_parts(
        src,
        origin,
        element.inner@,
        0,
        base,
        spec_table_formats(base),
        parser,
        env,
        depth,
    )
}

/// `base` after taking in the part `sub` of a table: the body between the
/// delimiters, or a row.
pub open spec fn spec_table_part(
    src: Seq<char>,
    origin: int,
    sub: Pair,
    base: ElementSpanView,
    formats: Seq<CellFormat>,
    parser: AsciidocParser,
    env: Env,
    depth: nat,
) -> Result<ElementSpanView, HaltView>
    decreases depth, sub, 3int,
{
    if sub.rule == Rule::DelimitedInner {
        let text = sub.text(src, origin);
        match spec_reparse(parser, Rule::TableInner, text, depth) {
            Err(halt) => Err(halt),
            Ok(roots) => match spec_push_inner_elements(
                src,
                origin + sub.start,
                roots,
                0,
                base,
                formats,
                parser,
                env,
                (depth - 1) as nat,
            ) {
                Err(halt) => Err(halt),
                Ok(filled) => Ok(filled.add_attribute("content"@, AttributeValueView::Ref(text))),
            },
        }
    } else if sub.rule == Rule::TableRow {
        match spec_table_element(src, origin, sub, formats, parser, env, depth) {
            Err(halt) => Err(halt),
            Ok(Some(row)) => Ok(base.add_child(row)),
            Ok(None) => Ok(base),
        }
    } else {
        Ok(base)
    }
}

/// `base` after taking in the parts `items` of a table, from index `from` on.
pub open spec fn spec_table_parts(
    src: Seq<char>,
    origin: int,
    items: Seq<Pair>,
    from: int,
    base: ElementSpanView,
    formats: Seq<CellFormat>,
    parser: AsciidocParser,
    env: Env,
    depth: nat,
) -> Result<ElementSpanView, HaltView>
    decreases depth, items, items.len() - from,
{
    if 0 <= from < items.len() {
        match spec_table_part(src, origin, items[from], base, formats, parser, env, depth) {
            Err(halt) => Err(halt),
            Ok(next) => spec_table_parts(
                src,
                origin,
                items,
                from + 1,
                next,
                formats,
                parser,
                env,
                depth,
            ),
        }
    } else {
        Ok(base)
    }
}

/// `base` as the table row `element`: each node directly inside `element`
/// becomes a cell and a child, in the format that its index gives it. Without
/// formats the row has no cells.
pub open spec fn spec_process_table_row(
    src: Seq<char>,
    origin: int,
    element: Pair,
    base: ElementSpanView,
    formats: Seq<CellFormat>,
    parser: AsciidocParser,
    env: Env,
    depth: nat,
) -> Result<ElementSpanView, HaltView>
    decreases depth, element, 0int,
{
    spec_row_cells(
        src,
        origin,
        element.inner@,
        0,
        base.with_element(ElementView::TableRow),
        formats,
        parser,
        env,
        depth,
    )
}

/// `base` after taking in the cells `items` of a row, from index `from` on.
/// Each cell starts as the node of its own syntax node.
pub open spec fn spec_row_cells(
    src: Seq<char>,
    origin: int,
    items: Seq<Pair>,
    from: int,
    base: ElementSpanView,
    formats: Seq<CellFormat>,
    parser: AsciidocParser,
    env: Env,
    depth: nat,
) -> Result<ElementSpanView, HaltView>
    decreases depth, items, items.len() - from,
{
    if 0 <= from < items.len() {
        match format_at(formats, from) {
            None => Ok(base),
            Some(format) => match spec_process_table_cell(
                src,
                origin,
                items[from],
                spec_set_span(src, origin, items[from]),
                format,
                parser,
                env,
                depth,
            ) {
                Err(halt) => Err(halt),
                Ok(cell) => spec_row_cells(
                    src,
                    origin,
                    items,
                    from + 1,
                    base.add_child(cell),
                    formats,
                    parser,
                    env,
                    depth,
                ),
            },
        }
    } else {
        Ok(base)
    }
}

/// `base` as the table cell `element`. The cell lies where its content lies
/// once that is trimmed, and holds it as its content. Where the format says
/// that the cell holds a document, the elements of that document become
/// children of the cell.
pub open spec fn spec_process_table_cell(
    src: Seq<char>,
    origin: int,
    element: Pair,
    base: ElementSpanView,
    format: CellFormat,
    parser: AsciidocParser,
    env: Env,
    depth: nat,
) -> Result<ElementSpanView, HaltView>
    decreases depth, element, 0int,
{
    let (start, end) = cell_span(src, origin, element);
    let cell = base.with_element(ElementView::TableCell).with_place(
        spec_node_at(src, start, end, ElementView::TableCell),
    );
    if format.kind == CellKind::Asciidoc {
        match spec_reparse(parser, Rule::Asciidoc, cell.content, depth) {
            Err(halt) => Err(halt),
            Ok(roots) => spec_push_elements(
                src,
                start,
                roots,
                0,
                cell,
                parser,
                env,
                (depth - 1) as nat,
            ),
        }
    } else {
        Ok(cell)
    }
}

/// Looks up the syntax nodes of a text nested in a block.
pub fn reparse<'a, 'p>(parser: &'p AsciidocParser, rule: Rule, text: &'a str, depth: usize) -> (r:
    Result<&'p Vec<Pair>, Halt<'a>>)
    requires
        parser.wf(),
    ensures
        match r {
            Ok(roots) => spec_reparse(*parser, rule, text@, depth as nat) == Ok::<
                Seq<Pair>,
                HaltView,
            >(roots@) && all_within(roots@, text@, 0) && depth > 0,
            Err(halt) => spec_reparse(*parser, rule, text@, depth as nat) == Err::<
                Seq<Pair>,
                HaltView,
            >(halt@),
        },
{
    if depth == 0 {
        return Err(Halt::TooDeep);
    }
    match parser.parse(rule, text) {
        None => Err(Halt::Unparsed { rule, text }),
        Some(Err(message)) => Err(Halt::Syntax { message: message.clone() }),
        Some(Ok(roots)) => Ok(roots),
    }
}

/// Looks up the syntax nodes of the text nested in `src` from the byte
/// `start` to the byte `end`.
pub fn reparse_inside<'a, 'p>(
    src: &'a str,
    start: usize,
    end: usize,
    parser: &'p AsciidocParser,
    rule: Rule,
    depth: usize,
) -> (r: Result<&'p Vec<Pair>, Halt<'a>>)
    requires
        valid_span(src@, start as int, end as int),
        parser.wf(),
    ensures
        match r {
            Ok(roots) => spec_reparse(
                *parser,
                rule,
                slice(src@, start as int, end as int),
                depth as nat,
            ) == Ok::<Seq<Pair>, HaltView>(roots@) && all_within(roots@, src@, start as int)
                && depth > 0,
            Err(halt) => spec_reparse(
                *parser,
                rule,
                slice(src@, start as int, end as int),
                depth as nat,
            ) == Err::<Seq<Pair>, HaltView>(halt@),
        },
{
    let text = text_at(src, start, end);
    match reparse(parser, rule, text, depth) {
        Err(halt) => Err(halt),
        Ok(roots) => {
            proof {
                lemma_all_within_piece(roots@, src@, start as int, end as int);
            }
            Ok(roots)
        },
    }
}

/// Makes `base` the header `element`.
pub fn process_header<'a>(
    src: &'a str,
    origin: usize,
    element: &Pair,
    base: ElementSpan<'a>,
) -> (r: ElementSpan<'a>)
    requires
        element.within(src@, origin as int),
    ensures
        r@ == fold_while(element.inner@, 0, base@, header_step(src@, origin as int)),
{
    let mut base = base;
    let ghost first = base@;
    let mut i: usize = 0;
    let mut done = false;
    proof {
        lemma_within(*element, src@, origin as int);
    }
    while i < element.inner.len() && !done
        invariant
            i <= element.inner@.len(),
            all_within(element.inner@, src@, origin as int),
            !done ==> fold_while(element.inner@, i as int, base@, header_step(src@, origin as int)) == fold_while(
                element.inner@,
                0,
                first,
                header_step(src@, origin as int),
            ),
            done ==> base@ == fold_while(
                element.inner@,
                0,
                first,
                header_step(src@, origin as int),
            ),
        decreases element.inner@.len() - i, (if done { 0int } else { 1int }),
    {
        let sub = &element.inner[i];
        if sub.rule == Rule::Title {
            base = entitle(src, origin, sub, base);
            i = i + 1;
        } else {
            done = true;
        }
    }
    base
}

/// Makes `base` the title block `element`.
pub fn process_title_block<'a>(
    src: &'a str,
    origin: usize,
    element: &Pair,
    base: ElementSpan<'a>,
) -> (r: ElementSpan<'a>)
    requires
        element.within(src@, origin as int),
    ensures
        r@ == fold_while(element.inner@, 0, base@, title_block_step(src@, origin as int)),
{
    let mut base = base;
    let ghost first = base@;
    let mut i: usize = 0;
    let mut done = false;
    proof {
        lemma_within(*element, src@, origin as int);
    }
    while i < element.inner.len() && !done
        invariant
            i <= element.inner@.len(),
            all_within(element.inner@, src@, origin as int),
            !done ==> fold_while(
                element.inner@,
                i as int,
                base@,
                title_block_step(src@, origin as int),
            )
                == fold_while(element.inner@, 0, first, title_block_step(src@, origin as int)),
            done ==> base@ == fold_while(
                element.inner@,
                0,
                first,
                title_block_step(src@, origin as int),
            ),
        decreases element.inner@.len() - i, (if done { 0int } else { 1int }),
    {
        let sub = &element.inner[i];
        if sub.rule == Rule::Title {
            base = entitle(src, origin, sub, base);
            i = i + 1;
        } else if sub.rule == Rule::Anchor {
            base = process_anchor(src, origin, sub, base);
            i = i + 1;
        } else {
            done = true;
        }
    }
    base
}

/// Says what the syntax node `element` of the text `src` becomes. The
/// offsets of `element` count from the byte `origin` of `src`. `parser` and
/// `env` hold what is known of the texts nested in `src` and of the files
/// that it names; `depth` is the number of levels of nesting that may still
/// be followed.
pub fn process_element<'a>(
    src: &'a str,
    origin: usize,
    element: &Pair,
    parser: &AsciidocParser,
    env: &Env,
    depth: usize,
) -> (r: Result<Option<ElementSpan<'a>>, Halt<'a>>)
    requires
        element.within(src@, origin as int),
        parser.wf(),
    ensures
        element_result(r)
            == spec_process_element(src@, origin as int, *element, *parser, *env, depth as nat),
    decreases depth, *element, 1int,
{
    proof {
        lemma_within(*element, src@, origin as int);
    }
    let mut base = set_span(src, origin, element);
    match element.rule {
        Rule::DelimitedBlock => match process_delimited_block(
            src,
            origin,
            element,
            parser,
            env,
            depth,
        ) {
            Ok(block) => Ok(Some(block)),
            Err(halt) => Err(halt),
        },
        Rule::Header => Ok(Some(process_header(src, origin, element, base))),
        Rule::Title => Ok(process_title(src, origin, element, base)),
        Rule::TitleBlock => Ok(Some(process_title_block(src, origin, element, base))),
        Rule::Paragraph => Ok(Some(process_paragraph(src, origin, element))),
        Rule::ListParagraph => Ok(Some(process_paragraph(src, origin, element))),
        Rule::OtherListInline => Ok(Some(from_element(src, origin, element, Element::Text))),
        Rule::Continuation => Ok(None),
        Rule::EOI => Ok(None),
        Rule::List => match last_element(src, origin, &element.inner, base, parser, env, depth) {
            Ok(last) => Ok(Some(last)),
            Err(halt) => Err(halt),
        },
        Rule::Block => match last_element(src, origin, &element.inner, base, parser, env, depth) {
            Ok(last) => Ok(Some(last)),
            Err(halt) => Err(halt),
        },
        Rule::BulletList => {
            base.element = Element::List(ListType::Bullet);
            match push_elements(src, origin, &element.inner, base, parser, env, depth) {
                Ok(list) => Ok(Some(list)),
                Err(halt) => Err(halt),
            }
        },
        Rule::NumberedList => {
            base.element = Element::List(ListType::Number);
            match push_elements(src, origin, &element.inner, base, parser, env, depth) {
                Ok(list) => Ok(Some(list)),
                Err(halt) => Err(halt),
            }
        },
        Rule::BulletListElement => match list_item(
            src,
            origin,
            &element.inner,
            base,
            Rule::Bullet,
            parser,
            env,
            depth,
        ) {
            Ok(item) => Ok(Some(item)),
            Err(halt) => Err(halt),
        },
        Rule::NumberBulletListElement => match list_item(
            src,
            origin,
            &element.inner,
            base,
            Rule::NumberBullet,
            parser,
            env,
            depth,
        ) {
            Ok(item) => Ok(Some(item)),
            Err(halt) => Err(halt),
        },
        Rule::ImageBlock => match process_image(src, origin, element, base, env) {
            Ok(image) => Ok(Some(image)),
            Err(halt) => Err(halt),
        },
        Rule::TableRow => {
            let mut formats: Vec<CellFormat> = Vec::new();
            formats.push(CellFormat { length: 1, kind: CellKind::Default });
            assert(formats@ =~= seq![default_cell_format()]);
            match process_table_row(src, origin, element, base, &formats, parser, env, depth) {
                Ok(row) => Ok(Some(row)),
                Err(halt) => Err(halt),
            }
        },
        Rule::TableCell => match process_table_cell(
            src,
            origin,
            element,
            base,
            &CellFormat { length: 1, kind: CellKind::Default },
            parser,
            env,
            depth,
        ) {
            Ok(cell) => Ok(Some(cell)),
            Err(halt) => Err(halt),
        },
        Rule::Inline => Ok(Some(process_inline(src, origin, element, base))),
        _ => Ok(Some(base)),
    }
}

/// Adds to `base`, as children, what the nodes `items` become.
pub fn push_elements<'a>(
    src: &'a str,
    origin: usize,
    items: &Vec<Pair>,
    base: ElementSpan<'a>,
    parser: &AsciidocParser,
    env: &Env,
    depth: usize,
) -> (r: Result<ElementSpan<'a>, Halt<'a>>)
    requires
        all_within(items@, src@, origin as int),
        parser.wf(),
    ensures
        span_result(r) == spec_push_elements(src@, origin as int, items@, 0, base@, *parser, *env, depth as nat),
    decreases depth, items@, 0int,
{
    let mut node = base;
    let mut i: usize = 0;
    while i < items.len()
        invariant
            i <= items@.len(),
            all_within(items@, src@, origin as int),
            parser.wf(),
            spec_push_elements(
                src@,
                origin as int,
                items@,
                i as int,
                node@,
                *parser,
                *env,
                depth as nat,
            )
                == spec_push_elements(
                    src@,
                    origin as int,
                    items@,
                    0,
                    base@,
                    *parser,
                    *env,
                    depth as nat,
                ),
        decreases items@.len() - i,
    {
        match process_element(src, origin, &items[i], parser, env, depth) {
            Err(halt) => {
                return Err(halt);
            },
            Ok(Some(child)) => {
                node.add_child(child);
            },
            Ok(None) => {},
        }
        i = i + 1;
    }
    Ok(node)
}

/// Says what the last of `items` that becomes anything becomes.
pub fn last_element<'a>(
    src: &'a str,
    origin: usize,
    items: &Vec<Pair>,
    base: ElementSpan<'a>,
    parser: &AsciidocParser,
    env: &Env,
    depth: usize,
) -> (r: Result<ElementSpan<'a>, Halt<'a>>)
    requires
        all_within(items@, src@, origin as int),
        parser.wf(),
    ensures
        span_result(r) == spec_last_element(src@, origin as int, items@, 0, base@, *parser, *env, depth as nat),
    decreases depth, items@, 0int,
{
    let mut node = base;
    let mut i: usize = 0;
    while i < items.len()
        invariant
            i <= items@.len(),
            all_within(items@, src@, origin as int),
            parser.wf(),
            spec_last_element(
                src@,
                origin as int,
                items@,
                i as int,
                node@,
                *parser,
                *env,
                depth as nat,
            )
                == spec_last_element(
                    src@,
                    origin as int,
                    items@,
                    0,
                    base@,
                    *parser,
                    *env,
                    depth as nat,
                ),
        decreases items@.len() - i,
    {
        match process_element(src, origin, &items[i], parser, env, depth) {
            Err(halt) => {
                return Err(halt);
            },
            Ok(Some(last)) => {
                node = last;
            },
            Ok(None) => {},
        }
        i = i + 1;
    }
    Ok(node)
}

/// Takes the part `sub` of a list item into `base`.
pub fn list_item_part<'a>(
    src: &'a str,
    origin: usize,
    sub: &Pair,
    base: ElementSpan<'a>,
    marker: Rule,
    parser: &AsciidocParser,
    env: &Env,
    depth: usize,
) -> (r: Result<ElementSpan<'a>, Halt<'a>>)
    requires
        sub.within(src@, origin as int),
        parser.wf(),
    ensures
        span_result(r) == spec_list_item_part(
            src@,
            origin as int,
            *sub,
            base@,
            marker,
            *parser,
            *env,
            depth as nat,
        ),
    decreases depth, *sub, 1int,
{
    let mut node = base;
    proof {
        lemma_within(*sub, src@, origin as int);
    }
    if sub.rule == marker {
        node.element = Element::ListItem(measure_marker(sub.as_str(src, origin)));
        Ok(node)
    } else if sub.rule == Rule::ListElement {
        push_elements(src, origin, &sub.inner, node, parser, env, depth)
    } else {
        node.add_child(set_span(src, origin, sub));
        Ok(node)
    }
}

/// Makes `base` the list item whose parts are `items`.
pub fn list_item<'a>(
    src: &'a str,
    origin: usize,
    items: &Vec<Pair>,
    base: ElementSpan<'a>,
    marker: Rule,
    parser: &AsciidocParser,
    env: &Env,
    depth: usize,
) -> (r: Result<ElementSpan<'a>, Halt<'a>>)
    requires
        all_within(items@, src@, origin as int),
        parser.wf(),
    ensures
        span_result(r) == spec_list_item(
            src@,
            origin as int,
            items@,
            0,
            base@,
            marker,
            *parser,
            *env,
            depth as nat,
        ),
    decreases depth, items@, 0int,
{
    let mut node = base;
    let mut i: usize = 0;
    while i < items.len()
        invariant
            i <= items@.len(),
            all_within(items@, src@, origin as int),
            parser.wf(),
            spec_list_item(
                src@,
                origin as int,
                items@,
                i as int,
                node@,
                marker,
                *parser,
                *env,
                depth as nat,
            )
                == spec_list_item(
                    src@,
                    origin as int,
                    items@,
                    0,
                    base@,
                    marker,
                    *parser,
                    *env,
                    depth as nat,
                ),
        decreases items@.len() - i,
    {
        match list_item_part(src, origin, &items[i], node, marker, parser, env, depth) {
            Err(halt) => {
                return Err(halt);
            },
            Ok(next) => {
                node = next;
            },
        }
        i = i + 1;
    }
    Ok(node)
}

/// Takes the part `sub` of a delimited block into `base`. The result holds
/// `base` as it was, and `false`, where `sub` is no part that a delimited
/// block takes in.
pub fn delimited_part<'a>(
    src: &'a str,
    origin: usize,
    sub: &Pair,
    base: ElementSpan<'a>,
    parser: &AsciidocParser,
    env: &Env,
    depth: usize,
) -> (r: Result<(ElementSpan<'a>, bool), Halt<'a>>)
    requires
        sub.within(src@, origin as int),
        parser.wf(),
    ensures
        match r {
            Ok((node, true)) => spec_delimited_part(src@, origin as int, *sub, base@, *parser, *env, depth as nat)
                == Some(Ok::<ElementSpanView, HaltView>(node@)),
            Ok((node, false)) => spec_delimited_part(
                src@,
                origin as int,
                *sub,
                base@,
                *parser,
                *env,
                depth as nat,
            ) is None && node@ == base@,
            Err(halt) => spec_delimited_part(src@, origin as int, *sub, base@, *parser, *env, depth as nat)
                == Some(Err::<ElementSpanView, HaltView>(halt@)),
        },
    decreases depth, *sub, 1int,
{
    let mut node = base;
    if sub.rule == Rule::Anchor {
        Ok((process_anchor(src, origin, sub, node), true))
    } else if sub.rule == Rule::AttributeList {
        Ok((process_attribute_list(src, origin, sub, node), true))
    } else if sub.rule == Rule::Blocktitle {
        Ok((process_blocktitle(src, origin, sub, node), true))
    } else if sub.rule == Rule::DelimitedTable {
        node.element = Element::Table;
        match process_inner_table(src, origin, sub, node, parser, env, depth) {
            Err(halt) => Err(halt),
            Ok(next) => Ok((next, true)),
        }
    } else if sub.rule == Rule::DelimitedComment {
        node.element = Element::TypedBlock { kind: BlockType::Comment };
        match process_delimited_inner(src, origin, sub, node, parser, env, depth) {
            Err(halt) => Err(halt),
            Ok(next) => Ok((next, true)),
        }
    } else if sub.rule == Rule::DelimitedSource || sub.rule == Rule::DelimitedLiteral {
        node.element = Element::TypedBlock { kind: BlockType::Listing };
        match process_delimited_inner(src, origin, sub, node, parser, env, depth) {
            Err(halt) => Err(halt),
            Ok(next) => Ok((next, true)),
        }
    } else if sub.rule == Rule::DelimitedExample {
        node.element = Element::TypedBlock { kind: BlockType::Example };
        match process_delimited_inner(src, origin, sub, node, parser, env, depth) {
            Err(halt) => Err(halt),
            Ok(next) => Ok((next, true)),
        }
    } else {
        Ok((node, false))
    }
}

/// Makes the delimited block `element`.
pub fn process_delimited_block<'a>(
    src: &'a str,
    origin: usize,
    element: &Pair,
    parser: &AsciidocParser,
    env: &Env,
    depth: usize,
) -> (r: Result<ElementSpan<'a>, Halt<'a>>)
    requires
        element.within(src@, origin as int),
        parser.wf(),
    ensures
        span_result(r) == spec_process_delimited_block(
            src@,
            origin as int,
            *element,
            *parser,
            *env,
            depth as nat,
        ),
    decreases depth, *element, 0int,
{
    proof {
        lemma_within(*element, src@, origin as int);
    }
    let mut node = set_span(src, origin, element);
    let ghost first = node@;
    let items = &element.inner;
    let mut i: usize = 0;
    let mut done = false;
    while i < items.len() && !done
        invariant
            i <= items@.len(),
            items@ == element.inner@,
            first == spec_set_span(src@, origin as int, *element),
            all_within(items@, src@, origin as int),
            parser.wf(),
            !done ==> spec_delimited_parts(
                src@,
                origin as int,
                items@,
                i as int,
                node@,
                *parser,
                *env,
                depth as nat,
            ) == spec_delimited_parts(
                src@,
                origin as int,
                items@,
                0,
                first,
                *parser,
                *env,
                depth as nat,
            ),
            done ==> Ok::<ElementSpanView, HaltView>(node@) == spec_delimited_parts(
                src@,
                origin as int,
                items@,
                0,
                first,
                *parser,
                *env,
                depth as nat,
            ),
        decreases items@.len() - i, (if done { 0int } else { 1int }),
    {
        match delimited_part(src, origin, &items[i], node, parser, env, depth) {
            Err(halt) => {
                return Err(halt);
            },
            Ok((next, go_on)) => {
                node = next;
                if go_on {
                    i = i + 1;
                } else {
                    done = true;
                }
            },
        }
    }
    Ok(node)
}

/// Takes the part `sub` of the inside of a delimited block into `base`.
pub fn inner_part<'a>(
    src: &'a str,
    origin: usize,
    sub: &Pair,
    base: ElementSpan<'a>,
    parser: &AsciidocParser,
    env: &Env,
    depth: usize,
) -> (r: Result<ElementSpan<'a>, Halt<'a>>)
    requires
        sub.within(src@, origin as int),
        parser.wf(),
    ensures
        span_result(r)
            == spec_inner_part(src@, origin as int, *sub, base@, *parser, *env, depth as nat),
    decreases depth, *sub, 1int,
{
    let mut node = base;
    let all: usize = src.as_bytes().len();
    proof {
        lemma_within(*sub, src@, origin as int);
    }
    if sub.rule == Rule::DelimitedInner {
        let text = sub.as_str(src, origin);
        let example = match node.element {
            Element::TypedBlock { kind: BlockType::Example } => true,
            _ => false,
        };
        if example {
            let roots = match reparse_inside(
                src,
                origin + sub.start,
                origin + sub.end,
                parser,
                Rule::Asciidoc,
                depth,
            ) {
                Err(halt) => {
                    return Err(halt);
                },
                Ok(roots) => roots,
            };
            match push_elements(src, origin + sub.start, roots, node, parser, env, depth - 1) {
                Err(halt) => {
                    return Err(halt);
                },
                Ok(filled) => {
                    node = filled;
                },
            }
        }
        node.add_attribute("content", AttributeValue::Ref(text));
    }
    Ok(node)
}

/// Gives `base` what stands between the delimiters of the block `element`.
pub fn process_delimited_inner<'a>(
    src: &'a str,
    origin: usize,
    element: &Pair,
    base: ElementSpan<'a>,
    parser: &AsciidocParser,
    env: &Env,
    depth: usize,
) -> (r: Result<ElementSpan<'a>, Halt<'a>>)
    requires
        element.within(src@, origin as int),
        parser.wf(),
    ensures
        span_result(r) == spec_process_delimited_inner(
            src@,
            origin as int,
            *element,
            base@,
            *parser,
            *env,
            depth as nat,
        ),
    decreases depth, *element, 0int,
{
    proof {
        lemma_within(*element, src@, origin as int);
    }
    let mut node = base;
    let items = &element.inner;
    let mut i: usize = 0;
    while i < items.len()
        invariant
            i <= items@.len(),
            items@ == element.inner@,
            all_within(items@, src@, origin as int),
            parser.wf(),
            spec_inner_parts(
                src@,
                origin as int,
                items@,
                i as int,
                node@,
                *parser,
                *env,
                depth as nat,
            )
                == spec_inner_parts(
                    src@,
                    origin as int,
                    items@,
                    0,
                    base@,
                    *parser,
                    *env,
                    depth as nat,
                ),
        decreases items@.len() - i,
    {
        match inner_part(src, origin, &items[i], node, parser, env, depth) {
            Err(halt) => {
                return Err(halt);
            },
            Ok(next) => {
                node = next;
            },
        }
        i = i + 1;
    }
    Ok(node)
}

/// Says what the syntax node `sub` of a table becomes.
pub fn table_element<'a>(
    src: &'a str,
    origin: usize,
    sub: &Pair,
    formats: &Vec<CellFormat>,
    parser: &AsciidocParser,
    env: &Env,
    depth: usize,
) -> (r: Result<Option<ElementSpan<'a>>, Halt<'a>>)
    requires
        sub.within(src@, origin as int),
        parser.wf(),
    ensures
        element_result(r) == spec_table_element(
            src@,
            origin as int,
            *sub,
            formats@,
            *parser,
            *env,
            depth as nat,
        ),
    decreases depth, *sub, 2int,
{
    if sub.rule == Rule::TableRow {
        proof {
            lemma_within(*sub, src@, origin as int);
        }
        let start = set_span(src, origin, sub);
        match process_table_row(src, origin, sub, start, formats, parser, env, depth) {
            Ok(row) => Ok(Some(row)),
            Err(halt) => Err(halt),
        }
    } else {
        process_element(src, origin, sub, parser, env, depth)
    }
}

/// Adds to `base`, as children, what the syntax nodes `items` of a table
/// become.
pub fn push_table_elements<'a>(
    src: &'a str,
    origin: usize,
    items: &Vec<Pair>,
    base: ElementSpan<'a>,
    formats: &Vec<CellFormat>,
    parser: &AsciidocParser,
    env: &Env,
    depth: usize,
) -> (r: Result<ElementSpan<'a>, Halt<'a>>)
    requires
        all_within(items@, src@, origin as int),
        parser.wf(),
    ensures
        span_result(r) == spec_push_table_elements(
            src@,
            origin as int,
            items@,
            0,
            base@,
            formats@,
            *parser,
            *env,
            depth as nat,
        ),
    decreases depth, items@, 0int,
{
    let mut node = base;
    let mut i: usize = 0;
    while i < items.len()
        invariant
            i <= items@.len(),
            all_within(items@, src@, origin as int),
            parser.wf(),
            spec_push_table_elements(
                src@,
                origin as int,
                items@,
                i as int,
                node@,
                formats@,
                *parser,
                *env,
                depth as nat,
            ) == spec_push_table_elements(
                src@,
                origin as int,
                items@,
                0,
                base@,
                formats@,
                *parser,
                *env,
                depth as nat,
            ),
        decreases items@.len() - i,
    {
        match table_element(src, origin, &items[i], formats, parser, env, depth) {
            Err(halt) => {
                return Err(halt);
            },
            Ok(Some(child)) => {
                node.add_child(child);
            },
            Ok(None) => {},
        }
        i = i + 1;
    }
    Ok(node)
}

/// Adds to `base`, as children, what the nodes directly inside each of
/// `roots` become as nodes of a table.
pub fn push_inner_elements<'a>(
    src: &'a str,
    origin: usize,
    roots: &Vec<Pair>,
    base: ElementSpan<'a>,
    formats: &Vec<CellFormat>,
    parser: &AsciidocParser,
    env: &Env,
    depth: usize,
) -> (r: Result<ElementSpan<'a>, Halt<'a>>)
    requires
        all_within(roots@, src@, origin as int),
        parser.wf(),
    ensures
        span_result(r) == spec_push_inner_elements(
            src@,
            origin as int,
            roots@,
            0,
            base@,
            formats@,
            *parser,
            *env,
            depth as nat,
        ),
    decreases depth, roots@, 0int,
{
    let mut node = base;
    let mut i: usize = 0;
    while i < roots.len()
        invariant
            i <= roots@.len(),
            all_within(roots@, src@, origin as int),
            parser.wf(),
            spec_push_inner_elements(
                src@,
                origin as int,
                roots@,
                i as int,
                node@,
                formats@,
                *parser,
                *env,
                depth as nat,
            ) == spec_push_inner_elements(
                src@,
                origin as int,
                roots@,
                0,
                base@,
                formats@,
                *parser,
                *env,
                depth as nat,
            ),
        decreases roots@.len() - i,
    {
        proof {
            lemma_within(roots@[i as int], src@, origin as int);
        }
        match push_table_elements(src, origin, &roots[i].inner, node, formats, parser, env, depth) {
            Err(halt) => {
                return Err(halt);
            },
            Ok(next) => {
                node = next;
            },
        }
        i = i + 1;
    }
    Ok(node)
}

/// Takes the part `sub` of a table into `base`.
pub fn table_part<'a>(
    src: &'a str,
    origin: usize,
    sub: &Pair,
    base: ElementSpan<'a>,
    formats: &Vec<CellFormat>,
    parser: &AsciidocParser,
    env: &Env,
    depth: usize,
) -> (r: Result<ElementSpan<'a>, Halt<'a>>)
    requires
        sub.within(src@, origin as int),
        parser.wf(),
    ensures
        span_result(r) == spec_table_part(
            src@,
            origin as int,
            *sub,
            base@,
            formats@,
            *parser,
            *env,
            depth as nat,
        ),
    decreases depth, *sub, 3int,
{
    let mut node = base;
    let all: usize = src.as_bytes().len();
    proof {
        lemma_within(*sub, src@, origin as int);
    }
    if sub.rule == Rule::DelimitedInner {
        let text = sub.as_str(src, origin);
        let roots = match reparse_inside(
            src,
            origin + sub.start,
            origin + sub.end,
            parser,
            Rule::TableInner,
            depth,
        ) {
            Err(halt) => {
                return Err(halt);
            },
            Ok(roots) => roots,
        };
        match push_inner_elements(
            src,
            origin + sub.start,
            roots,
            node,
            formats,
            parser,
            env,
            depth - 1,
        ) {
            Err(halt) => Err(halt),
            Ok(filled) => {
                let mut filled = filled;
                filled.add_attribute("content", AttributeValue::Ref(text));
                Ok(filled)
            },
        }
    } else if sub.rule == Rule::TableRow {
        match table_element(src, origin, sub, formats, parser, env, depth) {
            Err(halt) => Err(halt),
            Ok(Some(row)) => {
                node.add_child(row);
                Ok(node)
            },
            Ok(None) => Ok(node),
        }
    } else {
        Ok(node)
    }
}

/// Reads the formats of the columns of the table `base`.
pub fn table_formats(base: &ElementSpan) -> (r: Vec<CellFormat>)
    ensures
        r@ == spec_table_formats(base@),
{
    match base.get_attribute("cols") {
        Some(cols) => parse_row_format(cols),
        None => parse_row_format(""),
    }
}

/// Makes `base` the table that stands in `element`.
pub fn process_inner_table<'a>(
    src: &'a str,
    origin: usize,
    element: &Pair,
    base: ElementSpan<'a>,
    parser: &AsciidocParser,
    env: &Env,
    depth: usize,
) -> (r: Result<ElementSpan<'a>, Halt<'a>>)
    requires
        element.within(src@, origin as int),
        parser.wf(),
    ensures
        span_result(r) == spec_process_inner_table(
            src@,
            origin as int,
            *element,
            base@,
            *parser,
            *env,
            depth as nat,
        ),
    decreases depth, *element, 0int,
{
    proof {
        lemma_within(*element, src@, origin as int);
    }
    let formats = table_formats(&base);
    let mut node = base;
    let items = &element.inner;
    let mut i: usize = 0;
    while i < items.len()
        invariant
            i <= items@.len(),
            items@ == element.inner@,
            all_within(items@, src@, origin as int),
            parser.wf(),
            formats@ == spec_table_formats(base@),
            spec_table_parts(
                src@,
                origin as int,
                items@,
                i as int,
                node@,
                formats@,
                *parser,
                *env,
                depth as nat,
            ) == spec_table_parts(
                src@,
                origin as int,
                items@,
                0,
                base@,
                formats@,
                *parser,
                *env,
                depth as nat,
            ),
        decreases items@.len() - i,
    {
        match table_part(src, origin, &items[i], node, &formats, parser, env, depth) {
            Err(halt) => {
                return Err(halt);
            },
            Ok(next) => {
                node = next;
            },
        }
        i = i + 1;
    }
    Ok(node)
}

/// Makes `base` the table row `element`, with cells in the formats `formats`.
pub fn process_table_row<'a>(
    src: &'a str,
    origin: usize,
    element: &Pair,
    base: ElementSpan<'a>,
    formats: &Vec<CellFormat>,
    parser: &AsciidocParser,
    env: &Env,
    depth: usize,
) -> (r: Result<ElementSpan<'a>, Halt<'a>>)
    requires
        element.within(src@, origin as int),
        parser.wf(),
    ensures
        span_result(r) == spec_process_table_row(
            src@,
            origin as int,
            *element,
            base@,
            formats@,
            *parser,
            *env,
            depth as nat,
        ),
    decreases depth, *element, 0int,
{
    proof {
        lemma_within(*element, src@, origin as int);
    }
    let mut node = base;
    node.element = Element::TableRow;
    let ghost first = node@;
    let items = &element.inner;
    let mut i: usize = 0;
    let mut done = false;
    while i < items.len() && !done
        invariant
            i <= items@.len(),
            items@ == element.inner@,
            first == base@.with_element(ElementView::TableRow),
            all_within(items@, src@, origin as int),
            parser.wf(),
            !done ==> spec_row_cells(
                src@,
                origin as int,
                items@,
                i as int,
                node@,
                formats@,
                *parser,
                *env,
                depth as nat,
            ) == spec_row_cells(
                src@,
                origin as int,
                items@,
                0,
                first,
                formats@,
                *parser,
                *env,
                depth as nat,
            ),
            done ==> Ok::<ElementSpanView, HaltView>(node@) == spec_row_cells(
                src@,
                origin as int,
                items@,
                0,
                first,
                formats@,
                *parser,
                *env,
                depth as nat,
            ),
        decreases items@.len() - i, (if done { 0int } else { 1int }),
    {
        match cell_format_at(formats, i) {
            None => {
                done = true;
            },
            Some(format) => {
                proof {
                    lemma_within(items@[i as int], src@, origin as int);
                }
                let start = set_span(src, origin, &items[i]);
                match process_table_cell(
                    src,
                    origin,
                    &items[i],
                    start,
                    &format,
                    parser,
                    env,
                    depth,
                ) {
                    Err(halt) => {
                        return Err(halt);
                    },
                    Ok(cell) => {
                        node.add_child(cell);
                    },
                }
                i = i + 1;
            },
        }
    }
    Ok(node)
}

/// Finds where in `src` a table cell holds something.
pub fn span_of_cell(src: &str, origin: usize, element: &Pair) -> (r: (usize, usize))
    requires
        element.within(src@, origin as int),
    ensures
        (r.0 as int, r.1 as int) == cell_span(src@, origin as int, *element),
        valid_span(src@, r.0 as int, r.1 as int),
{
    proof {
        lemma_within(*element, src@, origin as int);
    }
    let all: usize = src.as_bytes().len();
    let mut i: usize = 0;
    while i < element.inner.len()
        invariant
            i <= element.inner@.len(),
            all == byte_len(src@),
            origin + element.end <= all,
            all_within(element.inner@, src@, origin as int),
            first_of(element.inner@, Rule::TableCellContent, i as int) == first_of(
                element.inner@,
                Rule::TableCellContent,
                0,
            ),
        decreases element.inner@.len() - i,
    {
        let sub = &element.inner[i];
        if sub.rule == Rule::TableCellContent {
            proof {
                lemma_within(*sub, src@, origin as int);
            }
            let text = sub.as_str(src, origin);
            let (from, to) = trim_span(text);
            proof {
                lemma_trim_span(text@);
                lemma_window(
                    src@,
                    origin + sub.start,
                    origin + sub.end,
                    from as int,
                    to as int,
                );
                lemma_span_fits(src@, origin + sub.start + from, origin + sub.start + to);
            }
            let first: usize = origin + sub.start;
            return (first + from, first + to);
        }
        i = i + 1;
    }
    (origin + element.end, origin + element.end)
}

/// Makes `base` the table cell `element`, in the format `cell_format`.
pub fn process_table_cell<'a>(
    src: &'a str,
    origin: usize,
    element: &Pair,
    base: ElementSpan<'a>,
    cell_format: &CellFormat,
    parser: &AsciidocParser,
    env: &Env,
    depth: usize,
) -> (r: Result<ElementSpan<'a>, Halt<'a>>)
    requires
        element.within(src@, origin as int),
        parser.wf(),
    ensures
        span_result(r) == spec_process_table_cell(
            src@,
            origin as int,
            *element,
            base@,
            *cell_format,
            *parser,
            *env,
            depth as nat,
        ),
    decreases depth, *element, 0int,
{
    let mut node = base;
    let (start, end) = span_of_cell(src, origin, element);
    let place = node_at(src, start, end, Element::TableCell);
    node.element = Element::TableCell;
    node.content = place.content;
    node.start = place.start;
    node.end = place.end;
    node.start_line = place.start_line;
    node.start_col = place.start_col;
    node.end_line = place.end_line;
    node.end_col = place.end_col;
    if cell_format.kind == CellKind::Asciidoc {
        let roots = match reparse_inside(src, start, end, parser, Rule::Asciidoc, depth) {
            Err(halt) => {
                return Err(halt);
            },
            Ok(roots) => roots,
        };
        push_elements(src, start, roots, node, parser, env, depth - 1)
    } else {
        Ok(node)
    }
}

} // verus!
