//! Every node of a document lies in the text of the document and holds, as
//! its content, the text between its own offsets. This module states that and
//! proves it of what the reader makes: of every node, at any depth, also of
//! the nodes of a document nested in an example or in a table cell, and of
//! the rows and cells of a table.

use vstd::prelude::*;
use crate::ast::{BlockType, ElementSpanView, ElementView, ListType};
use crate::attributes::{
    anchor_step,
    attribute_list_step,
    attribute_step,
    blocktitle_step,
    inline_anchor_step,
    inline_attribute_list_step,
    spec_process_anchor,
    spec_process_attribute_list,
    spec_process_blocktitle,
    spec_process_inline_anchor,
    spec_process_inline_attribute_list,
    spec_process_named_attribute,
};
use crate::cst::{all_within, lemma_all_within_piece, lemma_within, Pair, Rule};
use crate::dispatch::{
    cell_span,
    default_cell_format,
    first_of,
    header_step,
    spec_delimited_part,
    spec_delimited_parts,
    spec_inner_part,
    spec_inner_parts,
    spec_last_element,
    spec_list_item,
    spec_list_item_part,
    spec_process_element,
    spec_process_table_cell,
    spec_process_table_row,
    spec_push_elements,
    spec_push_inner_elements,
    spec_push_table_elements,
    spec_reparse,
    spec_row_cells,
    spec_table_element,
    spec_table_formats,
    spec_table_part,
    spec_table_parts,
    title_block_step,
};
use crate::element::{spec_from_element, spec_node_at, spec_set_span};
use crate::fold::{fold, fold_while};
use crate::image::{image_step, spec_image_walk, spec_process_image};
use crate::inline::{
    inline_step,
    link_step,
    paragraph_step,
    spec_process_inline,
    spec_process_link,
    spec_process_paragraph,
    spec_process_xref,
    spec_style,
    xref_step,
};
use crate::known::{lemma_answer_fits, AsciidocParser, Env};
use crate::reader::{spec_elements, spec_parse, Opts};
use crate::table::{format_at, CellFormat};
use crate::text::{
    byte_len,
    lemma_span_fits,
    lemma_trim_span,
    lemma_window,
    slice,
    trim_from,
    trim_to,
    valid_span,
};
use crate::title::{spec_process_title, title_step};

verus! {

/// `node` lies in `text`, and its content is the text between its offsets.
pub open spec fn rooted(node: ElementSpanView, text: Seq<char>) -> bool {
    &&& node.start <= node.end <= byte_len(text)
    &&& node.content == slice(text, node.start as int, node.end as int)
}

/// `node` and every node below it lie in `text` and hold, as their content,
/// the text between their offsets.
pub open spec fn faithful(node: ElementSpanView, text: Seq<char>) -> bool
    decreases node,
{
    rooted(node, text) && forall|i: int|
        0 <= i < node.children.len() ==> faithful(#[trigger] node.children[i], text)
}

/// `after` lies where `before` lies and holds the same content and children.
pub open spec fn noted(before: ElementSpanView, after: ElementSpanView) -> bool {
    &&& after.content == before.content
    &&& after.start == before.start
    &&& after.end == before.end
    &&& after.children == before.children
}

/// `after` lies where `before` lies and holds the same content. It has the
/// children of `before` and, after them, children that are faithful to `text`.
pub open spec fn grown(before: ElementSpanView, after: ElementSpanView, text: Seq<char>) -> bool {
    &&& after.content == before.content
    &&& after.start == before.start
    &&& after.end == before.end
    &&& after.children.len() >= before.children.len()
    &&& forall|i: int|
        0 <= i < before.children.len() ==> #[trigger] after.children[i] == before.children[i]
    &&& forall|i: int|
        before.children.len() <= i < after.children.len() ==> faithful(
            #[trigger] after.children[i],
            text,
        )
}

/// A grown node is faithful where the node it grew from is.
pub proof fn lemma_grown_faithful(before: ElementSpanView, after: ElementSpanView, text: Seq<char>)
    requires
        faithful(before, text),
        grown(before, after, text),
    ensures
        faithful(after, text),
{
    assert forall|i: int| 0 <= i < after.children.len() implies faithful(
        #[trigger] after.children[i],
        text,
    ) by {
        if i < before.children.len() {
            assert(after.children[i] == before.children[i]);
        }
    }
}

/// A node that is made for a byte range between characters is faithful.
pub proof fn lemma_node_faithful(src: Seq<char>, start: int, end: int, element: ElementView)
    requires
        0 <= start,
        valid_span(src, start, end),
    ensures
        faithful(spec_node_at(src, start, end, element), src),
{
    lemma_span_fits(src, start, end);
}

/// The node that a syntax node starts as is faithful.
pub proof fn lemma_start_faithful(src: Seq<char>, origin: int, element: Pair, kind: ElementView)
    requires
        element.within(src, origin),
    ensures
        faithful(spec_from_element(src, origin, element, kind), src),
        faithful(spec_set_span(src, origin, element), src),
{
    lemma_within(element, src, origin);
    lemma_node_faithful(src, origin + element.start, origin + element.end, kind);
    lemma_node_faithful(
        src,
        origin + element.start,
        origin + element.end,
        spec_set_span(src, origin, element).element,
    );
}

/// A step that only notes things on a node does so however often it is taken.
pub proof fn lemma_fold_notes(
    items: Seq<Pair>,
    from: int,
    before: ElementSpanView,
    acc: ElementSpanView,
    step: spec_fn(ElementSpanView, Pair) -> ElementSpanView,
)
    requires
        noted(before, acc),
        forall|a: ElementSpanView, x: Pair| noted(a, #[trigger] step(a, x)),
    ensures
        noted(before, fold(items, from, acc, step)),
    decreases items.len() - from,
{
    if 0 <= from < items.len() {
        lemma_fold_notes(items, from + 1, before, step(acc, items[from]), step);
    }
}

/// A step that only lets a node grow does so however often it is taken.
pub proof fn lemma_fold_grows(
    items: Seq<Pair>,
    from: int,
    before: ElementSpanView,
    acc: ElementSpanView,
    step: spec_fn(ElementSpanView, Pair) -> ElementSpanView,
    text: Seq<char>,
)
    requires
        grown(before, acc, text),
        forall|a: ElementSpanView, i: int|
            0 <= i < items.len() ==> grown(a, #[trigger] step(a, items[i]), text),
    ensures
        grown(before, fold(items, from, acc, step), text),
    decreases items.len() - from,
{
    if 0 <= from < items.len() {
        let next = step(acc, items[from]);
        assert(grown(acc, next, text));
        lemma_fold_grows(items, from + 1, before, next, step, text);
    }
}

/// As [`lemma_fold_grows`], for steps that may end the run.
pub proof fn lemma_fold_while_grows(
    items: Seq<Pair>,
    from: int,
    before: ElementSpanView,
    acc: ElementSpanView,
    step: spec_fn(ElementSpanView, Pair) -> (ElementSpanView, bool),
    text: Seq<char>,
)
    requires
        grown(before, acc, text),
        forall|a: ElementSpanView, i: int|
            0 <= i < items.len() ==> grown(a, (#[trigger] step(a, items[i])).0, text),
    ensures
        grown(before, fold_while(items, from, acc, step), text),
    decreases items.len() - from,
{
    if 0 <= from < items.len() {
        let next = step(acc, items[from]);
        assert(grown(acc, next.0, text));
        if next.1 {
            lemma_fold_while_grows(items, from + 1, before, next.0, step, text);
        }
    }
}

/// An inline anchor only notes things on a node.
pub proof fn lemma_inline_anchor_notes(
    src: Seq<char>,
    origin: int,
    element: Pair,
    base: ElementSpanView,
)
    ensures
        noted(base, spec_process_inline_anchor(src, origin, element, base)),
{
    assert forall|a: ElementSpanView, x: Pair|
        noted(a, #[trigger] inline_anchor_step(src, origin)(a, x)) by {}
    lemma_fold_notes(element.inner@, 0, base, base, inline_anchor_step(src, origin));
}

/// An anchor only notes things on a node.
pub proof fn lemma_anchor_notes(src: Seq<char>, origin: int, element: Pair, base: ElementSpanView)
    ensures
        noted(base, spec_process_anchor(src, origin, element, base)),
{
    assert forall|a: ElementSpanView, x: Pair| noted(a, #[trigger] anchor_step(src, origin)(a, x)) by {
        lemma_inline_anchor_notes(src, origin, x, a);
    }
    lemma_fold_notes(element.inner@, 0, base, base, anchor_step(src, origin));
}

/// A block title only notes things on a node.
pub proof fn lemma_blocktitle_notes(
    src: Seq<char>,
    origin: int,
    element: Pair,
    base: ElementSpanView,
)
    ensures
        noted(base, spec_process_blocktitle(src, origin, element, base)),
{
    assert forall|a: ElementSpanView, x: Pair|
        noted(a, #[trigger] blocktitle_step(src, origin)(a, x)) by {}
    lemma_fold_notes(element.inner@, 0, base, base, blocktitle_step(src, origin));
}

/// An attribute list only notes things on a node.
pub proof fn lemma_inline_attribute_list_notes(
    src: Seq<char>,
    origin: int,
    element: Pair,
    base: ElementSpanView,
)
    ensures
        noted(base, spec_process_inline_attribute_list(src, origin, element, base)),
{
    assert forall|a: ElementSpanView, x: Pair|
        noted(a, #[trigger] attribute_step(src, origin)(a, x)) by {
        assert(noted(a, spec_process_named_attribute(src, origin, x, a)));
    }
    assert forall|a: ElementSpanView, x: Pair|
        noted(a, #[trigger] inline_attribute_list_step(src, origin)(a, x)) by {
        lemma_fold_notes(x.inner@, 0, a, a, attribute_step(src, origin));
    }
    lemma_fold_notes(element.inner@, 0, base, base, inline_attribute_list_step(src, origin));
}

/// The attribute list of a block only notes things on a node.
pub proof fn lemma_attribute_list_notes(
    src: Seq<char>,
    origin: int,
    element: Pair,
    base: ElementSpanView,
)
    ensures
        noted(base, spec_process_attribute_list(src, origin, element, base)),
{
    assert forall|a: ElementSpanView, x: Pair|
        noted(a, #[trigger] attribute_list_step(src, origin)(a, x)) by {
        lemma_inline_attribute_list_notes(src, origin, x, a);
    }
    lemma_fold_notes(element.inner@, 0, base, base, attribute_list_step(src, origin));
}

/// A title lets a node grow.
pub proof fn lemma_title_grows(src: Seq<char>, origin: int, element: Pair, base: ElementSpanView)
    ensures
        grown(base, spec_process_title(src, origin, element, base), src),
{
    let items = element.inner@;
    assert forall|a: ElementSpanView, i: int| 0 <= i < items.len() implies grown(
        a,
        (#[trigger] title_step(src, origin)(a, items[i])).0,
        src,
    ) by {}
    lemma_fold_while_grows(items, 0, base, base, title_step(src, origin), src);
}

/// Styled text lets a node grow.
pub proof fn lemma_style_grows(
    src: Seq<char>,
    origin: int,
    sub: Pair,
    base: ElementSpanView,
    style: Seq<char>,
)
    ensures
        grown(base, spec_style(src, origin, sub, base, style), src),
{
}

/// A link lets a node grow.
pub proof fn lemma_link_grows(src: Seq<char>, origin: int, element: Pair, base: ElementSpanView)
    requires
        element.within(src, origin),
    ensures
        grown(base, spec_process_link(src, origin, element, base), src),
{
    let items = element.inner@;
    lemma_within(element, src, origin);
    assert forall|a: ElementSpanView, i: int| 0 <= i < items.len() implies grown(
        a,
        #[trigger] link_step(src, origin)(a, items[i]),
        src,
    ) by {
        lemma_inline_attribute_list_notes(src, origin, items[i], a);
        lemma_start_faithful(src, origin, items[i], ElementView::Text);
    }
    lemma_fold_grows(
        items,
        0,
        base,
        base.with_element(ElementView::Link),
        link_step(src, origin),
        src,
    );
}

/// A cross reference lets a node grow.
pub proof fn lemma_xref_grows(src: Seq<char>, origin: int, element: Pair, base: ElementSpanView)
    ensures
        grown(base, spec_process_xref(src, origin, element, base), src),
{
    let items = element.inner@;
    assert forall|a: ElementSpanView, i: int| 0 <= i < items.len() implies grown(
        a,
        #[trigger] xref_step(src, origin)(a, items[i]),
        src,
    ) by {}
    lemma_fold_grows(
        items,
        0,
        base,
        base.with_element(ElementView::XRef),
        xref_step(src, origin),
        src,
    );
}

/// An inline element lets a node grow.
pub proof fn lemma_inline_grows(src: Seq<char>, origin: int, element: Pair, base: ElementSpanView)
    requires
        element.within(src, origin),
    ensures
        grown(base, spec_process_inline(src, origin, element, base), src),
{
    let items = element.inner@;
    lemma_within(element, src, origin);
    assert forall|a: ElementSpanView, i: int| 0 <= i < items.len() implies grown(
        a,
        #[trigger] inline_step(src, origin)(a, items[i]),
        src,
    ) by {
        let x = items[i];
        lemma_link_grows(src, origin, x, a);
        lemma_xref_grows(src, origin, x, a);
        lemma_style_grows(src, origin, x, a, "monospaced"@);
        lemma_anchor_notes(src, origin, x, spec_style(src, origin, x, a, "monospaced"@));
        lemma_style_grows(src, origin, x, a, "strong"@);
        lemma_style_grows(src, origin, x, a, "em"@);
    }
    lemma_fold_grows(items, 0, base, base, inline_step(src, origin), src);
}

/// A paragraph is faithful to its text.
pub proof fn lemma_paragraph_faithful(src: Seq<char>, origin: int, element: Pair)
    requires
        element.within(src, origin),
    ensures
        faithful(spec_process_paragraph(src, origin, element), src),
{
    let items = element.inner@;
    let first = spec_from_element(src, origin, element, ElementView::Paragraph);
    lemma_within(element, src, origin);
    lemma_start_faithful(src, origin, element, ElementView::Paragraph);
    assert forall|a: ElementSpanView, i: int| 0 <= i < items.len() implies grown(
        a,
        #[trigger] paragraph_step(src, origin)(a, items[i]),
        src,
    ) by {
        let x = items[i];
        let blank = spec_set_span(src, origin, x);
        lemma_start_faithful(src, origin, x, ElementView::Text);
        lemma_inline_grows(src, origin, x, blank);
        lemma_grown_faithful(blank, spec_process_inline(src, origin, x, blank), src);
    }
    lemma_fold_grows(items, 0, first, first, paragraph_step(src, origin), src);
    lemma_grown_faithful(first, spec_process_paragraph(src, origin, element), src);
}

/// The nodes inside an image only note things on a node.
pub proof fn lemma_image_walk_notes(
    src: Seq<char>,
    origin: int,
    items: Seq<Pair>,
    from: int,
    base: ElementSpanView,
)
    ensures
        noted(base, spec_image_walk(src, origin, items, from, base)),
    decreases items, items.len() - from,
{
    if 0 <= from < items.len() {
        let here = image_step(src, origin, items[from], base);
        lemma_inline_attribute_list_notes(src, origin, items[from], base);
        lemma_image_walk_notes(src, origin, items[from].inner@, 0, here);
        let below = spec_image_walk(src, origin, items[from].inner@, 0, here);
        lemma_image_walk_notes(src, origin, items, from + 1, below);
    }
}

/// An image lets a node grow.
pub proof fn lemma_image_grows(
    src: Seq<char>,
    origin: int,
    element: Pair,
    base: ElementSpanView,
    env: Env,
)
    ensures
        match spec_process_image(src, origin, element, base, env) {
            Ok(image) => grown(base, image, src),
            Err(_) => true,
        },
{
    lemma_image_walk_notes(src, origin, element.inner@, 0, base.with_element(ElementView::Image));
}

/// The syntax nodes that are known for a text nested in `src` lie in `src`.
pub proof fn lemma_reparse_fits(
    src: Seq<char>,
    start: int,
    end: int,
    parser: AsciidocParser,
    rule: Rule,
    depth: nat,
)
    requires
        parser.wf(),
        0 <= start,
        valid_span(src, start, end),
    ensures
        match spec_reparse(parser, rule, slice(src, start, end), depth) {
            Ok(roots) => all_within(roots, src, start) && depth > 0,
            Err(_) => true,
        },
{
    lemma_answer_fits(parser, rule, slice(src, start, end));
    match spec_reparse(parser, rule, slice(src, start, end), depth) {
        Ok(roots) => {
            lemma_all_within_piece(roots, src, start, end);
        },
        Err(_) => {},
    }
}

/// Where a table cell holds something, the text is cut between characters.
pub proof fn lemma_cell_span(src: Seq<char>, origin: int, element: Pair)
    requires
        element.within(src, origin),
    ensures
        0 <= cell_span(src, origin, element).0,
        valid_span(src, cell_span(src, origin, element).0, cell_span(src, origin, element).1),
{
    lemma_within(element, src, origin);
    lemma_first_of(element.inner@, Rule::TableCellContent, 0);
    match first_of(element.inner@, Rule::TableCellContent, 0) {
        Some(content) => {
            lemma_within(content, src, origin);
            let text = content.text(src, origin);
            lemma_trim_span(text);
            lemma_window(
                src,
                origin + content.start,
                origin + content.end,
                trim_from(text) as int,
                trim_to(text) as int,
            );
        },
        None => {},
    }
}

/// The first of some nodes that is of a rule is one of the nodes.
pub proof fn lemma_first_of(items: Seq<Pair>, rule: Rule, from: int)
    requires
        0 <= from,
    ensures
        match first_of(items, rule, from) {
            Some(found) => exists|i: int| from <= i < items.len() && items[i] == found,
            None => true,
        },
    decreases items.len() - from,
{
    if from < items.len() {
        if items[from].rule != rule {
            lemma_first_of(items, rule, from + 1);
        }
    }
}

/// What a syntax node becomes is faithful to the text.
pub proof fn lemma_element_content(
    src: Seq<char>,
    origin: int,
    element: Pair,
    parser: AsciidocParser,
    env: Env,
    depth: nat,
)
    requires
        element.within(src, origin),
        parser.wf(),
    ensures
        match spec_process_element(src, origin, element, parser, env, depth) {
            Ok(Some(node)) => faithful(node, src),
            _ => true,
        },
    decreases depth, element, 1int,
{
    let base = spec_set_span(src, origin, element);
    let items = element.inner@;
    lemma_within(element, src, origin);
    lemma_start_faithful(src, origin, element, ElementView::Text);
    match element.rule {
        Rule::DelimitedBlock => {
            lemma_delimited_parts(src, origin, items, 0, base, base, parser, env, depth);
            match spec_delimited_parts(src, origin, items, 0, base, parser, env, depth) {
                Ok(node) => {
                    lemma_grown_faithful(base, node, src);
                },
                Err(_) => {},
            }
        },
        Rule::Header => {
            assert forall|a: ElementSpanView, i: int| 0 <= i < items.len() implies grown(
                a,
                (#[trigger] header_step(src, origin)(a, items[i])).0,
                src,
            ) by {
                lemma_title_grows(src, origin, items[i], a);
            }
            lemma_fold_while_grows(items, 0, base, base, header_step(src, origin), src);
            lemma_grown_faithful(base, fold_while(items, 0, base, header_step(src, origin)), src);
        },
        Rule::Title => {
            lemma_title_grows(src, origin, element, base);
            lemma_grown_faithful(base, spec_process_title(src, origin, element, base), src);
        },
        Rule::TitleBlock => {
            assert forall|a: ElementSpanView, i: int| 0 <= i < items.len() implies grown(
                a,
                (#[trigger] title_block_step(src, origin)(a, items[i])).0,
                src,
            ) by {
                lemma_title_grows(src, origin, items[i], a);
                lemma_anchor_notes(src, origin, items[i], a);
            }
            lemma_fold_while_grows(items, 0, base, base, title_block_step(src, origin), src);
            lemma_grown_faithful(
                base,
                fold_while(items, 0, base, title_block_step(src, origin)),
                src,
            );
        },
        Rule::Paragraph => {
            lemma_paragraph_faithful(src, origin, element);
        },
        Rule::ListParagraph => {
            lemma_paragraph_faithful(src, origin, element);
        },
        Rule::List => {
            lemma_last_element_content(src, origin, items, 0, base, parser, env, depth);
        },
        Rule::Block => {
            lemma_last_element_content(src, origin, items, 0, base, parser, env, depth);
        },
        Rule::BulletList => {
            let list = base.with_element(ElementView::List(ListType::Bullet));
            lemma_push_elements_content(src, origin, items, 0, list, list, parser, env, depth);
            match spec_push_elements(src, origin, items, 0, list, parser, env, depth) {
                Ok(node) => {
                    lemma_grown_faithful(list, node, src);
                },
                Err(_) => {},
            }
        },
        Rule::NumberedList => {
            let list = base.with_element(ElementView::List(ListType::Number));
            lemma_push_elements_content(src, origin, items, 0, list, list, parser, env, depth);
            match spec_push_elements(src, origin, items, 0, list, parser, env, depth) {
                Ok(node) => {
                    lemma_grown_faithful(list, node, src);
                },
                Err(_) => {},
            }
        },
        Rule::BulletListElement => {
            lemma_list_item_content(
                src,
                origin,
                items,
                0,
                base,
                base,
                Rule::Bullet,
                parser,
                env,
                depth,
            );
            match spec_list_item(src, origin, items, 0, base, Rule::Bullet, parser, env, depth) {
                Ok(node) => {
                    lemma_grown_faithful(base, node, src);
                },
                Err(_) => {},
            }
        },
        Rule::NumberBulletListElement => {
            lemma_list_item_content(
                src,
                origin,
                items,
                0,
                base,
                base,
                Rule::NumberBullet,
                parser,
                env,
                depth,
            );
            match spec_list_item(
                src,
                origin,
                items,
                0,
                base,
                Rule::NumberBullet,
                parser,
                env,
                depth,
            ) {
                Ok(node) => {
                    lemma_grown_faithful(base, node, src);
                },
                Err(_) => {},
            }
        },
        Rule::ImageBlock => {
            lemma_image_grows(src, origin, element, base, env);
            match spec_process_image(src, origin, element, base, env) {
                Ok(node) => {
                    lemma_grown_faithful(base, node, src);
                },
                Err(_) => {},
            }
        },
        Rule::TableRow => {
            lemma_table_row_content(
                src,
                origin,
                element,
                base,
                seq![default_cell_format()],
                parser,
                env,
                depth,
            );
        },
        Rule::TableCell => {
            lemma_table_cell_content(
                src,
                origin,
                element,
                base,
                default_cell_format(),
                parser,
                env,
                depth,
            );
        },
        Rule::Inline => {
            lemma_inline_grows(src, origin, element, base);
            lemma_grown_faithful(base, spec_process_inline(src, origin, element, base), src);
        },
        _ => {},
    }
}

/// The children that are added for syntax nodes are faithful to the text.
pub proof fn lemma_push_elements_content(
    src: Seq<char>,
    origin: int,
    items: Seq<Pair>,
    from: int,
    before: ElementSpanView,
    base: ElementSpanView,
    parser: AsciidocParser,
    env: Env,
    depth: nat,
)
    requires
        all_within(items, src, origin),
        parser.wf(),
        grown(before, base, src),
    ensures
        match spec_push_elements(src, origin, items, from, base, parser, env, depth) {
            Ok(node) => grown(before, node, src),
            Err(_) => true,
        },
    decreases depth, items, items.len() - from,
{
    if 0 <= from < items.len() {
        lemma_element_content(src, origin, items[from], parser, env, depth);
        match spec_process_element(src, origin, items[from], parser, env, depth) {
            Err(_) => {},
            Ok(Some(child)) => {
                lemma_push_elements_content(
                    src,
                    origin,
                    items,
                    from + 1,
                    before,
                    base.add_child(child),
                    parser,
                    env,
                    depth,
                );
            },
            Ok(None) => {
                lemma_push_elements_content(
                    src,
                    origin,
                    items,
                    from + 1,
                    before,
                    base,
                    parser,
                    env,
                    depth,
                );
            },
        }
    }
}

/// The last thing that a part of a list or of a block becomes is faithful to
/// the text.
pub proof fn lemma_last_element_content(
    src: Seq<char>,
    origin: int,
    items: Seq<Pair>,
    from: int,
    base: ElementSpanView,
    parser: AsciidocParser,
    env: Env,
    depth: nat,
)
    requires
        all_within(items, src, origin),
        parser.wf(),
        faithful(base, src),
    ensures
        match spec_last_element(src, origin, items, from, base, parser, env, depth) {
            Ok(node) => faithful(node, src),
            Err(_) => true,
        },
    decreases depth, items, items.len() - from,
{
    if 0 <= from < items.len() {
        lemma_element_content(src, origin, items[from], parser, env, depth);
        match spec_process_element(src, origin, items[from], parser, env, depth) {
            Err(_) => {},
            Ok(Some(last)) => {
                lemma_last_element_content(src, origin, items, from + 1, last, parser, env, depth);
            },
            Ok(None) => {
                lemma_last_element_content(src, origin, items, from + 1, base, parser, env, depth);
            },
        }
    }
}

/// The parts of a list item let the item grow.
pub proof fn lemma_list_item_content(
    src: Seq<char>,
    origin: int,
    items: Seq<Pair>,
    from: int,
    before: ElementSpanView,
    base: ElementSpanView,
    marker: Rule,
    parser: AsciidocParser,
    env: Env,
    depth: nat,
)
    requires
        all_within(items, src, origin),
        parser.wf(),
        grown(before, base, src),
    ensures
        match spec_list_item(src, origin, items, from, base, marker, parser, env, depth) {
            Ok(node) => grown(before, node, src),
            Err(_) => true,
        },
    decreases depth, items, items.len() - from,
{
    if 0 <= from < items.len() {
        let sub = items[from];
        lemma_within(sub, src, origin);
        lemma_start_faithful(src, origin, sub, ElementView::Text);
        if sub.rule != marker && sub.rule == Rule::ListElement {
            lemma_push_elements_content(
                src,
                origin,
                sub.inner@,
                0,
                before,
                base,
                parser,
                env,
                depth,
            );
        }
        match spec_list_item_part(src, origin, sub, base, marker, parser, env, depth) {
            Err(_) => {},
            Ok(next) => {
                lemma_list_item_content(
                    src,
                    origin,
                    items,
                    from + 1,
                    before,
                    next,
                    marker,
                    parser,
                    env,
                    depth,
                );
            },
        }
    }
}

/// A part of a delimited block lets the block grow.
pub proof fn lemma_delimited_part(
    src: Seq<char>,
    origin: int,
    sub: Pair,
    base: ElementSpanView,
    parser: AsciidocParser,
    env: Env,
    depth: nat,
)
    requires
        sub.within(src, origin),
        parser.wf(),
    ensures
        match spec_delimited_part(src, origin, sub, base, parser, env, depth) {
            Some(Ok(node)) => grown(base, node, src),
            _ => true,
        },
    decreases depth, sub, 4int,
{
    lemma_within(sub, src, origin);
    if sub.rule == Rule::Anchor {
        lemma_anchor_notes(src, origin, sub, base);
    } else if sub.rule == Rule::AttributeList {
        lemma_attribute_list_notes(src, origin, sub, base);
    } else if sub.rule == Rule::Blocktitle {
        lemma_blocktitle_notes(src, origin, sub, base);
    } else if sub.rule == Rule::DelimitedTable {
        let table = base.with_element(ElementView::Table);
        lemma_table_parts(
            src,
            origin,
            sub.inner@,
            0,
            base,
            table,
            spec_table_formats(table),
            parser,
            env,
            depth,
        );
    } else if sub.rule == Rule::DelimitedComment {
        lemma_inner_parts(
            src,
            origin,
            sub.inner@,
            0,
            base,
            base.with_element(ElementView::TypedBlock { kind: BlockType::Comment }),
            parser,
            env,
            depth,
        );
    } else if sub.rule == Rule::DelimitedSource || sub.rule == Rule::DelimitedLiteral {
        lemma_inner_parts(
            src,
            origin,
            sub.inner@,
            0,
            base,
            base.with_element(ElementView::TypedBlock { kind: BlockType::Listing }),
            parser,
            env,
            depth,
        );
    } else if sub.rule == Rule::DelimitedExample {
        lemma_inner_parts(
            src,
            origin,
            sub.inner@,
            0,
            base,
            base.with_element(ElementView::TypedBlock { kind: BlockType::Example }),
            parser,
            env,
            depth,
        );
    }
}

/// The parts of a delimited block let the block grow.
pub proof fn lemma_delimited_parts(
    src: Seq<char>,
    origin: int,
    items: Seq<Pair>,
    from: int,
    before: ElementSpanView,
    base: ElementSpanView,
    parser: AsciidocParser,
    env: Env,
    depth: nat,
)
    requires
        all_within(items, src, origin),
        parser.wf(),
        grown(before, base, src),
    ensures
        match spec_delimited_parts(src, origin, items, from, base, parser, env, depth) {
            Ok(node) => grown(before, node, src),
            Err(_) => true,
        },
    decreases depth, items, items.len() - from,
{
    if 0 <= from < items.len() {
        lemma_delimited_part(src, origin, items[from], base, parser, env, depth);
        match spec_delimited_part(src, origin, items[from], base, parser, env, depth) {
            Some(Ok(next)) => {
                lemma_delimited_parts(
                    src,
                    origin,
                    items,
                    from + 1,
                    before,
                    next,
                    parser,
                    env,
                    depth,
                );
            },
            _ => {},
        }
    }
}

/// A part of the inside of a delimited block lets the block grow.
pub proof fn lemma_inner_part(
    src: Seq<char>,
    origin: int,
    sub: Pair,
    base: ElementSpanView,
    parser: AsciidocParser,
    env: Env,
    depth: nat,
)
    requires
        sub.within(src, origin),
        parser.wf(),
    ensures
        match spec_inner_part(src, origin, sub, base, parser, env, depth) {
            Ok(node) => grown(base, node, src),
            Err(_) => true,
        },
    decreases depth, sub, 1int,
{
    lemma_within(sub, src, origin);
    if sub.rule == Rule::DelimitedInner && base.element == (ElementView::TypedBlock {
        kind: BlockType::Example,
    }) {
        let text = sub.text(src, origin);
        lemma_reparse_fits(
            src,
            origin + sub.start,
            origin + sub.end,
            parser,
            Rule::Asciidoc,
            depth,
        );
        match spec_reparse(parser, Rule::Asciidoc, text, depth) {
            Ok(roots) => {
                lemma_push_elements_content(
                    src,
                    origin + sub.start,
                    roots,
                    0,
                    base,
                    base,
                    parser,
                    env,
                    (depth - 1) as nat,
                );
            },
            Err(_) => {},
        }
    }
}

/// The parts of the inside of a delimited block let the block grow.
pub proof fn lemma_inner_parts(
    src: Seq<char>,
    origin: int,
    items: Seq<Pair>,
    from: int,
    before: ElementSpanView,
    base: ElementSpanView,
    parser: AsciidocParser,
    env: Env,
    depth: nat,
)
    requires
        all_within(items, src, origin),
        parser.wf(),
        grown(before, base, src),
    ensures
        match spec_inner_parts(src, origin, items, from, base, parser, env, depth) {
            Ok(node) => grown(before, node, src),
            Err(_) => true,
        },
    decreases depth, items, items.len() - from,
{
    if 0 <= from < items.len() {
        lemma_inner_part(src, origin, items[from], base, parser, env, depth);
        match spec_inner_part(src, origin, items[from], base, parser, env, depth) {
            Err(_) => {},
            Ok(next) => {
                lemma_inner_parts(src, origin, items, from + 1, before, next, parser, env, depth);
            },
        }
    }
}

/// What a syntax node of a table becomes is faithful to the text.
pub proof fn lemma_table_element(
    src: Seq<char>,
    origin: int,
    sub: Pair,
    formats: Seq<CellFormat>,
    parser: AsciidocParser,
    env: Env,
    depth: nat,
)
    requires
        sub.within(src, origin),
        parser.wf(),
    ensures
        match spec_table_element(src, origin, sub, formats, parser, env, depth) {
            Ok(Some(node)) => faithful(node, src),
            _ => true,
        },
    decreases depth, sub, 2int,
{
    if sub.rule == Rule::TableRow {
        lemma_start_faithful(src, origin, sub, ElementView::Text);
        lemma_table_row_content(
            src,
            origin,
            sub,
            spec_set_span(src, origin, sub),
            formats,
            parser,
            env,
            depth,
        );
    } else {
        lemma_element_content(src, origin, sub, parser, env, depth);
    }
}

/// The children that are added for the syntax nodes of a table are faithful
/// to the text.
pub proof fn lemma_push_table_elements(
    src: Seq<char>,
    origin: int,
    items: Seq<Pair>,
    from: int,
    before: ElementSpanView,
    base: ElementSpanView,
    formats: Seq<CellFormat>,
    parser: AsciidocParser,
    env: Env,
    depth: nat,
)
    requires
        all_within(items, src, origin),
        parser.wf(),
        grown(before, base, src),
    ensures
        match spec_push_table_elements(
            src,
            origin,
            items,
            from,
            base,
            formats,
            parser,
            env,
            depth,
        ) {
            Ok(node) => grown(before, node, src),
            Err(_) => true,
        },
    decreases depth, items, items.len() - from,
{
    if 0 <= from < items.len() {
        lemma_table_element(src, origin, items[from], formats, parser, env, depth);
        match spec_table_element(src, origin, items[from], formats, parser, env, depth) {
            Err(_) => {},
            Ok(Some(child)) => {
                lemma_push_table_elements(
                    src,
                    origin,
                    items,
                    from + 1,
                    before,
                    base.add_child(child),
                    formats,
                    parser,
                    env,
                    depth,
                );
            },
            Ok(None) => {
                lemma_push_table_elements(
                    src,
                    origin,
                    items,
                    from + 1,
                    before,
                    base,
                    formats,
                    parser,
                    env,
                    depth,
                );
            },
        }
    }
}

/// The rows and cells of a table body let the table grow.
pub proof fn lemma_push_inner_elements(
    src: Seq<char>,
    origin: int,
    items: Seq<Pair>,
    from: int,
    before: ElementSpanView,
    base: ElementSpanView,
    formats: Seq<CellFormat>,
    parser: AsciidocParser,
    env: Env,
    depth: nat,
)
    requires
        all_within(items, src, origin),
        parser.wf(),
        grown(before, base, src),
    ensures
        match spec_push_inner_elements(
            src,
            origin,
            items,
            from,
            base,
            formats,
            parser,
            env,
            depth,
        ) {
            Ok(node) => grown(before, node, src),
            Err(_) => true,
        },
    decreases depth, items, items.len() - from,
{
    if 0 <= from < items.len() {
        lemma_within(items[from], src, origin);
        lemma_push_table_elements(
            src,
            origin,
            items[from].inner@,
            0,
            before,
            base,
            formats,
            parser,
            env,
            depth,
        );
        match spec_push_table_elements(
            src,
            origin,
            items[from].inner@,
            0,
            base,
            formats,
            parser,
            env,
            depth,
        ) {
            Err(_) => {},
            Ok(next) => {
                lemma_push_inner_elements(
                    src,
                    origin,
                    items,
                    from + 1,
                    before,
                    next,
                    formats,
                    parser,
                    env,
                    depth,
                );
            },
        }
    }
}

/// A part of a table lets the table grow.
pub proof fn lemma_table_part(
    src: Seq<char>,
    origin: int,
    sub: Pair,
    base: ElementSpanView,
    formats: Seq<CellFormat>,
    parser: AsciidocParser,
    env: Env,
    depth: nat,
)
    requires
        sub.within(src, origin),
        parser.wf(),
    ensures
        match spec_table_part(src, origin, sub, base, formats, parser, env, depth) {
            Ok(node) => grown(base, node, src),
            Err(_) => true,
        },
    decreases depth, sub, 3int,
{
    lemma_within(sub, src, origin);
    if sub.rule == Rule::DelimitedInner {
        let text = sub.text(src, origin);
        lemma_reparse_fits(
            src,
            origin + sub.start,
            origin + sub.end,
            parser,
            Rule::TableInner,
            depth,
        );
        match spec_reparse(parser, Rule::TableInner, text, depth) {
            Ok(roots) => {
                lemma_push_inner_elements(
                    src,
                    origin + sub.start,
                    roots,
                    0,
                    base,
                    base,
                    formats,
                    parser,
                    env,
                    (depth - 1) as nat,
                );
            },
            Err(_) => {},
        }
    } else if sub.rule == Rule::TableRow {
        lemma_table_element(src, origin, sub, formats, parser, env, depth);
    }
}

/// The parts of a table let the table grow.
pub proof fn lemma_table_parts(
    src: Seq<char>,
    origin: int,
    items: Seq<Pair>,
    from: int,
    before: ElementSpanView,
    base: ElementSpanView,
    formats: Seq<CellFormat>,
    parser: AsciidocParser,
    env: Env,
    depth: nat,
)
    requires
        all_within(items, src, origin),
        parser.wf(),
        grown(before, base, src),
    ensures
        match spec_table_parts(src, origin, items, from, base, formats, parser, env, depth) {
            Ok(node) => grown(before, node, src),
            Err(_) => true,
        },
    decreases depth, items, items.len() - from,
{
    if 0 <= from < items.len() {
        lemma_table_part(src, origin, items[from], base, formats, parser, env, depth);
        match spec_table_part(src, origin, items[from], base, formats, parser, env, depth) {
            Err(_) => {},
            Ok(next) => {
                lemma_table_parts(
                    src,
                    origin,
                    items,
                    from + 1,
                    before,
                    next,
                    formats,
                    parser,
                    env,
                    depth,
                );
            },
        }
    }
}

/// The cells of a row let the row grow.
pub proof fn lemma_row_cells(
    src: Seq<char>,
    origin: int,
    items: Seq<Pair>,
    from: int,
    before: ElementSpanView,
    base: ElementSpanView,
    formats: Seq<CellFormat>,
    parser: AsciidocParser,
    env: Env,
    depth: nat,
)
    requires
        all_within(items, src, origin),
        parser.wf(),
        grown(before, base, src),
    ensures
        match spec_row_cells(src, origin, items, from, base, formats, parser, env, depth) {
            Ok(node) => grown(before, node, src),
            Err(_) => true,
        },
    decreases depth, items, items.len() - from,
{
    if 0 <= from < items.len() {
        match format_at(formats, from) {
            None => {},
            Some(format) => {
                let start = spec_set_span(src, origin, items[from]);
                lemma_start_faithful(src, origin, items[from], ElementView::Text);
                lemma_table_cell_content(
                    src,
                    origin,
                    items[from],
                    start,
                    format,
                    parser,
                    env,
                    depth,
                );
                match spec_process_table_cell(
                    src,
                    origin,
                    items[from],
                    start,
                    format,
                    parser,
                    env,
                    depth,
                ) {
                    Err(_) => {},
                    Ok(cell) => {
                        lemma_row_cells(
                            src,
                            origin,
                            items,
                            from + 1,
                            before,
                            base.add_child(cell),
                            formats,
                            parser,
                            env,
                            depth,
                        );
                    },
                }
            },
        }
    }
}

/// A table row is faithful to the text where the node it starts from is.
pub proof fn lemma_table_row_content(
    src: Seq<char>,
    origin: int,
    element: Pair,
    base: ElementSpanView,
    formats: Seq<CellFormat>,
    parser: AsciidocParser,
    env: Env,
    depth: nat,
)
    requires
        element.within(src, origin),
        parser.wf(),
        faithful(base, src),
    ensures
        match spec_process_table_row(src, origin, element, base, formats, parser, env, depth) {
            Ok(node) => faithful(node, src) && grown(base, node, src),
            Err(_) => true,
        },
    decreases depth, element, 0int,
{
    let row = base.with_element(ElementView::TableRow);
    lemma_within(element, src, origin);
    lemma_row_cells(src, origin, element.inner@, 0, base, row, formats, parser, env, depth);
    match spec_process_table_row(src, origin, element, base, formats, parser, env, depth) {
        Ok(node) => {
            lemma_grown_faithful(base, node, src);
        },
        Err(_) => {},
    }
}

/// A table cell is faithful to the text where the children of the node it
/// starts from are.
pub proof fn lemma_table_cell_content(
    src: Seq<char>,
    origin: int,
    element: Pair,
    base: ElementSpanView,
    format: CellFormat,
    parser: AsciidocParser,
    env: Env,
    depth: nat,
)
    requires
        element.within(src, origin),
        parser.wf(),
        faithful(base, src),
    ensures
        match spec_process_table_cell(src, origin, element, base, format, parser, env, depth) {
            Ok(node) => faithful(node, src),
            Err(_) => true,
        },
    decreases depth, element, 0int,
{
    let (start, end) = cell_span(src, origin, element);
    lemma_cell_span(src, origin, element);
    lemma_node_faithful(src, start, end, ElementView::TableCell);
    let cell = base.with_element(ElementView::TableCell).with_place(
        spec_node_at(src, start, end, ElementView::TableCell),
    );
    assert(faithful(cell, src));
    lemma_reparse_fits(src, start, end, parser, Rule::Asciidoc, depth);
    match spec_reparse(parser, Rule::Asciidoc, cell.content, depth) {
        Ok(roots) => {
            lemma_push_elements_content(
                src,
                start,
                roots,
                0,
                cell,
                cell,
                parser,
                env,
                (depth - 1) as nat,
            );
            match spec_push_elements(src, start, roots, 0, cell, parser, env, (depth - 1) as nat) {
                Ok(node) => {
                    lemma_grown_faithful(cell, node, src);
                },
                Err(_) => {},
            }
        },
        Err(_) => {},
    }
}

/// The elements that are found for syntax nodes are faithful to the text.
pub proof fn lemma_elements_content(
    src: Seq<char>,
    roots: Seq<Pair>,
    from: int,
    found: Seq<ElementSpanView>,
    parser: AsciidocParser,
    env: Env,
    depth: nat,
)
    requires
        all_within(roots, src, 0),
        parser.wf(),
        forall|i: int| 0 <= i < found.len() ==> faithful(#[trigger] found[i], src),
    ensures
        match spec_elements(src, roots, from, found, parser, env, depth) {
            Ok(elements) => forall|i: int|
                0 <= i < elements.len() ==> faithful(#[trigger] elements[i], src),
            Err(_) => true,
        },
    decreases roots.len() - from,
{
    if 0 <= from < roots.len() {
        lemma_element_content(src, 0, roots[from], parser, env, depth);
        match spec_process_element(src, 0, roots[from], parser, env, depth) {
            Err(_) => {},
            Ok(Some(element)) => {
                lemma_elements_content(
                    src,
                    roots,
                    from + 1,
                    found.push(element),
                    parser,
                    env,
                    depth,
                );
            },
            Ok(None) => {
                lemma_elements_content(src, roots, from + 1, found, parser, env, depth);
            },
        }
    }
}

/// Every node of a document, at any depth, lies in the text of the document
/// and holds, as its content, the text between its offsets.
pub proof fn lemma_document_content(input: Seq<char>, args: Opts, parser: AsciidocParser, env: Env)
    requires
        parser.wf(),
    ensures
        match spec_parse(input, args, parser, env) {
            Ok(ast) => forall|i: int|
                0 <= i < ast.elements.len() ==> faithful(#[trigger] ast.elements[i], input),
            Err(_) => true,
        },
{
    lemma_answer_fits(parser, Rule::Asciidoc, input);
    match parser.answer(Rule::Asciidoc, input) {
        Some(Ok(roots)) => {
            lemma_elements_content(
                input,
                roots,
                0,
                Seq::empty(),
                parser,
                env,
                args.max_depth as nat,
            );
        },
        _ => {},
    }
}

} // verus!
