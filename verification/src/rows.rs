//! What a table row holds: one cell for each syntax node inside it, in the
//! order of the text, each in its own place.

use vstd::prelude::*;
use crate::ast::{AttributeValueView, AttributeView, ElementSpanView, ElementView};
use crate::cst::{lemma_within, Pair, Rule};
use crate::dispatch::{
    cell_span,
    spec_process_table_cell,
    spec_process_table_row,
    spec_reparse,
    spec_row_cells,
};
use crate::element::{spec_node_at, spec_set_span};
use crate::example::lemma_push_keeps_attributes;
use crate::known::{AsciidocParser, Env};
use crate::spans::lemma_cell_span;
use crate::table::{format_at, CellFormat, CellKind};
use crate::text::{lemma_span_fits, slice};

verus! {

/// `cell` is the cell that the syntax node `pair` becomes in the format
/// `format`: a table cell that lies where the content of `pair` lies once it
/// is trimmed, holds that content, has no attributes and, unless it holds a
/// document, no children.
pub open spec fn is_cell_of(
    cell: ElementSpanView,
    src: Seq<char>,
    origin: int,
    pair: Pair,
    format: CellFormat,
) -> bool {
    &&& cell.element is TableCell
    &&& cell.start == cell_span(src, origin, pair).0
    &&& cell.end == cell_span(src, origin, pair).1
    &&& cell.content == slice(src, cell_span(src, origin, pair).0, cell_span(src, origin, pair).1)
    &&& cell.attributes == Seq::<AttributeView>::empty()
    &&& cell.positional_attributes == Seq::<AttributeValueView>::empty()
    &&& (format.kind == CellKind::Default ==> cell.children == Seq::<ElementSpanView>::empty())
}

/// A cell that starts from the node of its own syntax node is the cell of
/// that syntax node.
pub proof fn lemma_cell(
    src: Seq<char>,
    origin: int,
    pair: Pair,
    format: CellFormat,
    parser: AsciidocParser,
    env: Env,
    depth: nat,
)
    requires
        0 <= origin,
        0 <= cell_span(src, origin, pair).0 <= cell_span(src, origin, pair).1,
    ensures
        match spec_process_table_cell(
            src,
            origin,
            pair,
            spec_set_span(src, origin, pair),
            format,
            parser,
            env,
            depth,
        ) {
            Ok(cell) => is_cell_of(cell, src, origin, pair, format),
            Err(_) => true,
        },
{
    let (start, end) = cell_span(src, origin, pair);
    let cell = spec_set_span(src, origin, pair).with_element(ElementView::TableCell).with_place(
        spec_node_at(src, start, end, ElementView::TableCell),
    );
    match spec_reparse(parser, Rule::Asciidoc, cell.content, depth) {
        Ok(roots) => {
            lemma_push_keeps_attributes(
                src,
                start,
                roots,
                0,
                cell,
                parser,
                env,
                (depth - 1) as nat,
            );
        },
        Err(_) => {},
    }
}

/// The cells of a row, from index `from` on, are added to the children of the
/// row in their order, one for each syntax node, each in the format that its
/// index gives it; nothing else of the row changes.
pub proof fn lemma_row_cells_are_cells(
    src: Seq<char>,
    origin: int,
    items: Seq<Pair>,
    from: int,
    base: ElementSpanView,
    formats: Seq<CellFormat>,
    parser: AsciidocParser,
    env: Env,
    depth: nat,
)
    requires
        0 <= origin,
        0 <= from <= items.len(),
        formats.len() >= 1,
        forall|k: int|
            0 <= k < items.len() ==> 0 <= (#[trigger] cell_span(src, origin, items[k])).0
                <= cell_span(src, origin, items[k]).1,
    ensures
        match spec_row_cells(src, origin, items, from, base, formats, parser, env, depth) {
            Ok(row) => {
                &&& row.element == base.element
                &&& row.content == base.content
                &&& row.start == base.start
                &&& row.end == base.end
                &&& row.attributes == base.attributes
                &&& row.positional_attributes == base.positional_attributes
                &&& row.children.len() == base.children.len() + items.len() - from
                &&& forall|i: int|
                    0 <= i < base.children.len() ==> #[trigger] row.children[i] == base.children[i]
                &&& forall|k: int|
                    from <= k < items.len() ==> is_cell_of(
                        #[trigger] row.children[base.children.len() + k - from],
                        src,
                        origin,
                        items[k],
                        formats[k % formats.len() as int],
                    )
            },
            Err(_) => true,
        },
    decreases items.len() - from,
{
    if from < items.len() {
        let format = format_at(formats, from).unwrap();
        let start = spec_set_span(src, origin, items[from]);
        assert(0 <= cell_span(src, origin, items[from]).0);
        lemma_cell(src, origin, items[from], format, parser, env, depth);
        match spec_process_table_cell(src, origin, items[from], start, format, parser, env, depth) {
            Err(_) => {},
            Ok(cell) => {
                let next = base.add_child(cell);
                lemma_row_cells_are_cells(
                    src,
                    origin,
                    items,
                    from + 1,
                    next,
                    formats,
                    parser,
                    env,
                    depth,
                );
                match spec_row_cells(
                    src,
                    origin,
                    items,
                    from + 1,
                    next,
                    formats,
                    parser,
                    env,
                    depth,
                ) {
                    Ok(row) => {
                        assert forall|i: int|
                            0 <= i < base.children.len() implies #[trigger] row.children[i]
                            == base.children[i] by {
                            assert(row.children[i] == next.children[i]);
                        }
                        assert forall|k: int| from <= k < items.len() implies is_cell_of(
                            #[trigger] row.children[base.children.len() + k - from],
                            src,
                            origin,
                            items[k],
                            formats[k % formats.len() as int],
                        ) by {
                            if k == from {
                                assert(row.children[base.children.len() as int]
                                    == next.children[base.children.len() as int]);
                            } else {
                                assert(row.children[base.children.len() + k - from]
                                    == row.children[next.children.len() + k - (from + 1)]);
                            }
                        }
                    },
                    Err(_) => {},
                }
            },
        }
    }
}

/// A table row that starts from the node `base` keeps the place, the content
/// and the attributes of `base`, and gets one table cell for each syntax node
/// inside it, after the children that `base` has: in the order of the text,
/// each in its own place, and each in the format that its index gives it.
pub proof fn lemma_row(
    src: Seq<char>,
    origin: int,
    element: Pair,
    base: ElementSpanView,
    formats: Seq<CellFormat>,
    parser: AsciidocParser,
    env: Env,
    depth: nat,
)
    requires
        element.within(src, origin),
        formats.len() >= 1,
    ensures
        match spec_process_table_row(src, origin, element, base, formats, parser, env, depth) {
            Ok(row) => {
                &&& row.element is TableRow
                &&& row.content == base.content
                &&& row.start == base.start
                &&& row.end == base.end
                &&& row.attributes == base.attributes
                &&& row.children.len() == base.children.len() + element.inner@.len()
                &&& forall|k: int|
                    0 <= k < element.inner@.len() ==> is_cell_of(
                        #[trigger] row.children[base.children.len() + k],
                        src,
                        origin,
                        element.inner@[k],
                        formats[k % formats.len() as int],
                    )
            },
            Err(_) => true,
        },
{
    let items = element.inner@;
    lemma_within(element, src, origin);
    assert forall|k: int| 0 <= k < items.len() implies 0 <= (#[trigger] cell_span(
        src,
        origin,
        items[k],
    )).0 <= cell_span(src, origin, items[k]).1 by {
        lemma_cell_span(src, origin, items[k]);
        lemma_span_fits(
            src,
            cell_span(src, origin, items[k]).0,
            cell_span(src, origin, items[k]).1,
        );
    }
    let first = base.with_element(ElementView::TableRow);
    lemma_row_cells_are_cells(src, origin, items, 0, first, formats, parser, env, depth);
    match spec_row_cells(src, origin, items, 0, first, formats, parser, env, depth) {
        Ok(row) => {
            assert forall|k: int| 0 <= k < items.len() implies is_cell_of(
                #[trigger] row.children[base.children.len() + k],
                src,
                origin,
                items[k],
                formats[k % formats.len() as int],
            ) by {
                assert(row.children[base.children.len() + k] == row.children[first.children.len() + k
                    - 0]);
            }
        },
        Err(_) => {},
    }
}

} // verus!
