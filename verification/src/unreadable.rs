//! A file that cannot be read takes nothing from a document but the content
//! of the images that ask for it. This module compares what the reader gives
//! when a file is recorded as unreadable with what it gives when the file is
//! recorded with its content, everything else being the same, and proves that
//! the two documents differ in nothing but the attribute `content` at the end
//! of those images.

use vstd::prelude::*;
use crate::ast::{
    ASTView,
    AttributeValueView,
    AttributeView,
    BlockType,
    ElementSpanView,
    ElementView,
    ListType,
};
use crate::attributes::{
    anchor_step,
    attribute_list_step,
    attribute_step,
    blocktitle_step,
    inline_anchor_step,
    inline_attribute_list_step,
    spec_process_anchor,
    spec_process_attribute_list,
    spec_process_blocktitle,
    spec_process_inline_anchor,
    spec_process_inline_attribute_list,
};
use crate::cst::{Pair, Rule};
use crate::dispatch::{
    cell_span,
    default_cell_format,
    spec_delimited_part,
    spec_delimited_parts,
    spec_inner_part,
    spec_inner_parts,
    spec_last_element,
    spec_list_item,
    spec_list_item_part,
    spec_process_element,
    spec_process_table_cell,
    spec_push_elements,
    spec_push_inner_elements,
    spec_push_table_elements,
    spec_reparse,
    spec_row_cells,
    spec_table_element,
    spec_table_formats,
    spec_table_part,
    spec_table_parts,
};
use crate::element::{spec_node_at, spec_set_span};
use crate::fold::fold;
use crate::image::{spec_collected_image, spec_process_image};
use crate::known::{AsciidocParser, Env, HaltView};
use crate::reader::{spec_elements, spec_parse, Opts};
use crate::table::{format_at, CellFormat};

verus! {

/// `bad` and `good` know the same of every file but the one at `path`: `bad`
/// knows that it cannot be read, `good` that it holds `content`.
pub open spec fn differ_at(bad: Env, good: Env, path: Seq<char>, content: Seq<char>) -> bool {
    &&& bad.file(path) is Some
    &&& bad.file(path)->Some_0 is Err
    &&& good.file(path) == Some(Ok::<Seq<char>, Seq<char>>(content))
    &&& forall|other: Seq<char>| other != path ==> #[trigger] bad.file(other) == good.file(other)
}

/// `node` asks for the content of the file at `path`.
pub open spec fn asks_for(node: ElementSpanView, path: Seq<char>) -> bool {
    node.attribute("opts"@) == Some("inline"@) && node.attribute("path"@) == Some(path)
}

/// `b` is `a` but for its attributes and children.
pub open spec fn same_node(a: ElementSpanView, b: ElementSpanView) -> bool {
    &&& b.element == a.element
    &&& b.content == a.content
    &&& b.positional_attributes == a.positional_attributes
    &&& b.start == a.start
    &&& b.end == a.end
    &&& b.start_line == a.start_line
    &&& b.start_col == a.start_col
    &&& b.end_line == a.end_line
    &&& b.end_col == a.end_col
    &&& b.children.len() == a.children.len()
}

/// `b` is what `a` would be had the file at `path` held `content`: the same
/// node, with one more attribute at its end, the `content`, where `a` asks
/// for that file, and with children that are what the children of `a` would
/// be.
pub open spec fn twin(
    a: ElementSpanView,
    b: ElementSpanView,
    path: Seq<char>,
    content: Seq<char>,
) -> bool
    decreases a,
{
    &&& same_node(a, b)
    &&& (b.attributes == a.attributes || (asks_for(a, path) && b.attributes == a.attributes.push(
        AttributeView { key: "content"@, value: AttributeValueView::String(content) },
    )))
    &&& forall|i: int|
        #![trigger a.children[i]]
        0 <= i < a.children.len() ==> twin(a.children[i], b.children[i], path, content)
}

/// `b` is `a` with the same attributes, and with children that are what the
/// children of `a` would be had the file at `path` held `content`.
pub open spec fn alike(
    a: ElementSpanView,
    b: ElementSpanView,
    path: Seq<char>,
    content: Seq<char>,
) -> bool {
    &&& same_node(a, b)
    &&& b.attributes == a.attributes
    &&& forall|i: int|
        #![trigger a.children[i]]
        0 <= i < a.children.len() ==> twin(a.children[i], b.children[i], path, content)
}

/// Two results are the same failure, or nodes of which the second is what the
/// first would be.
pub open spec fn twin_results(
    a: Result<ElementSpanView, HaltView>,
    b: Result<ElementSpanView, HaltView>,
    path: Seq<char>,
    content: Seq<char>,
) -> bool {
    match (a, b) {
        (Ok(x), Ok(y)) => twin(x, y, path, content),
        (Err(x), Err(y)) => x == y,
        _ => false,
    }
}

/// Two results are the same failure, or nodes that are alike.
pub open spec fn alike_results(
    a: Result<ElementSpanView, HaltView>,
    b: Result<ElementSpanView, HaltView>,
    path: Seq<char>,
    content: Seq<char>,
) -> bool {
    match (a, b) {
        (Ok(x), Ok(y)) => alike(x, y, path, content),
        (Err(x), Err(y)) => x == y,
        _ => false,
    }
}

/// Two results are the same failure, both nothing, or nodes of which the
/// second is what the first would be.
pub open spec fn twin_elements(
    a: Result<Option<ElementSpanView>, HaltView>,
    b: Result<Option<ElementSpanView>, HaltView>,
    path: Seq<char>,
    content: Seq<char>,
) -> bool {
    match (a, b) {
        (Ok(Some(x)), Ok(Some(y))) => twin(x, y, path, content),
        (Ok(None), Ok(None)) => true,
        (Err(x), Err(y)) => x == y,
        _ => false,
    }
}

/// A node is what it would be.
pub proof fn lemma_twin_itself(a: ElementSpanView, path: Seq<char>, content: Seq<char>)
    ensures
        twin(a, a, path, content),
        alike(a, a, path, content),
    decreases a,
{
    assert forall|i: int| #![trigger a.children[i]] 0 <= i < a.children.len() implies twin(
        a.children[i],
        a.children[i],
        path,
        content,
    ) by {
        lemma_twin_itself(a.children[i], path, content);
    }
}

/// Nodes that are alike with one more child each, of which the second is
/// what the first would be, are alike.
pub proof fn lemma_alike_child(
    a: ElementSpanView,
    b: ElementSpanView,
    x: ElementSpanView,
    y: ElementSpanView,
    path: Seq<char>,
    content: Seq<char>,
)
    requires
        alike(a, b, path, content),
        twin(x, y, path, content),
    ensures
        alike(a.add_child(x), b.add_child(y), path, content),
{
    let c = a.add_child(x);
    let d = b.add_child(y);
    assert forall|i: int| #![trigger c.children[i]] 0 <= i < c.children.len() implies twin(
        c.children[i],
        d.children[i],
        path,
        content,
    ) by {
        if i < a.children.len() {
            assert(c.children[i] == a.children[i]);
            assert(d.children[i] == b.children[i]);
        }
    }
}

/// A step that keeps nodes alike does so however often it is taken.
pub proof fn lemma_fold_alike(
    items: Seq<Pair>,
    from: int,
    a: ElementSpanView,
    b: ElementSpanView,
    step: spec_fn(ElementSpanView, Pair) -> ElementSpanView,
    path: Seq<char>,
    content: Seq<char>,
)
    requires
        alike(a, b, path, content),
        forall|x: ElementSpanView, y: ElementSpanView, z: Pair|
            #![trigger step(x, z), step(y, z)]
            alike(x, y, path, content) ==> alike(step(x, z), step(y, z), path, content),
    ensures
        alike(fold(items, from, a, step), fold(items, from, b, step), path, content),
    decreases items.len() - from,
{
    if 0 <= from < items.len() {
        lemma_fold_alike(
            items,
            from + 1,
            step(a, items[from]),
            step(b, items[from]),
            step,
            path,
            content,
        );
    }
}

/// An inline anchor keeps nodes alike.
pub proof fn lemma_inline_anchor_alike(
    src: Seq<char>,
    origin: int,
    element: Pair,
    a: ElementSpanView,
    b: ElementSpanView,
    path: Seq<char>,
    content: Seq<char>,
)
    requires
        alike(a, b, path, content),
    ensures
        alike(
            spec_process_inline_anchor(src, origin, element, a),
            spec_process_inline_anchor(src, origin, element, b),
            path,
            content,
        ),
{
    assert forall|x: ElementSpanView, y: ElementSpanView, z: Pair|
        #![trigger inline_anchor_step(src, origin)(x, z), inline_anchor_step(src, origin)(y, z)]
        alike(x, y, path, content) implies alike(
        inline_anchor_step(src, origin)(x, z),
        inline_anchor_step(src, origin)(y, z),
        path,
        content,
    ) by {
    }
    lemma_fold_alike(element.inner@, 0, a, b, inline_anchor_step(src, origin), path, content);
}

/// An anchor keeps nodes alike.
pub proof fn lemma_anchor_alike(
    src: Seq<char>,
    origin: int,
    element: Pair,
    a: ElementSpanView,
    b: ElementSpanView,
    path: Seq<char>,
    content: Seq<char>,
)
    requires
        alike(a, b, path, content),
    ensures
        alike(
            spec_process_anchor(src, origin, element, a),
            spec_process_anchor(src, origin, element, b),
            path,
            content,
        ),
{
    assert forall|x: ElementSpanView, y: ElementSpanView, z: Pair|
        #![trigger anchor_step(src, origin)(x, z), anchor_step(src, origin)(y, z)]
        alike(x, y, path, content) implies alike(
        anchor_step(src, origin)(x, z),
        anchor_step(src, origin)(y, z),
        path,
        content,
    ) by {
        lemma_inline_anchor_alike(src, origin, z, x, y, path, content);
    }
    lemma_fold_alike(element.inner@, 0, a, b, anchor_step(src, origin), path, content);
}

/// A block title keeps nodes alike.
pub proof fn lemma_blocktitle_alike(
    src: Seq<char>,
    origin: int,
    element: Pair,
    a: ElementSpanView,
    b: ElementSpanView,
    path: Seq<char>,
    content: Seq<char>,
)
    requires
        alike(a, b, path, content),
    ensures
        alike(
            spec_process_blocktitle(src, origin, element, a),
            spec_process_blocktitle(src, origin, element, b),
            path,
            content,
        ),
{
    assert forall|x: ElementSpanView, y: ElementSpanView, z: Pair|
        #![trigger blocktitle_step(src, origin)(x, z), blocktitle_step(src, origin)(y, z)]
        alike(x, y, path, content) implies alike(
        blocktitle_step(src, origin)(x, z),
        blocktitle_step(src, origin)(y, z),
        path,
        content,
    ) by {
    }
    lemma_fold_alike(element.inner@, 0, a, b, blocktitle_step(src, origin), path, content);
}

/// The entries of one attribute of an attribute list keep nodes alike.
pub proof fn lemma_attribute_alike(
    src: Seq<char>,
    origin: int,
    element: Pair,
    a: ElementSpanView,
    b: ElementSpanView,
    path: Seq<char>,
    content: Seq<char>,
)
    requires
        alike(a, b, path, content),
    ensures
        alike(
            fold(element.inner@, 0, a, attribute_step(src, origin)),
            fold(element.inner@, 0, b, attribute_step(src, origin)),
            path,
            content,
        ),
{
    assert forall|x: ElementSpanView, y: ElementSpanView, z: Pair|
        #![trigger attribute_step(src, origin)(x, z), attribute_step(src, origin)(y, z)]
        alike(x, y, path, content) implies alike(
        attribute_step(src, origin)(x, z),
        attribute_step(src, origin)(y, z),
        path,
        content,
    ) by {}
    lemma_fold_alike(element.inner@, 0, a, b, attribute_step(src, origin), path, content);
}

/// An attribute list keeps nodes alike.
pub proof fn lemma_inline_attribute_list_alike(
    src: Seq<char>,
    origin: int,
    element: Pair,
    a: ElementSpanView,
    b: ElementSpanView,
    path: Seq<char>,
    content: Seq<char>,
)
    requires
        alike(a, b, path, content),
    ensures
        alike(
            spec_process_inline_attribute_list(src, origin, element, a),
            spec_process_inline_attribute_list(src, origin, element, b),
            path,
            content,
        ),
{
    assert forall|x: ElementSpanView, y: ElementSpanView, z: Pair|
        #![trigger inline_attribute_list_step(src, origin)(x, z), inline_attribute_list_step(src, origin)(y, z)]
        alike(x, y, path, content) implies alike(
        inline_attribute_list_step(src, origin)(x, z),
        inline_attribute_list_step(src, origin)(y, z),
        path,
        content,
    ) by {
        lemma_attribute_alike(src, origin, z, x, y, path, content);
    }
    lemma_fold_alike(
        element.inner@,
        0,
        a,
        b,
        inline_attribute_list_step(src, origin),
        path,
        content,
    );
}

/// The attribute list of a block keeps nodes alike.
pub proof fn lemma_attribute_list_alike(
    src: Seq<char>,
    origin: int,
    element: Pair,
    a: ElementSpanView,
    b: ElementSpanView,
    path: Seq<char>,
    content: Seq<char>,
)
    requires
        alike(a, b, path, content),
    ensures
        alike(
            spec_process_attribute_list(src, origin, element, a),
            spec_process_attribute_list(src, origin, element, b),
            path,
            content,
        ),
{
    assert forall|x: ElementSpanView, y: ElementSpanView, z: Pair|
        #![trigger attribute_list_step(src, origin)(x, z), attribute_list_step(src, origin)(y, z)]
        alike(x, y, path, content) implies alike(
        attribute_list_step(src, origin)(x, z),
        attribute_list_step(src, origin)(y, z),
        path,
        content,
    ) by {
        lemma_inline_attribute_list_alike(src, origin, z, x, y, path, content);
    }
    lemma_fold_alike(element.inner@, 0, a, b, attribute_list_step(src, origin), path, content);
}

/// An image is, with the file recorded as unreadable, what it would be.
pub proof fn lemma_image_twin(
    src: Seq<char>,
    origin: int,
    element: Pair,
    base: ElementSpanView,
    bad: Env,
    good: Env,
    path: Seq<char>,
    content: Seq<char>,
)
    requires
        differ_at(bad, good, path, content),
    ensures
        twin_results(
            spec_process_image(src, origin, element, base, bad),
            spec_process_image(src, origin, element, base, good),
            path,
            content,
        ),
{
    let image = spec_collected_image(src, origin, element, base);
    lemma_twin_itself(image, path, content);
    match image.attribute("path"@) {
        Some(named) => {
            if named != path {
                assert(bad.file(named) == good.file(named));
                match bad.file(named) {
                    Some(Ok(held)) => {
                        lemma_twin_itself(
                            image.add_attribute("content"@, AttributeValueView::String(held)),
                            path,
                            content,
                        );
                    },
                    _ => {},
                }
            } else if image.attribute("opts"@) == Some("inline"@) {
                let with = image.add_attribute("content"@, AttributeValueView::String(content));
                assert(with.children == image.children);
            }
        },
        None => {},
    }
}

/// What a syntax node becomes with the file recorded as unreadable is what
/// it would be.
pub proof fn lemma_element_twin(
    src: Seq<char>,
    origin: int,
    element: Pair,
    parser: AsciidocParser,
    bad: Env,
    good: Env,
    path: Seq<char>,
    content: Seq<char>,
    depth: nat,
)
    requires
        differ_at(bad, good, path, content),
    ensures
        twin_elements(
            spec_process_element(src, origin, element, parser, bad, depth),
            spec_process_element(src, origin, element, parser, good, depth),
            path,
            content,
        ),
    decreases depth, element, 1int,
{
    let base = spec_set_span(src, origin, element);
    let items = element.inner@;
    lemma_twin_itself(base, path, content);
    match element.rule {
        Rule::DelimitedBlock => {
            lemma_delimited_parts(
                src,
                origin,
                items,
                0,
                base,
                base,
                parser,
                bad,
                good,
                path,
                content,
                depth,
            );
            lemma_alike_twin_results(
                spec_delimited_parts(src, origin, items, 0, base, parser, bad, depth),
                spec_delimited_parts(src, origin, items, 0, base, parser, good, depth),
                path,
                content,
            );
        },
        Rule::List => {
            lemma_last_element(
                src,
                origin,
                items,
                0,
                base,
                base,
                parser,
                bad,
                good,
                path,
                content,
                depth,
            );
        },
        Rule::Block => {
            lemma_last_element(
                src,
                origin,
                items,
                0,
                base,
                base,
                parser,
                bad,
                good,
                path,
                content,
                depth,
            );
        },
        Rule::BulletList => {
            let list = base.with_element(ElementView::List(ListType::Bullet));
            lemma_twin_itself(list, path, content);
            lemma_push_elements(
                src,
                origin,
                items,
                0,
                list,
                list,
                parser,
                bad,
                good,
                path,
                content,
                depth,
            );
            lemma_alike_twin_results(
                spec_push_elements(src, origin, items, 0, list, parser, bad, depth),
                spec_push_elements(src, origin, items, 0, list, parser, good, depth),
                path,
                content,
            );
        },
        Rule::NumberedList => {
            let list = base.with_element(ElementView::List(ListType::Number));
            lemma_twin_itself(list, path, content);
            lemma_push_elements(
                src,
                origin,
                items,
                0,
                list,
                list,
                parser,
                bad,
                good,
                path,
                content,
                depth,
            );
            lemma_alike_twin_results(
                spec_push_elements(src, origin, items, 0, list, parser, bad, depth),
                spec_push_elements(src, origin, items, 0, list, parser, good, depth),
                path,
                content,
            );
        },
        Rule::BulletListElement => {
            lemma_list_item(
                src,
                origin,
                items,
                0,
                base,
                base,
                Rule::Bullet,
                parser,
                bad,
                good,
                path,
                content,
                depth,
            );
            lemma_alike_twin_results(
                spec_list_item(src, origin, items, 0, base, Rule::Bullet, parser, bad, depth),
                spec_list_item(src, origin, items, 0, base, Rule::Bullet, parser, good, depth),
                path,
                content,
            );
        },
        Rule::NumberBulletListElement => {
            lemma_list_item(
                src,
                origin,
                items,
                0,
                base,
                base,
                Rule::NumberBullet,
                parser,
                bad,
                good,
                path,
                content,
                depth,
            );
            lemma_alike_twin_results(
                spec_list_item(src, origin, items, 0, base, Rule::NumberBullet, parser, bad, depth),
                spec_list_item(
                    src,
                    origin,
                    items,
                    0,
                    base,
                    Rule::NumberBullet,
                    parser,
                    good,
                    depth,
                ),
                path,
                content,
            );
        },
        Rule::ImageBlock => {
            lemma_image_twin(src, origin, element, base, bad, good, path, content);
        },
        Rule::TableRow => {
            let row = base.with_element(ElementView::TableRow);
            lemma_twin_itself(row, path, content);
            lemma_row_cells(
                src,
                origin,
                items,
                0,
                row,
                row,
                seq![default_cell_format()],
                parser,
                bad,
                good,
                path,
                content,
                depth,
            );
            lemma_alike_twin_results(
                spec_row_cells(
                    src,
                    origin,
                    items,
                    0,
                    row,
                    seq![default_cell_format()],
                    parser,
                    bad,
                    depth,
                ),
                spec_row_cells(
                    src,
                    origin,
                    items,
                    0,
                    row,
                    seq![default_cell_format()],
                    parser,
                    good,
                    depth,
                ),
                path,
                content,
            );
        },
        Rule::TableCell => {
            lemma_table_cell(
                src,
                origin,
                element,
                base,
                base,
                default_cell_format(),
                parser,
                bad,
                good,
                path,
                content,
                depth,
            );
            lemma_alike_twin_results(
                spec_process_table_cell(
                    src,
                    origin,
                    element,
                    base,
                    default_cell_format(),
                    parser,
                    bad,
                    depth,
                ),
                spec_process_table_cell(
                    src,
                    origin,
                    element,
                    base,
                    default_cell_format(),
                    parser,
                    good,
                    depth,
                ),
                path,
                content,
            );
        },
        _ => {
            match spec_process_element(src, origin, element, parser, bad, depth) {
                Ok(Some(node)) => {
                    lemma_twin_itself(node, path, content);
                },
                _ => {},
            }
        },
    }
}

/// Nodes that are alike are such that the second is what the first would be.
pub proof fn lemma_alike_twin_results(
    a: Result<ElementSpanView, HaltView>,
    b: Result<ElementSpanView, HaltView>,
    path: Seq<char>,
    content: Seq<char>,
)
    requires
        alike_results(a, b, path, content),
    ensures
        twin_results(a, b, path, content),
{
}

/// The children that are added for syntax nodes keep nodes alike.
pub proof fn lemma_push_elements(
    src: Seq<char>,
    origin: int,
    items: Seq<Pair>,
    from: int,
    a: ElementSpanView,
    b: ElementSpanView,
    parser: AsciidocParser,
    bad: Env,
    good: Env,
    path: Seq<char>,
    content: Seq<char>,
    depth: nat,
)
    requires
        differ_at(bad, good, path, content),
        alike(a, b, path, content),
    ensures
        alike_results(
            spec_push_elements(src, origin, items, from, a, parser, bad, depth),
            spec_push_elements(src, origin, items, from, b, parser, good, depth),
            path,
            content,
        ),
    decreases depth, items, items.len() - from,
{
    if 0 <= from < items.len() {
        lemma_element_twin(src, origin, items[from], parser, bad, good, path, content, depth);
        match (
            spec_process_element(src, origin, items[from], parser, bad, depth),
            spec_process_element(src, origin, items[from], parser, good, depth),
        ) {
            (Ok(Some(x)), Ok(Some(y))) => {
                lemma_alike_child(a, b, x, y, path, content);
                lemma_push_elements(
                    src,
                    origin,
                    items,
                    from + 1,
                    a.add_child(x),
                    b.add_child(y),
                    parser,
                    bad,
                    good,
                    path,
                    content,
                    depth,
                );
            },
            (Ok(None), Ok(None)) => {
                lemma_push_elements(
                    src,
                    origin,
                    items,
                    from + 1,
                    a,
                    b,
                    parser,
                    bad,
                    good,
                    path,
                    content,
                    depth,
                );
            },
            _ => {},
        }
    }
}

/// The last thing that a part of a list or of a block becomes is what it
/// would be.
pub proof fn lemma_last_element(
    src: Seq<char>,
    origin: int,
    items: Seq<Pair>,
    from: int,
    a: ElementSpanView,
    b: ElementSpanView,
    parser: AsciidocParser,
    bad: Env,
    good: Env,
    path: Seq<char>,
    content: Seq<char>,
    depth: nat,
)
    requires
        differ_at(bad, good, path, content),
        twin(a, b, path, content),
    ensures
        twin_results(
            spec_last_element(src, origin, items, from, a, parser, bad, depth),
            spec_last_element(src, origin, items, from, b, parser, good, depth),
            path,
            content,
        ),
    decreases depth, items, items.len() - from,
{
    if 0 <= from < items.len() {
        lemma_element_twin(src, origin, items[from], parser, bad, good, path, content, depth);
        match (
            spec_process_element(src, origin, items[from], parser, bad, depth),
            spec_process_element(src, origin, items[from], parser, good, depth),
        ) {
            (Ok(Some(x)), Ok(Some(y))) => {
                lemma_last_element(
                    src,
                    origin,
                    items,
                    from + 1,
                    x,
                    y,
                    parser,
                    bad,
                    good,
                    path,
                    content,
                    depth,
                );
            },
            (Ok(None), Ok(None)) => {
                lemma_last_element(
                    src,
                    origin,
                    items,
                    from + 1,
                    a,
                    b,
                    parser,
                    bad,
                    good,
                    path,
                    content,
                    depth,
                );
            },
            _ => {},
        }
    }
}

/// A part of a list item keeps nodes alike.
pub proof fn lemma_list_item_part(
    src: Seq<char>,
    origin: int,
    sub: Pair,
    a: ElementSpanView,
    b: ElementSpanView,
    marker: Rule,
    parser: AsciidocParser,
    bad: Env,
    good: Env,
    path: Seq<char>,
    content: Seq<char>,
    depth: nat,
)
    requires
        differ_at(bad, good, path, content),
        alike(a, b, path, content),
    ensures
        alike_results(
            spec_list_item_part(src, origin, sub, a, marker, parser, bad, depth),
            spec_list_item_part(src, origin, sub, b, marker, parser, good, depth),
            path,
            content,
        ),
    decreases depth, sub, 1int,
{
    if sub.rule != marker && sub.rule == Rule::ListElement {
        lemma_push_elements(
            src,
            origin,
            sub.inner@,
            0,
            a,
            b,
            parser,
            bad,
            good,
            path,
            content,
            depth,
        );
    } else if sub.rule != marker {
        let blank = spec_set_span(src, origin, sub);
        lemma_twin_itself(blank, path, content);
        lemma_alike_child(a, b, blank, blank, path, content);
    }
}

/// The parts of a list item keep nodes alike.
pub proof fn lemma_list_item(
    src: Seq<char>,
    origin: int,
    items: Seq<Pair>,
    from: int,
    a: ElementSpanView,
    b: ElementSpanView,
    marker: Rule,
    parser: AsciidocParser,
    bad: Env,
    good: Env,
    path: Seq<char>,
    content: Seq<char>,
    depth: nat,
)
    requires
        differ_at(bad, good, path, content),
        alike(a, b, path, content),
    ensures
        alike_results(
            spec_list_item(src, origin, items, from, a, marker, parser, bad, depth),
            spec_list_item(src, origin, items, from, b, marker, parser, good, depth),
            path,
            content,
        ),
    decreases depth, items, items.len() - from,
{
    if 0 <= from < items.len() {
        lemma_list_item_part(
            src,
            origin,
            items[from],
            a,
            b,
            marker,
            parser,
            bad,
            good,
            path,
            content,
            depth,
        );
        match (
            spec_list_item_part(src, origin, items[from], a, marker, parser, bad, depth),
            spec_list_item_part(src, origin, items[from], b, marker, parser, good, depth),
        ) {
            (Ok(x), Ok(y)) => {
                lemma_list_item(
                    src,
                    origin,
                    items,
                    from + 1,
                    x,
                    y,
                    marker,
                    parser,
                    bad,
                    good,
                    path,
                    content,
                    depth,
                );
            },
            _ => {},
        }
    }
}

/// A part of a delimited block keeps nodes alike.
pub proof fn lemma_delimited_part(
    src: Seq<char>,
    origin: int,
    sub: Pair,
    a: ElementSpanView,
    b: ElementSpanView,
    parser: AsciidocParser,
    bad: Env,
    good: Env,
    path: Seq<char>,
    content: Seq<char>,
    depth: nat,
)
    requires
        differ_at(bad, good, path, content),
        alike(a, b, path, content),
    ensures
        match (
            spec_delimited_part(src, origin, sub, a, parser, bad, depth),
            spec_delimited_part(src, origin, sub, b, parser, good, depth),
        ) {
            (Some(x), Some(y)) => alike_results(x, y, path, content),
            (None, None) => true,
            _ => false,
        },
    decreases depth, sub, 4int,
{
    if sub.rule == Rule::Anchor {
        lemma_anchor_alike(src, origin, sub, a, b, path, content);
    } else if sub.rule == Rule::AttributeList {
        lemma_attribute_list_alike(src, origin, sub, a, b, path, content);
    } else if sub.rule == Rule::Blocktitle {
        lemma_blocktitle_alike(src, origin, sub, a, b, path, content);
    } else if sub.rule == Rule::DelimitedTable {
        let x = a.with_element(ElementView::Table);
        let y = b.with_element(ElementView::Table);
        assert(spec_table_formats(x) == spec_table_formats(y));
        lemma_table_parts(
            src,
            origin,
            sub.inner@,
            0,
            x,
            y,
            spec_table_formats(x),
            parser,
            bad,
            good,
            path,
            content,
            depth,
        );
    } else if sub.rule == Rule::DelimitedComment {
        lemma_inner_parts(
            src,
            origin,
            sub.inner@,
            0,
            a.with_element(ElementView::TypedBlock { kind: BlockType::Comment }),
            b.with_element(ElementView::TypedBlock { kind: BlockType::Comment }),
            parser, bad, good, path, content, depth,
        );
    } else if sub.rule == Rule::DelimitedSource || sub.rule == Rule::DelimitedLiteral {
        lemma_inner_parts(
            src,
            origin,
            sub.inner@,
            0,
            a.with_element(ElementView::TypedBlock { kind: BlockType::Listing }),
            b.with_element(ElementView::TypedBlock { kind: BlockType::Listing }),
            parser, bad, good, path, content, depth,
        );
    } else if sub.rule == Rule::DelimitedExample {
        lemma_inner_parts(
            src,
            origin,
            sub.inner@,
            0,
            a.with_element(ElementView::TypedBlock { kind: BlockType::Example }),
            b.with_element(ElementView::TypedBlock { kind: BlockType::Example }),
            parser, bad, good, path, content, depth,
        );
    }
}

/// The parts of a delimited block keep nodes alike.
pub proof fn lemma_delimited_parts(
    src: Seq<char>,
    origin: int,
    items: Seq<Pair>,
    from: int,
    a: ElementSpanView,
    b: ElementSpanView,
    parser: AsciidocParser,
    bad: Env,
    good: Env,
    path: Seq<char>,
    content: Seq<char>,
    depth: nat,
)
    requires
        differ_at(bad, good, path, content),
        alike(a, b, path, content),
    ensures
        alike_results(
            spec_delimited_parts(src, origin, items, from, a, parser, bad, depth),
            spec_delimited_parts(src, origin, items, from, b, parser, good, depth),
            path,
            content,
        ),
    decreases depth, items, items.len() - from,
{
    if 0 <= from < items.len() {
        lemma_delimited_part(
            src,
            origin,
            items[from],
            a,
            b,
            parser,
            bad,
            good,
            path,
            content,
            depth,
        );
        match (
            spec_delimited_part(src, origin, items[from], a, parser, bad, depth),
            spec_delimited_part(src, origin, items[from], b, parser, good, depth),
        ) {
            (Some(Ok(x)), Some(Ok(y))) => {
                lemma_delimited_parts(
                    src,
                    origin,
                    items,
                    from + 1,
                    x,
                    y,
                    parser,
                    bad,
                    good,
                    path,
                    content,
                    depth,
                );
            },
            _ => {},
        }
    }
}

/// A part of the inside of a delimited block keeps nodes alike.
pub proof fn lemma_inner_part(
    src: Seq<char>,
    origin: int,
    sub: Pair,
    a: ElementSpanView,
    b: ElementSpanView,
    parser: AsciidocParser,
    bad: Env,
    good: Env,
    path: Seq<char>,
    content: Seq<char>,
    depth: nat,
)
    requires
        differ_at(bad, good, path, content),
        alike(a, b, path, content),
    ensures
        alike_results(
            spec_inner_part(src, origin, sub, a, parser, bad, depth),
            spec_inner_part(src, origin, sub, b, parser, good, depth),
            path,
            content,
        ),
    decreases depth, sub, 1int,
{
    if sub.rule == Rule::DelimitedInner && a.element == (ElementView::TypedBlock {
        kind: BlockType::Example,
    }) {
        match spec_reparse(parser, Rule::Asciidoc, sub.text(src, origin), depth) {
            Ok(roots) => {
                lemma_push_elements(
                    src,
                    origin + sub.start,
                    roots,
                    0,
                    a,
                    b,
                    parser,
                    bad,
                    good,
                    path,
                    content,
                    (depth - 1) as nat,
                );
            },
            Err(_) => {},
        }
    }
}

/// The parts of the inside of a delimited block keep nodes alike.
pub proof fn lemma_inner_parts(
    src: Seq<char>,
    origin: int,
    items: Seq<Pair>,
    from: int,
    a: ElementSpanView,
    b: ElementSpanView,
    parser: AsciidocParser,
    bad: Env,
    good: Env,
    path: Seq<char>,
    content: Seq<char>,
    depth: nat,
)
    requires
        differ_at(bad, good, path, content),
        alike(a, b, path, content),
    ensures
        alike_results(
            spec_inner_parts(src, origin, items, from, a, parser, bad, depth),
            spec_inner_parts(src, origin, items, from, b, parser, good, depth),
            path,
            content,
        ),
    decreases depth, items, items.len() - from,
{
    if 0 <= from < items.len() {
        lemma_inner_part(src, origin, items[from], a, b, parser, bad, good, path, content, depth);
        match (
            spec_inner_part(src, origin, items[from], a, parser, bad, depth),
            spec_inner_part(src, origin, items[from], b, parser, good, depth),
        ) {
            (Ok(x), Ok(y)) => {
                lemma_inner_parts(
                    src,
                    origin,
                    items,
                    from + 1,
                    x,
                    y,
                    parser,
                    bad,
                    good,
                    path,
                    content,
                    depth,
                );
            },
            _ => {},
        }
    }
}

/// What a syntax node of a table becomes with the file recorded as
/// unreadable is what it would be.
pub proof fn lemma_table_element(
    src: Seq<char>,
    origin: int,
    sub: Pair,
    formats: Seq<CellFormat>,
    parser: AsciidocParser,
    bad: Env,
    good: Env,
    path: Seq<char>,
    content: Seq<char>,
    depth: nat,
)
    requires
        differ_at(bad, good, path, content),
    ensures
        twin_elements(
            spec_table_element(src, origin, sub, formats, parser, bad, depth),
            spec_table_element(src, origin, sub, formats, parser, good, depth),
            path,
            content,
        ),
    decreases depth, sub, 2int,
{
    if sub.rule == Rule::TableRow {
        let row = spec_set_span(src, origin, sub).with_element(ElementView::TableRow);
        lemma_twin_itself(row, path, content);
        lemma_row_cells(
            src,
            origin,
            sub.inner@,
            0,
            row,
            row,
            formats,
            parser,
            bad,
            good,
            path,
            content,
            depth,
        );
    } else {
        lemma_element_twin(src, origin, sub, parser, bad, good, path, content, depth);
    }
}

/// The children that are added for the syntax nodes of a table keep nodes
/// alike.
pub proof fn lemma_push_table_elements(
    src: Seq<char>,
    origin: int,
    items: Seq<Pair>,
    from: int,
    a: ElementSpanView,
    b: ElementSpanView,
    formats: Seq<CellFormat>,
    parser: AsciidocParser,
    bad: Env,
    good: Env,
    path: Seq<char>,
    content: Seq<char>,
    depth: nat,
)
    requires
        differ_at(bad, good, path, content),
        alike(a, b, path, content),
    ensures
        alike_results(
            spec_push_table_elements(src, origin, items, from, a, formats, parser, bad, depth),
            spec_push_table_elements(src, origin, items, from, b, formats, parser, good, depth),
            path,
            content,
        ),
    decreases depth, items, items.len() - from,
{
    if 0 <= from < items.len() {
        lemma_table_element(
            src,
            origin,
            items[from],
            formats,
            parser,
            bad,
            good,
            path,
            content,
            depth,
        );
        match (
            spec_table_element(src, origin, items[from], formats, parser, bad, depth),
            spec_table_element(src, origin, items[from], formats, parser, good, depth),
        ) {
            (Ok(Some(x)), Ok(Some(y))) => {
                lemma_alike_child(a, b, x, y, path, content);
                lemma_push_table_elements(
                    src,
                    origin,
                    items,
                    from + 1,
                    a.add_child(x),
                    b.add_child(y),
                    formats,
                    parser, bad, good, path, content, depth,
                );
            },
            (Ok(None), Ok(None)) => {
                lemma_push_table_elements(
                    src,
                    origin,
                    items,
                    from + 1,
                    a,
                    b,
                    formats,
                    parser,
                    bad,
                    good,
                    path,
                    content,
                    depth,
                );
            },
            _ => {},
        }
    }
}

/// The rows and cells of a table body keep nodes alike.
pub proof fn lemma_push_inner_elements(
    src: Seq<char>,
    origin: int,
    items: Seq<Pair>,
    from: int,
    a: ElementSpanView,
    b: ElementSpanView,
    formats: Seq<CellFormat>,
    parser: AsciidocParser,
    bad: Env,
    good: Env,
    path: Seq<char>,
    content: Seq<char>,
    depth: nat,
)
    requires
        differ_at(bad, good, path, content),
        alike(a, b, path, content),
    ensures
        alike_results(
            spec_push_inner_elements(src, origin, items, from, a, formats, parser, bad, depth),
            spec_push_inner_elements(src, origin, items, from, b, formats, parser, good, depth),
            path,
            content,
        ),
    decreases depth, items, items.len() - from,
{
    if 0 <= from < items.len() {
        lemma_push_table_elements(
            src,
            origin,
            items[from].inner@,
            0,
            a,
            b,
            formats,
            parser,
            bad,
            good,
            path,
            content,
            depth,
        );
        match (
            spec_push_table_elements(
                src,
                origin,
                items[from].inner@,
                0,
                a,
                formats,
                parser,
                bad,
                depth,
            ),
            spec_push_table_elements(
                src,
                origin,
                items[from].inner@,
                0,
                b,
                formats,
                parser,
                good,
                depth,
            ),
        ) {
            (Ok(x), Ok(y)) => {
                lemma_push_inner_elements(
                    src,
                    origin,
                    items,
                    from + 1,
                    x,
                    y,
                    formats,
                    parser,
                    bad,
                    good,
                    path,
                    content,
                    depth,
                );
            },
            _ => {},
        }
    }
}

/// A part of a table keeps nodes alike.
pub proof fn lemma_table_part(
    src: Seq<char>,
    origin: int,
    sub: Pair,
    a: ElementSpanView,
    b: ElementSpanView,
    formats: Seq<CellFormat>,
    parser: AsciidocParser,
    bad: Env,
    good: Env,
    path: Seq<char>,
    content: Seq<char>,
    depth: nat,
)
    requires
        differ_at(bad, good, path, content),
        alike(a, b, path, content),
    ensures
        alike_results(
            spec_table_part(src, origin, sub, a, formats, parser, bad, depth),
            spec_table_part(src, origin, sub, b, formats, parser, good, depth),
            path,
            content,
        ),
    decreases depth, sub, 3int,
{
    if sub.rule == Rule::DelimitedInner {
        match spec_reparse(parser, Rule::TableInner, sub.text(src, origin), depth) {
            Ok(roots) => {
                lemma_push_inner_elements(
                    src,
                    origin + sub.start,
                    roots,
                    0,
                    a,
                    b,
                    formats,
                    parser,
                    bad,
                    good,
                    path,
                    content,
                    (depth - 1) as nat,
                );
            },
            Err(_) => {},
        }
    } else if sub.rule == Rule::TableRow {
        lemma_table_element(src, origin, sub, formats, parser, bad, good, path, content, depth);
        match (
            spec_table_element(src, origin, sub, formats, parser, bad, depth),
            spec_table_element(src, origin, sub, formats, parser, good, depth),
        ) {
            (Ok(Some(x)), Ok(Some(y))) => {
                lemma_alike_child(a, b, x, y, path, content);
            },
            _ => {},
        }
    }
}

/// The parts of a table keep nodes alike.
pub proof fn lemma_table_parts(
    src: Seq<char>,
    origin: int,
    items: Seq<Pair>,
    from: int,
    a: ElementSpanView,
    b: ElementSpanView,
    formats: Seq<CellFormat>,
    parser: AsciidocParser,
    bad: Env,
    good: Env,
    path: Seq<char>,
    content: Seq<char>,
    depth: nat,
)
    requires
        differ_at(bad, good, path, content),
        alike(a, b, path, content),
    ensures
        alike_results(
            spec_table_parts(src, origin, items, from, a, formats, parser, bad, depth),
            spec_table_parts(src, origin, items, from, b, formats, parser, good, depth),
            path,
            content,
        ),
    decreases depth, items, items.len() - from,
{
    if 0 <= from < items.len() {
        lemma_table_part(
            src,
            origin,
            items[from],
            a,
            b,
            formats,
            parser,
            bad,
            good,
            path,
            content,
            depth,
        );
        match (
            spec_table_part(src, origin, items[from], a, formats, parser, bad, depth),
            spec_table_part(src, origin, items[from], b, formats, parser, good, depth),
        ) {
            (Ok(x), Ok(y)) => {
                lemma_table_parts(
                    src,
                    origin,
                    items,
                    from + 1,
                    x,
                    y,
                    formats,
                    parser,
                    bad,
                    good,
                    path,
                    content,
                    depth,
                );
            },
            _ => {},
        }
    }
}

/// The cells of a row keep nodes alike.
pub proof fn lemma_row_cells(
    src: Seq<char>,
    origin: int,
    items: Seq<Pair>,
    from: int,
    a: ElementSpanView,
    b: ElementSpanView,
    formats: Seq<CellFormat>,
    parser: AsciidocParser,
    bad: Env,
    good: Env,
    path: Seq<char>,
    content: Seq<char>,
    depth: nat,
)
    requires
        differ_at(bad, good, path, content),
        alike(a, b, path, content),
    ensures
        alike_results(
            spec_row_cells(src, origin, items, from, a, formats, parser, bad, depth),
            spec_row_cells(src, origin, items, from, b, formats, parser, good, depth),
            path,
            content,
        ),
    decreases depth, items, items.len() - from,
{
    if 0 <= from < items.len() {
        match format_at(formats, from) {
            None => {},
            Some(format) => {
                let start = spec_set_span(src, origin, items[from]);
                lemma_twin_itself(start, path, content);
                lemma_table_cell(
                    src,
                    origin,
                    items[from],
                    start,
                    start,
                    format,
                    parser,
                    bad,
                    good,
                    path,
                    content,
                    depth,
                );
                match (
                    spec_process_table_cell(
                        src,
                        origin,
                        items[from],
                        start,
                        format,
                        parser,
                        bad,
                        depth,
                    ),
                    spec_process_table_cell(
                        src,
                        origin,
                        items[from],
                        start,
                        format,
                        parser,
                        good,
                        depth,
                    ),
                ) {
                    (Ok(x), Ok(y)) => {
                        lemma_alike_child(a, b, x, y, path, content);
                        lemma_row_cells(
                            src,
                            origin,
                            items,
                            from + 1,
                            a.add_child(x),
                            b.add_child(y),
                            formats,
                            parser, bad, good, path, content, depth,
                        );
                    },
                    _ => {},
                }
            },
        }
    }
}

/// A table cell keeps nodes alike.
pub proof fn lemma_table_cell(
    src: Seq<char>,
    origin: int,
    element: Pair,
    a: ElementSpanView,
    b: ElementSpanView,
    format: CellFormat,
    parser: AsciidocParser,
    bad: Env,
    good: Env,
    path: Seq<char>,
    content: Seq<char>,
    depth: nat,
)
    requires
        differ_at(bad, good, path, content),
        alike(a, b, path, content),
    ensures
        alike_results(
            spec_process_table_cell(src, origin, element, a, format, parser, bad, depth),
            spec_process_table_cell(src, origin, element, b, format, parser, good, depth),
            path,
            content,
        ),
    decreases depth, element, 0int,
{
    let (start, end) = cell_span(src, origin, element);
    let place = spec_node_at(src, start, end, ElementView::TableCell);
    let x = a.with_element(ElementView::TableCell).with_place(place);
    let y = b.with_element(ElementView::TableCell).with_place(place);
    assert(alike(x, y, path, content));
    match spec_reparse(parser, Rule::Asciidoc, x.content, depth) {
        Ok(roots) => {
            lemma_push_elements(
                src,
                start,
                roots,
                0,
                x,
                y,
                parser,
                bad,
                good,
                path,
                content,
                (depth - 1) as nat,
            );
        },
        Err(_) => {},
    }
}

/// The elements that are found for syntax nodes with the file recorded as
/// unreadable are what they would be.
pub proof fn lemma_elements_twin(
    src: Seq<char>,
    roots: Seq<Pair>,
    from: int,
    a: Seq<ElementSpanView>,
    b: Seq<ElementSpanView>,
    parser: AsciidocParser,
    bad: Env,
    good: Env,
    path: Seq<char>,
    content: Seq<char>,
    depth: nat,
)
    requires
        differ_at(bad, good, path, content),
        a.len() == b.len(),
        forall|i: int| #![trigger a[i]] 0 <= i < a.len() ==> twin(a[i], b[i], path, content),
    ensures
        match (
            spec_elements(src, roots, from, a, parser, bad, depth),
            spec_elements(src, roots, from, b, parser, good, depth),
        ) {
            (Ok(x), Ok(y)) => x.len() == y.len() && forall|i: int|
                #![trigger x[i]]
                0 <= i < x.len() ==> twin(x[i], y[i], path, content),
            (Err(x), Err(y)) => x == y,
            _ => false,
        },
    decreases roots.len() - from,
{
    if 0 <= from < roots.len() {
        lemma_element_twin(src, 0, roots[from], parser, bad, good, path, content, depth);
        match (
            spec_process_element(src, 0, roots[from], parser, bad, depth),
            spec_process_element(src, 0, roots[from], parser, good, depth),
        ) {
            (Ok(Some(x)), Ok(Some(y))) => {
                lemma_elements_twin(
                    src,
                    roots,
                    from + 1,
                    a.push(x),
                    b.push(y),
                    parser,
                    bad,
                    good,
                    path,
                    content,
                    depth,
                );
            },
            (Ok(None), Ok(None)) => {
                lemma_elements_twin(
                    src,
                    roots,
                    from + 1,
                    a,
                    b,
                    parser,
                    bad,
                    good,
                    path,
                    content,
                    depth,
                );
            },
            _ => {},
        }
    }
}

/// Two documents are the same but for their elements, of which each of the
/// second is what the one of the first would be.
pub open spec fn twin_documents(
    a: ASTView,
    b: ASTView,
    path: Seq<char>,
    content: Seq<char>,
) -> bool {
    &&& b.content == a.content
    &&& b.attributes == a.attributes
    &&& b.elements.len() == a.elements.len()
    &&& forall|i: int|
        #![trigger a.elements[i]]
        0 <= i < a.elements.len() ==> twin(a.elements[i], b.elements[i], path, content)
}

/// A file that cannot be read fails no document, and takes nothing from it
/// but content. Where the reader gives a document with the file at `path`
/// recorded with its content, it gives one with the file recorded as
/// unreadable, and the other way round; the two differ in nothing but the
/// attribute `content` at the end of the nodes that ask for that file.
/// Where it gives none, the reason is the same.
pub proof fn lemma_unreadable_file(
    input: Seq<char>,
    args: Opts,
    parser: AsciidocParser,
    bad: Env,
    good: Env,
    path: Seq<char>,
    content: Seq<char>,
)
    requires
        differ_at(bad, good, path, content),
    ensures
        match (spec_parse(input, args, parser, bad), spec_parse(input, args, parser, good)) {
            (Ok(a), Ok(b)) => twin_documents(a, b, path, content),
            (Err(x), Err(y)) => x == y,
            _ => false,
        },
{
    match parser.answer(Rule::Asciidoc, input) {
        Some(Ok(roots)) => {
            lemma_elements_twin(
                input,
                roots,
                0,
                Seq::empty(),
                Seq::empty(),
                parser,
                bad,
                good,
                path,
                content,
                args.max_depth as nat,
            );
        },
        _ => {},
    }
}

} // verus!
