//! What an example block holds: the text between its delimiters, once as it
//! stands and once as the elements of the document that it is.

use vstd::prelude::*;
use crate::ast::{AttributeValueView, AttributeView, BlockType, ElementSpanView, ElementView};
use crate::cst::{Pair, Rule};
use crate::dispatch::{
    spec_delimited_part,
    spec_delimited_parts,
    spec_inner_part,
    spec_inner_parts,
    spec_process_element,
    spec_push_elements,
    spec_reparse,
};
use crate::element::spec_set_span;
use crate::known::{AsciidocParser, Env, HaltView};

verus! {

/// `element` is a delimited block that holds nothing but an example, and the
/// example nothing but the text between its delimiters.
pub open spec fn is_plain_example(element: Pair) -> bool {
    &&& element.rule == Rule::DelimitedBlock
    &&& element.inner@.len() == 1
    &&& element.inner@[0].rule == Rule::DelimitedExample
    &&& element.inner@[0].inner@.len() == 1
    &&& element.inner@[0].inner@[0].rule == Rule::DelimitedInner
}

/// The byte of the text at which the text between the delimiters of a plain
/// example starts.
pub open spec fn example_origin(origin: int, element: Pair) -> int {
    origin + element.inner@[0].inner@[0].start
}

/// The text between the delimiters of a plain example.
pub open spec fn example_text(src: Seq<char>, origin: int, element: Pair) -> Seq<char> {
    element.inner@[0].inner@[0].text(src, origin)
}

/// Children that are added leave the kind, the place, the content and the
/// attributes of a node as they are.
pub proof fn lemma_push_keeps_attributes(
    src: Seq<char>,
    origin: int,
    items: Seq<Pair>,
    from: int,
    base: ElementSpanView,
    parser: AsciidocParser,
    env: Env,
    depth: nat,
)
    ensures
        match spec_push_elements(src, origin, items, from, base, parser, env, depth) {
            Ok(node) => node.attributes == base.attributes && node.positional_attributes
                == base.positional_attributes && node.element == base.element && node.content
                == base.content && node.start == base.start && node.end == base.end
                && node.children.len() >= base.children.len(),
            Err(_) => true,
        },
    decreases items.len() - from,
{
    if 0 <= from < items.len() {
        match spec_process_element(src, origin, items[from], parser, env, depth) {
            Err(_) => {},
            Ok(Some(child)) => {
                lemma_push_keeps_attributes(
                    src,
                    origin,
                    items,
                    from + 1,
                    base.add_child(child),
                    parser,
                    env,
                    depth,
                );
            },
            Ok(None) => {
                lemma_push_keeps_attributes(src, origin, items, from + 1, base, parser, env, depth);
            },
        }
    }
}

/// What a plain example becomes, in one step: `start` with the elements of
/// the text as children, and the text as the attribute `content`.
pub open spec fn spec_plain_example(
    src: Seq<char>,
    inside: int,
    text: Seq<char>,
    start: ElementSpanView,
    parser: AsciidocParser,
    env: Env,
    depth: nat,
) -> Result<ElementSpanView, HaltView> {
    match spec_reparse(parser, Rule::Asciidoc, text, depth) {
        Err(halt) => Err(halt),
        Ok(roots) => match spec_push_elements(
            src,
            inside,
            roots,
            0,
            start,
            parser,
            env,
            (depth - 1) as nat,
        ) {
            Err(halt) => Err(halt),
            Ok(filled) => Ok(filled.add_attribute("content"@, AttributeValueView::Ref(text))),
        },
    }
}

/// The inside of a plain example is taken in in one step.
proof fn lemma_inside(
    src: Seq<char>,
    origin: int,
    example: Pair,
    start: ElementSpanView,
    parser: AsciidocParser,
    env: Env,
    depth: nat,
)
    requires
        example.inner@.len() == 1,
        example.inner@[0].rule == Rule::DelimitedInner,
        start.element == (ElementView::TypedBlock { kind: BlockType::Example }),
    ensures
        spec_inner_parts(src, origin, example.inner@, 0, start, parser, env, depth)
            == spec_plain_example(
            src,
            origin + example.inner@[0].start,
            example.inner@[0].text(src, origin),
            start,
            parser,
            env,
            depth,
        ),
{
    let items = example.inner@;
    let step = spec_inner_part(src, origin, items[0], start, parser, env, depth);
    assert(step == spec_plain_example(
        src,
        origin + items[0].start,
        items[0].text(src, origin),
        start,
        parser,
        env,
        depth,
    ));
    match step {
        Ok(next) => {
            assert(spec_inner_parts(src, origin, items, 1, next, parser, env, depth) == Ok::<
                ElementSpanView,
                HaltView,
            >(next));
        },
        Err(_) => {},
    }
}

/// A plain example is taken in in one step.
proof fn lemma_block(
    src: Seq<char>,
    origin: int,
    element: Pair,
    parser: AsciidocParser,
    env: Env,
    depth: nat,
)
    requires
        is_plain_example(element),
    ensures
        spec_delimited_parts(
            src,
            origin,
            element.inner@,
            0,
            spec_set_span(src, origin, element),
            parser,
            env,
            depth,
        ) == spec_plain_example(
            src,
            example_origin(origin, element),
            example_text(src, origin, element),
            spec_set_span(src, origin, element).with_element(
                ElementView::TypedBlock { kind: BlockType::Example },
            ),
            parser,
            env,
            depth,
        ),
{
    let items = element.inner@;
    let base = spec_set_span(src, origin, element);
    let start = base.with_element(ElementView::TypedBlock { kind: BlockType::Example });
    lemma_inside(src, origin, items[0], start, parser, env, depth);
    let step = spec_delimited_part(src, origin, items[0], base, parser, env, depth);
    assert(step == Some(spec_inner_parts(src, origin, items[0].inner@, 0, start, parser, env, depth)));
    match step {
        Some(Ok(next)) => {
            assert(spec_delimited_parts(src, origin, items, 1, next, parser, env, depth) == Ok::<
                ElementSpanView,
                HaltView,
            >(next));
        },
        _ => {},
    }
}

/// A plain example becomes an example block with exactly one attribute, its
/// `content`, which is the text between the delimiters as it stands; and its
/// children are what the syntax nodes of that text become, in their order.
pub proof fn lemma_plain_example(
    src: Seq<char>,
    origin: int,
    element: Pair,
    parser: AsciidocParser,
    env: Env,
    depth: nat,
)
    requires
        is_plain_example(element),
    ensures
        match spec_process_element(src, origin, element, parser, env, depth) {
            Ok(Some(node)) => {
                let text = example_text(src, origin, element);
                let start = spec_set_span(src, origin, element).with_element(
                    ElementView::TypedBlock { kind: BlockType::Example },
                );
                &&& node.element == ElementView::TypedBlock { kind: BlockType::Example }
                &&& node.attributes == seq![
                    AttributeView { key: "content"@, value: AttributeValueView::Ref(text) },
                ]
                &&& spec_reparse(parser, Rule::Asciidoc, text, depth) is Ok
                &&& spec_push_elements(
                    src,
                    example_origin(origin, element),
                    spec_reparse(parser, Rule::Asciidoc, text, depth)->Ok_0,
                    0,
                    start,
                    parser,
                    env,
                    (depth - 1) as nat,
                ) is Ok
                &&& node.children == spec_push_elements(
                    src,
                    example_origin(origin, element),
                    spec_reparse(parser, Rule::Asciidoc, text, depth)->Ok_0,
                    0,
                    start,
                    parser,
                    env,
                    (depth - 1) as nat,
                )->Ok_0.children
            },
            Ok(None) => false,
            Err(_) => true,
        },
{
    let text = example_text(src, origin, element);
    let start = spec_set_span(src, origin, element).with_element(
        ElementView::TypedBlock { kind: BlockType::Example },
    );
    lemma_block(src, origin, element, parser, env, depth);
    match spec_reparse(parser, Rule::Asciidoc, text, depth) {
        Ok(roots) => {
            let inside = example_origin(origin, element);
            lemma_push_keeps_attributes(
                src,
                inside,
                roots,
                0,
                start,
                parser,
                env,
                (depth - 1) as nat,
            );
            match spec_push_elements(
                src,
                inside,
                roots,
                0,
                start,
                parser,
                env,
                (depth - 1) as nat,
            ) {
                Ok(filled) => {
                    assert(filled.attributes =~= Seq::<AttributeView>::empty());
                    assert(filled.add_attribute("content"@, AttributeValueView::Ref(text)).attributes
                        =~= seq![
                        AttributeView { key: "content"@, value: AttributeValueView::Ref(text) },
                    ]);
                },
                Err(_) => {},
            }
        },
        Err(_) => {},
    }
}

} // verus!
