//! The node that a syntax node starts as: its place in the text, and nothing
//! else yet.

use vstd::prelude::*;
use vstd::string::*;
use crate::ast::{Element, ElementSpan, ElementSpanView, ElementView};
use crate::cst::{Pair, Rule};
use crate::source::{column_of, line_of, position_at, text_at};
use crate::text::{lemma_span_fits, slice, valid_span};

verus! {

/// The node of the kind `element` that lies in `src` from the byte `start` to
/// the byte `end`: its content is the text between them, its lines and
/// columns are those of the two bytes, and it has neither children nor
/// attributes.
pub open spec fn spec_node_at(
    src: Seq<char>,
    start: int,
    end: int,
    element: ElementView,
) -> ElementSpanView {
    ElementSpanView {
        element,
        content: slice(src, start, end),
        children: Seq::empty(),
        attributes: Seq::empty(),
        positional_attributes: Seq::empty(),
        start: start as nat,
        end: end as nat,
        start_line: line_of(slice(src, 0, start)),
        start_col: column_of(slice(src, 0, start)),
        end_line: line_of(slice(src, 0, end)),
        end_col: column_of(slice(src, 0, end)),
    }
}

/// The node of the kind `element` that lies where `rule` lies in `src`. The
/// offsets of `rule` count from the byte `origin` of `src`; those of the node
/// count from the start of `src`.
pub open spec fn spec_from_element(
    src: Seq<char>,
    origin: int,
    rule: Pair,
    element: ElementView,
) -> ElementSpanView {
    spec_node_at(src, origin + rule.start, origin + rule.end, element)
}

/// What an error node says of a syntax node that the reader has no use for.
pub open spec fn not_implemented(rule: Rule) -> Seq<char> {
    "Not implemented: "@ + rule.spec_name()
}

/// The error node that stands for `element` until something better is known
/// of it.
pub open spec fn spec_set_span(src: Seq<char>, origin: int, element: Pair) -> ElementSpanView {
    spec_from_element(src, origin, element, ElementView::Error(not_implemented(element.rule)))
}

/// Makes the node of the kind `element` that lies in `src` from the byte
/// `start` to the byte `end`.
pub fn node_at<'a>(src: &'a str, start: usize, end: usize, element: Element) -> (r: ElementSpan<'a>)
    requires
        valid_span(src@, start as int, end as int),
    ensures
        r@ == spec_node_at(src@, start as int, end as int, element@),
{
    let (start_line, start_col) = position_at(src, start);
    let (end_line, end_col) = position_at(src, end);
    let r = ElementSpan {
        element,
        content: text_at(src, start, end),
        children: Vec::new(),
        attributes: Vec::new(),
        positional_attributes: Vec::new(),
        start,
        end,
        start_line,
        start_col,
        end_line,
        end_col,
    };
    assert(r@.children =~= Seq::empty());
    assert(r@.attributes =~= Seq::empty());
    assert(r@.positional_attributes =~= Seq::empty());
    r
}

/// Makes the node of the kind `element` that lies where `rule` lies in `src`.
pub fn from_element<'a>(src: &'a str, origin: usize, rule: &Pair, element: Element) -> (r: ElementSpan<'a>)
    requires
        valid_span(src@, origin + rule.start, origin + rule.end),
    ensures
        r@ == spec_from_element(src@, origin as int, *rule, element@),
{
    let all: usize = src.as_bytes().len();
    proof {
        lemma_span_fits(src@, origin + rule.start, origin + rule.end);
    }
    node_at(src, origin + rule.start, origin + rule.end, element)
}

/// Makes the error node that stands for `element` until something better is
/// known of it.
pub fn set_span<'a>(src: &'a str, origin: usize, element: &Pair) -> (r: ElementSpan<'a>)
    requires
        valid_span(src@, origin + element.start, origin + element.end),
    ensures
        r@ == spec_set_span(src@, origin as int, *element),
{
    let message = String::from_str("Not implemented: ").concat(element.rule.name());
    from_element(src, origin, element, Element::Error(message))
}

} // verus!
