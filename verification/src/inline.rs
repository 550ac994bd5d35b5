//! Paragraphs and what stands inside a line: styled text, links and cross
//! references.

use vstd::prelude::*;
use vstd::string::*;
use crate::ast::{
    AttributeValue,
    AttributeValueView,
    Element,
    ElementSpan,
    ElementSpanView,
    ElementView,
};
use crate::attributes::{
    process_anchor,
    process_inline_attribute_list,
    spec_process_anchor,
    spec_process_inline_attribute_list,
};
use crate::cst::{lemma_within, Pair, Rule};
use crate::element::{from_element, set_span, spec_from_element, spec_set_span};
use crate::fold::fold;
use crate::text::option_text;

verus! {

/// Appends the text of a node of the rule `filter`, after `join` where
/// something stands before it.
pub open spec fn join_step(src: Seq<char>, origin: int, filter: Rule, join: Seq<char>) -> spec_fn(
    Option<Seq<char>>,
    Pair,
) -> Option<Seq<char>> {
    |acc: Option<Seq<char>>, sub: Pair|
        if sub.rule == filter {
            match acc {
                None => Some(sub.text(src, origin)),
                Some(s) => Some(s + join + sub.text(src, origin)),
            }
        } else {
            acc
        }
}

/// The texts of the nodes of the rule `filter` directly inside `element`, in
/// the order of the text and with `join` between them; nothing where there is
/// no such node.
pub open spec fn spec_concat_elements(
    src: Seq<char>,
    origin: int,
    element: Pair,
    filter: Rule,
    join: Seq<char>,
) -> Option<Seq<char>> {
    fold(element.inner@, 0, None, join_step(src, origin, filter, join))
}

/// Joins the texts of the nodes of the rule `filter` directly inside
/// `element`.
pub fn concat_elements(
    src: &str,
    origin: usize,
    element: &Pair,
    filter: Rule,
    join: &str,
) -> (r: Option<String>)
    requires
        element.within(src@, origin as int),
    ensures
        option_text(r) == spec_concat_elements(src@, origin as int, *element, filter, join@),
{
    let mut out: Option<String> = None;
    let mut i: usize = 0;
    proof {
        lemma_within(*element, src@, origin as int);
    }
    while i < element.inner.len()
        invariant
            i <= element.inner@.len(),
            forall|k: int|
                0 <= k < element.inner@.len()
                    ==> (#[trigger] element.inner@[k]).within(src@, origin as int),
            fold(
                element.inner@,
                i as int,
                option_text(out),
                join_step(src@, origin as int, filter, join@),
            )
                == spec_concat_elements(src@, origin as int, *element, filter, join@),
        decreases element.inner@.len() - i,
    {
        let sub = &element.inner[i];
        proof {
            lemma_within(*sub, src@, origin as int);
        }
        if sub.rule == filter {
            out =
            match out {
                None => Some(String::from_str(sub.as_str(src, origin))),
                Some(s) => {
                    let mut joined = s;
                    joined.append(join);
                    joined.append(sub.as_str(src, origin));
                    Some(joined)
                },
            };
        }
        i = i + 1;
    }
    out
}

/// `base` as text in the style `style`, with the characters inside `sub` as
/// its attribute `content` where there are any.
pub open spec fn spec_style(
    src: Seq<char>,
    origin: int,
    sub: Pair,
    base: ElementSpanView,
    style: Seq<char>,
) -> ElementSpanView {
    let styled = base.with_element(ElementView::Styled).add_attribute(
        "style"@,
        AttributeValueView::Ref(style),
    );
    match spec_concat_elements(src, origin, sub, Rule::Linechar, ""@) {
        Some(content) => styled.add_attribute("content"@, AttributeValueView::String(content)),
        None => styled,
    }
}

/// Makes `base` text in the style `style`.
pub fn style<'a>(
    src: &'a str,
    origin: usize,
    sub: &Pair,
    base: ElementSpan<'a>,
    name: &'a str,
) -> (r: ElementSpan<'a>)
    requires
        sub.within(src@, origin as int),
    ensures
        r@ == spec_style(src@, origin as int, *sub, base@, name@),
{
    let mut base = base;
    base.element = Element::Styled;
    base.add_attribute("style", AttributeValue::Ref(name));
    match concat_elements(src, origin, sub, Rule::Linechar, "") {
        Some(content) => {
            base.add_attribute("content", AttributeValue::String(content));
        },
        None => {},
    }
    base
}

/// Takes in one part of a link.
pub open spec fn link_step(
    src: Seq<char>,
    origin: int) -> spec_fn(ElementSpanView,
    Pair,
) -> ElementSpanView {
    |base: ElementSpanView, sub: Pair|
        if sub.rule == Rule::Url {
            let with_url = base.add_attribute(
                "url"@,
                AttributeValueView::Ref(sub.text(src, origin)),
            );
            if sub.inner@.len() > 0 {
                with_url.add_attribute(
                    "protocol"@,
                    AttributeValueView::Ref(sub.inner@[0].text(src, origin)),
                )
            } else {
                with_url
            }
        } else if sub.rule == Rule::InlineAttributeList {
            spec_process_inline_attribute_list(src, origin, sub, base)
        } else {
            base.add_child(spec_set_span(src, origin, sub))
        }
}

/// `base` as the link `element`. An address gives the attribute `url`, and
/// the first node inside the address the attribute `protocol`; an attribute
/// list gives what it holds; any other part becomes a child as it stands.
pub open spec fn spec_process_link(
    src: Seq<char>,
    origin: int,
    element: Pair,
    base: ElementSpanView,
) -> ElementSpanView {
    fold(element.inner@, 0, base.with_element(ElementView::Link), link_step(src, origin))
}

/// Makes `base` the link `element`.
pub fn process_link<'a>(
    src: &'a str,
    origin: usize,
    element: &Pair,
    base: ElementSpan<'a>,
) -> (r: ElementSpan<'a>)
    requires
        element.within(src@, origin as int),
    ensures
        r@ == spec_process_link(src@, origin as int, *element, base@),
{
    let mut base = base;
    base.element = Element::Link;
    let ghost first = base@;
    let mut i: usize = 0;
    proof {
        lemma_within(*element, src@, origin as int);
    }
    while i < element.inner.len()
        invariant
            i <= element.inner@.len(),
            forall|k: int|
                0 <= k < element.inner@.len()
                    ==> (#[trigger] element.inner@[k]).within(src@, origin as int),
            fold(element.inner@, i as int, base@, link_step(src@, origin as int)) == fold(
                element.inner@,
                0,
                first,
                link_step(src@, origin as int),
            ),
        decreases element.inner@.len() - i,
    {
        let sub = &element.inner[i];
        proof {
            lemma_within(*sub, src@, origin as int);
        }
        if sub.rule == Rule::Url {
            base.add_attribute("url", AttributeValue::Ref(sub.as_str(src, origin)));
            if sub.inner.len() > 0 {
                base.add_attribute(
                    "protocol",
                    AttributeValue::Ref(sub.inner[0].as_str(src, origin)),
                );
            }
        } else if sub.rule == Rule::InlineAttributeList {
            base = process_inline_attribute_list(src, origin, sub, base);
        } else {
            base.add_child(set_span(src, origin, sub));
        }
        i = i + 1;
    }
    base
}

/// Adds the text of an identifier as the attribute `id`.
pub open spec fn xref_step(
    src: Seq<char>,
    origin: int) -> spec_fn(ElementSpanView,
    Pair,
) -> ElementSpanView {
    |base: ElementSpanView, sub: Pair|
        if sub.rule == Rule::Identifier {
            base.add_attribute("id"@, AttributeValueView::Ref(sub.text(src, origin)))
        } else {
            base
        }
}

/// `base` as the cross reference `element`: an attribute `id` for each
/// identifier directly inside it and, where words stand inside it, the words
/// with one space between them as the attribute `content`.
pub open spec fn spec_process_xref(
    src: Seq<char>,
    origin: int,
    element: Pair,
    base: ElementSpanView,
) -> ElementSpanView {
    let with_ids = fold(
        element.inner@,
        0,
        base.with_element(ElementView::XRef),
        xref_step(src, origin),
    );
    match spec_concat_elements(src, origin, element, Rule::Word, " "@) {
        Some(content) => with_ids.add_attribute("content"@, AttributeValueView::String(content)),
        None => with_ids,
    }
}

/// Makes `base` the cross reference `element`.
pub fn process_xref<'a>(
    src: &'a str,
    origin: usize,
    element: &Pair,
    base: ElementSpan<'a>,
) -> (r: ElementSpan<'a>)
    requires
        element.within(src@, origin as int),
    ensures
        r@ == spec_process_xref(src@, origin as int, *element, base@),
{
    let mut base = base;
    base.element = Element::XRef;
    let ghost first = base@;
    let mut i: usize = 0;
    proof {
        lemma_within(*element, src@, origin as int);
    }
    while i < element.inner.len()
        invariant
            i <= element.inner@.len(),
            forall|k: int|
                0 <= k < element.inner@.len()
                    ==> (#[trigger] element.inner@[k]).within(src@, origin as int),
            fold(element.inner@, i as int, base@, xref_step(src@, origin as int)) == fold(
                element.inner@,
                0,
                first,
                xref_step(src@, origin as int),
            ),
        decreases element.inner@.len() - i,
    {
        let sub = &element.inner[i];
        proof {
            lemma_within(*sub, src@, origin as int);
        }
        if sub.rule == Rule::Identifier {
            base.add_attribute("id", AttributeValue::Ref(sub.as_str(src, origin)));
        }
        i = i + 1;
    }
    match concat_elements(src, origin, element, Rule::Word, " ") {
        Some(content) => {
            base.add_attribute("content", AttributeValue::String(content));
        },
        None => {},
    }
    base
}

/// Takes in one part of an inline element.
pub open spec fn inline_step(
    src: Seq<char>,
    origin: int) -> spec_fn(ElementSpanView,
    Pair,
) -> ElementSpanView {
    |base: ElementSpanView, sub: Pair|
        if sub.rule == Rule::Link {
            spec_process_link(src, origin, sub, base)
        } else if sub.rule == Rule::Xref {
            spec_process_xref(src, origin, sub, base)
        } else if sub.rule == Rule::Monospaced {
            spec_process_anchor(src, origin, sub, spec_style(src, origin, sub, base, "monospaced"@))
        } else if sub.rule == Rule::Strong {
            spec_style(src, origin, sub, base, "strong"@)
        } else if sub.rule == Rule::Emphasized {
            spec_style(src, origin, sub, base, "em"@)
        } else {
            base
        }
}

/// `base` as the inline element `element`: a link, a cross reference, or
/// text in one of the styles `monospaced`, `strong` and `em`. Monospaced text
/// also takes the anchors that stand directly inside it.
pub open spec fn spec_process_inline(
    src: Seq<char>,
    origin: int,
    element: Pair,
    base: ElementSpanView,
) -> ElementSpanView {
    fold(element.inner@, 0, base, inline_step(src, origin))
}

/// Makes `base` the inline element `element`.
pub fn process_inline<'a>(
    src: &'a str,
    origin: usize,
    element: &Pair,
    base: ElementSpan<'a>,
) -> (r: ElementSpan<'a>)
    requires
        element.within(src@, origin as int),
    ensures
        r@ == spec_process_inline(src@, origin as int, *element, base@),
{
    let mut base = base;
    let ghost first = base@;
    let mut i: usize = 0;
    proof {
        lemma_within(*element, src@, origin as int);
    }
    while i < element.inner.len()
        invariant
            i <= element.inner@.len(),
            forall|k: int|
                0 <= k < element.inner@.len()
                    ==> (#[trigger] element.inner@[k]).within(src@, origin as int),
            fold(element.inner@, i as int, base@, inline_step(src@, origin as int)) == fold(
                element.inner@,
                0,
                first,
                inline_step(src@, origin as int),
            ),
        decreases element.inner@.len() - i,
    {
        let sub = &element.inner[i];
        if sub.rule == Rule::Link {
            base = process_link(src, origin, sub, base);
        } else if sub.rule == Rule::Xref {
            base = process_xref(src, origin, sub, base);
        } else if sub.rule == Rule::Monospaced {
            base = style(src, origin, sub, base, "monospaced");
            base = process_anchor(src, origin, sub, base);
        } else if sub.rule == Rule::Strong {
            base = style(src, origin, sub, base, "strong");
        } else if sub.rule == Rule::Emphasized {
            base = style(src, origin, sub, base, "em");
        }
        i = i + 1;
    }
    base
}

/// Adds one part of a paragraph as a child: plain text as text, an inline
/// element as what it is, anything else as an error node.
pub open spec fn paragraph_step(
    src: Seq<char>,
    origin: int) -> spec_fn(ElementSpanView,
    Pair,
) -> ElementSpanView {
    |base: ElementSpanView, sub: Pair|
        if sub.rule == Rule::OtherInline || sub.rule == Rule::OtherListInline {
            base.add_child(spec_from_element(src, origin, sub, ElementView::Text))
        } else if sub.rule == Rule::Inline {
            base.add_child(spec_process_inline(src, origin, sub, spec_set_span(src, origin, sub)))
        } else {
            base.add_child(spec_set_span(src, origin, sub))
        }
}

/// The paragraph `element`, with one child for each of its parts.
pub open spec fn spec_process_paragraph(
    src: Seq<char>,
    origin: int,
    element: Pair,
) -> ElementSpanView {
    fold(
        element.inner@,
        0,
        spec_from_element(src, origin, element, ElementView::Paragraph),
        paragraph_step(src, origin),
    )
}

/// Makes the paragraph `element`.
pub fn process_paragraph<'a>(src: &'a str, origin: usize, element: &Pair) -> (r: ElementSpan<'a>)
    requires
        element.within(src@, origin as int),
    ensures
        r@ == spec_process_paragraph(src@, origin as int, *element),
{
    proof {
        lemma_within(*element, src@, origin as int);
    }
    let mut base = from_element(src, origin, element, Element::Paragraph);
    let ghost first = base@;
    let mut i: usize = 0;
    while i < element.inner.len()
        invariant
            i <= element.inner@.len(),
            forall|k: int|
                0 <= k < element.inner@.len()
                    ==> (#[trigger] element.inner@[k]).within(src@, origin as int),
            fold(element.inner@, i as int, base@, paragraph_step(src@, origin as int)) == fold(
                element.inner@,
                0,
                first,
                paragraph_step(src@, origin as int),
            ),
        decreases element.inner@.len() - i,
    {
        let sub = &element.inner[i];
        proof {
            lemma_within(*sub, src@, origin as int);
        }
        if sub.rule == Rule::OtherInline || sub.rule == Rule::OtherListInline {
            base.add_child(from_element(src, origin, sub, Element::Text));
        } else if sub.rule == Rule::Inline {
            let child = process_inline(src, origin, sub, set_span(src, origin, sub));
            base.add_child(child);
        } else {
            base.add_child(set_span(src, origin, sub));
        }
        i = i + 1;
    }
    base
}

} // verus!
