//! Anchors, block titles and attribute lists: what stands before a block or
//! after an inline element and is kept as attributes of its node.

use vstd::prelude::*;
use vstd::string::*;
use crate::ast::{
    AttributeValue,
    AttributeValueView,
    Element,
    ElementSpan,
    ElementSpanView,
    ElementView,
};
use crate::cst::{lemma_within, Pair, Rule};
use crate::fold::fold;

verus! {

/// Adds the text of an identifier as the attribute `anchor`.
pub open spec fn inline_anchor_step(
    src: Seq<char>,
    origin: int) -> spec_fn(ElementSpanView,
    Pair,
) -> ElementSpanView {
    |base: ElementSpanView, sub: Pair|
        if sub.rule == Rule::Identifier {
            base.add_attribute("anchor"@, AttributeValueView::Ref(sub.text(src, origin)))
        } else {
            base
        }
}

/// `base` with an attribute `anchor` for each identifier directly inside the
/// inline anchor `element`.
pub open spec fn spec_process_inline_anchor(
    src: Seq<char>,
    origin: int,
    element: Pair,
    base: ElementSpanView,
) -> ElementSpanView {
    fold(element.inner@, 0, base, inline_anchor_step(src, origin))
}

/// Gives `base` an attribute `anchor` for each identifier directly inside the
/// inline anchor `element`.
pub fn process_inline_anchor<'a>(
    src: &'a str,
    origin: usize,
    element: &Pair,
    base: ElementSpan<'a>,
) -> (r: ElementSpan<'a>)
    requires
        element.within(src@, origin as int),
    ensures
        r@ == spec_process_inline_anchor(src@, origin as int, *element, base@),
{
    let mut base = base;
    let ghost first = base@;
    let mut i: usize = 0;
    proof {
        lemma_within(*element, src@, origin as int);
    }
    while i < element.inner.len()
        invariant
            i <= element.inner@.len(),
            forall|k: int|
                0 <= k < element.inner@.len()
                    ==> (#[trigger] element.inner@[k]).within(src@, origin as int),
            fold(element.inner@, i as int, base@, inline_anchor_step(src@, origin as int)) == fold(
                element.inner@,
                0,
                first,
                inline_anchor_step(src@, origin as int),
            ),
        decreases element.inner@.len() - i,
    {
        let sub = &element.inner[i];
        proof {
            lemma_within(*sub, src@, origin as int);
        }
        if sub.rule == Rule::Identifier {
            base.add_attribute("anchor", AttributeValue::Ref(sub.as_str(src, origin)));
        }
        i = i + 1;
    }
    base
}

/// Takes in the inline anchors directly inside an anchor.
pub open spec fn anchor_step(
    src: Seq<char>,
    origin: int) -> spec_fn(ElementSpanView,
    Pair,
) -> ElementSpanView {
    |base: ElementSpanView, sub: Pair|
        if sub.rule == Rule::InlineAnchor {
            spec_process_inline_anchor(src, origin, sub, base)
        } else {
            base
        }
}

/// `base` with the attributes of each inline anchor directly inside the anchor
/// `element`.
pub open spec fn spec_process_anchor(
    src: Seq<char>,
    origin: int,
    element: Pair,
    base: ElementSpanView,
) -> ElementSpanView {
    fold(element.inner@, 0, base, anchor_step(src, origin))
}

/// Gives `base` the attributes of each inline anchor directly inside the
/// anchor `element`.
pub fn process_anchor<'a>(
    src: &'a str,
    origin: usize,
    element: &Pair,
    base: ElementSpan<'a>,
) -> (r: ElementSpan<'a>)
    requires
        element.within(src@, origin as int),
    ensures
        r@ == spec_process_anchor(src@, origin as int, *element, base@),
{
    let mut base = base;
    let ghost first = base@;
    let mut i: usize = 0;
    proof {
        lemma_within(*element, src@, origin as int);
    }
    while i < element.inner.len()
        invariant
            i <= element.inner@.len(),
            forall|k: int|
                0 <= k < element.inner@.len()
                    ==> (#[trigger] element.inner@[k]).within(src@, origin as int),
            fold(element.inner@, i as int, base@, anchor_step(src@, origin as int)) == fold(
                element.inner@,
                0,
                first,
                anchor_step(src@, origin as int),
            ),
        decreases element.inner@.len() - i,
    {
        let sub = &element.inner[i];
        if sub.rule == Rule::InlineAnchor {
            base = process_inline_anchor(src, origin, sub, base);
        }
        i = i + 1;
    }
    base
}

/// Adds the text of a line as the attribute `title`.
pub open spec fn blocktitle_step(
    src: Seq<char>,
    origin: int) -> spec_fn(ElementSpanView,
    Pair,
) -> ElementSpanView {
    |base: ElementSpanView, sub: Pair|
        if sub.rule == Rule::Line {
            base.add_attribute("title"@, AttributeValueView::Ref(sub.text(src, origin)))
        } else {
            base
        }
}

/// `base` with an attribute `title` for each line directly inside the block
/// title `element`.
pub open spec fn spec_process_blocktitle(
    src: Seq<char>,
    origin: int,
    element: Pair,
    base: ElementSpanView,
) -> ElementSpanView {
    fold(element.inner@, 0, base, blocktitle_step(src, origin))
}

/// Gives `base` an attribute `title` for each line directly inside the block
/// title `element`.
pub fn process_blocktitle<'a>(
    src: &'a str,
    origin: usize,
    element: &Pair,
    base: ElementSpan<'a>,
) -> (r: ElementSpan<'a>)
    requires
        element.within(src@, origin as int),
    ensures
        r@ == spec_process_blocktitle(src@, origin as int, *element, base@),
{
    let mut base = base;
    let ghost first = base@;
    let mut i: usize = 0;
    proof {
        lemma_within(*element, src@, origin as int);
    }
    while i < element.inner.len()
        invariant
            i <= element.inner@.len(),
            forall|k: int|
                0 <= k < element.inner@.len()
                    ==> (#[trigger] element.inner@[k]).within(src@, origin as int),
            fold(element.inner@, i as int, base@, blocktitle_step(src@, origin as int)) == fold(
                element.inner@,
                0,
                first,
                blocktitle_step(src@, origin as int),
            ),
        decreases element.inner@.len() - i,
    {
        let sub = &element.inner[i];
        proof {
            lemma_within(*sub, src@, origin as int);
        }
        if sub.rule == Rule::Line {
            base.add_attribute("title", AttributeValue::Ref(sub.as_str(src, origin)));
        }
        i = i + 1;
    }
    base
}

/// Appends the text of a node.
pub open spec fn concat_step(src: Seq<char>, origin: int) -> spec_fn(Seq<char>, Pair) -> Seq<char> {
    |acc: Seq<char>, sub: Pair| acc + sub.text(src, origin)
}

/// The texts of `items`, one after another.
pub open spec fn spec_concat(src: Seq<char>, origin: int, items: Seq<Pair>) -> Seq<char> {
    fold(items, 0, Seq::<char>::empty(), concat_step(src, origin))
}

/// Puts the texts of `items` one after another.
pub fn concat(src: &str, origin: usize, items: &Vec<Pair>) -> (r: String)
    requires
        forall|k: int| 0 <= k < items@.len() ==> (#[trigger] items@[k]).within(src@, origin as int),
    ensures
        r@ == spec_concat(src@, origin as int, items@),
{
    let mut out = String::new();
    let mut i: usize = 0;
    while i < items.len()
        invariant
            i <= items@.len(),
            forall|k: int| 0 <= k < items@.len() ==> (#[trigger] items@[k]).within(src@, origin as int),
            fold(items@, i as int, out@, concat_step(src@, origin as int))
                == spec_concat(src@, origin as int, items@),
        decreases items@.len() - i,
    {
        proof {
            lemma_within(items@[i as int], src@, origin as int);
        }
        out.append(items[i].as_str(src, origin));
        i = i + 1;
    }
    out
}

/// Keeps the text of the last identifier.
pub open spec fn key_step(
    src: Seq<char>,
    origin: int) -> spec_fn(Option<Seq<char>>,
    Pair,
) -> Option<Seq<char>> {
    |acc: Option<Seq<char>>, sub: Pair|
        if sub.rule == Rule::Identifier {
            Some(sub.text(src, origin))
        } else {
            acc
        }
}

/// Keeps the texts inside the last attribute value, one after another.
pub open spec fn value_step(
    src: Seq<char>,
    origin: int) -> spec_fn(Option<Seq<char>>,
    Pair,
) -> Option<Seq<char>> {
    |acc: Option<Seq<char>>, sub: Pair|
        if sub.rule == Rule::AttributeValue {
            Some(spec_concat(src, origin, sub.inner@))
        } else {
            acc
        }
}

/// What an error node says of a named attribute that lacks its name or its
/// value.
pub open spec fn incomplete_attribute() -> Seq<char> {
    "Incomplete named attribute"@
}

/// `base` with the named attribute `element`: its key is the text of the
/// identifier directly inside `element`, its value what stands inside the
/// attribute value directly inside `element` (of several, the last counts).
/// Where either is missing, `base` becomes an error node and gets no attribute.
pub open spec fn spec_process_named_attribute(
    src: Seq<char>,
    origin: int,
    element: Pair,
    base: ElementSpanView,
) -> ElementSpanView {
    let key = fold(element.inner@, 0, None, key_step(src, origin));
    let value = fold(element.inner@, 0, None, value_step(src, origin));
    if key is Some && value is Some {
        base.add_attribute(key.unwrap(), AttributeValueView::String(value.unwrap()))
    } else {
        base.with_element(ElementView::Error(incomplete_attribute()))
    }
}

/// Gives `base` the named attribute `element`, or makes it an error node
/// where `element` lacks the name or the value.
pub fn process_named_attribute<'a>(
    src: &'a str,
    origin: usize,
    element: &Pair,
    base: ElementSpan<'a>,
) -> (r: ElementSpan<'a>)
    requires
        element.within(src@, origin as int),
    ensures
        r@ == spec_process_named_attribute(src@, origin as int, *element, base@),
{
    let mut base = base;
    let mut key: Option<&'a str> = None;
    let mut value: Option<String> = None;
    let ghost mut key_view: Option<Seq<char>> = None;
    let ghost mut value_view: Option<Seq<char>> = None;
    let mut i: usize = 0;
    proof {
        lemma_within(*element, src@, origin as int);
    }
    while i < element.inner.len()
        invariant
            i <= element.inner@.len(),
            forall|k: int|
                0 <= k < element.inner@.len()
                    ==> (#[trigger] element.inner@[k]).within(src@, origin as int),
            key is Some <==> key_view is Some,
            key is Some ==> key.unwrap()@ == key_view.unwrap(),
            value is Some <==> value_view is Some,
            value is Some ==> value.unwrap()@ == value_view.unwrap(),
            fold(element.inner@, i as int, key_view, key_step(src@, origin as int)) == fold(
                element.inner@,
                0,
                None,
                key_step(src@, origin as int),
            ),
            fold(element.inner@, i as int, value_view, value_step(src@, origin as int)) == fold(
                element.inner@,
                0,
                None,
                value_step(src@, origin as int),
            ),
        decreases element.inner@.len() - i,
    {
        let sub = &element.inner[i];
        proof {
            lemma_within(*sub, src@, origin as int);
        }
        if sub.rule == Rule::Identifier {
            key = Some(sub.as_str(src, origin));
            proof {
                key_view = Some(sub.text(src@, origin as int));
            }
        } else if sub.rule == Rule::AttributeValue {
            value = Some(concat(src, origin, &sub.inner));
            proof {
                value_view = Some(spec_concat(src@, origin as int, sub.inner@));
            }
        }
        i = i + 1;
    }
    match (key, value) {
        (Some(k), Some(v)) => {
            base.add_attribute(k, AttributeValue::String(v));
        },
        _ => {
            base.element = Element::Error(String::from_str("Incomplete named attribute"));
        },
    }
    base
}

/// Takes in one entry of an attribute list: a bare value becomes a positional
/// attribute, a named attribute an attribute.
pub open spec fn attribute_step(
    src: Seq<char>,
    origin: int) -> spec_fn(ElementSpanView,
    Pair,
) -> ElementSpanView {
    |base: ElementSpanView, sub: Pair|
        if sub.rule == Rule::AttributeValue {
            base.add_positional(AttributeValueView::Ref(sub.text(src, origin)))
        } else if sub.rule == Rule::NamedAttribute {
            spec_process_named_attribute(src, origin, sub, base)
        } else {
            base
        }
}

/// Takes in the entries of one attribute of an attribute list.
pub open spec fn inline_attribute_list_step(src: Seq<char>, origin: int) -> spec_fn(
    ElementSpanView,
    Pair,
) -> ElementSpanView {
    |base: ElementSpanView, sub: Pair|
        if sub.rule == Rule::Attribute {
            fold(sub.inner@, 0, base, attribute_step(src, origin))
        } else {
            base
        }
}

/// `base` with what the attribute list `element` holds, in the order of the
/// text: each bare value as a positional attribute, each named attribute as an
/// attribute.
pub open spec fn spec_process_inline_attribute_list(
    src: Seq<char>,
    origin: int,
    element: Pair,
    base: ElementSpanView,
) -> ElementSpanView {
    fold(element.inner@, 0, base, inline_attribute_list_step(src, origin))
}

/// Gives `base` the entries of one attribute of an attribute list.
pub fn process_attribute<'a>(
    src: &'a str,
    origin: usize,
    element: &Pair,
    base: ElementSpan<'a>,
) -> (r: ElementSpan<'a>)
    requires
        element.within(src@, origin as int),
    ensures
        r@ == fold(element.inner@, 0, base@, attribute_step(src@, origin as int)),
{
    let mut base = base;
    let ghost first = base@;
    let mut i: usize = 0;
    proof {
        lemma_within(*element, src@, origin as int);
    }
    while i < element.inner.len()
        invariant
            i <= element.inner@.len(),
            forall|k: int|
                0 <= k < element.inner@.len()
                    ==> (#[trigger] element.inner@[k]).within(src@, origin as int),
            fold(element.inner@, i as int, base@, attribute_step(src@, origin as int)) == fold(
                element.inner@,
                0,
                first,
                attribute_step(src@, origin as int),
            ),
        decreases element.inner@.len() - i,
    {
        let sub = &element.inner[i];
        proof {
            lemma_within(*sub, src@, origin as int);
        }
        if sub.rule == Rule::AttributeValue {
            base.add_positional(AttributeValue::Ref(sub.as_str(src, origin)));
        } else if sub.rule == Rule::NamedAttribute {
            base = process_named_attribute(src, origin, sub, base);
        }
        i = i + 1;
    }
    base
}

/// Gives `base` what the attribute list `element` holds.
pub fn process_inline_attribute_list<'a>(
    src: &'a str,
    origin: usize,
    element: &Pair,
    base: ElementSpan<'a>,
) -> (r: ElementSpan<'a>)
    requires
        element.within(src@, origin as int),
    ensures
        r@ == spec_process_inline_attribute_list(src@, origin as int, *element, base@),
{
    let mut base = base;
    let ghost first = base@;
    let mut i: usize = 0;
    proof {
        lemma_within(*element, src@, origin as int);
    }
    while i < element.inner.len()
        invariant
            i <= element.inner@.len(),
            forall|k: int|
                0 <= k < element.inner@.len()
                    ==> (#[trigger] element.inner@[k]).within(src@, origin as int),
            fold(element.inner@, i as int, base@, inline_attribute_list_step(src@, origin as int))
                == fold(
                element.inner@,
                0,
                first,
                inline_attribute_list_step(src@, origin as int),
            ),
        decreases element.inner@.len() - i,
    {
        let sub = &element.inner[i];
        if sub.rule == Rule::Attribute {
            base = process_attribute(src, origin, sub, base);
        }
        i = i + 1;
    }
    base
}

/// Takes in the inline attribute lists directly inside an attribute list.
pub open spec fn attribute_list_step(
    src: Seq<char>,
    origin: int) -> spec_fn(ElementSpanView,
    Pair,
) -> ElementSpanView {
    |base: ElementSpanView, sub: Pair|
        if sub.rule == Rule::InlineAttributeList {
            spec_process_inline_attribute_list(src, origin, sub, base)
        } else {
            base
        }
}

/// `base` with what each inline attribute list directly inside the block's
/// attribute list `element` holds.
pub open spec fn spec_process_attribute_list(
    src: Seq<char>,
    origin: int,
    element: Pair,
    base: ElementSpanView,
) -> ElementSpanView {
    fold(element.inner@, 0, base, attribute_list_step(src, origin))
}

/// Gives `base` what each inline attribute list directly inside the block's
/// attribute list `element` holds.
pub fn process_attribute_list<'a>(
    src: &'a str,
    origin: usize,
    element: &Pair,
    base: ElementSpan<'a>,
) -> (r: ElementSpan<'a>)
    requires
        element.within(src@, origin as int),
    ensures
        r@ == spec_process_attribute_list(src@, origin as int, *element, base@),
{
    let mut base = base;
    let ghost first = base@;
    let mut i: usize = 0;
    proof {
        lemma_within(*element, src@, origin as int);
    }
    while i < element.inner.len()
        invariant
            i <= element.inner@.len(),
            forall|k: int|
                0 <= k < element.inner@.len()
                    ==> (#[trigger] element.inner@[k]).within(src@, origin as int),
            fold(element.inner@, i as int, base@, attribute_list_step(src@, origin as int)) == fold(
                element.inner@,
                0,
                first,
                attribute_list_step(src@, origin as int),
            ),
        decreases element.inner@.len() - i,
    {
        let sub = &element.inner[i];
        if sub.rule == Rule::InlineAttributeList {
            base = process_inline_attribute_list(src, origin, sub, base);
        }
        i = i + 1;
    }
    base
}

} // verus!
