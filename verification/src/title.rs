//! Titles: a line of text with its level.

use vstd::prelude::*;
use vstd::string::*;
use crate::ast::{
    AttributeValue,
    AttributeValueView,
    Element,
    ElementSpan,
    ElementSpanView,
    ElementView,
};
use crate::cst::{lemma_within, Pair, Rule};
use crate::fold::fold_while;
use crate::text::{marker_length, measure_marker};

verus! {

/// The level that the underline of a title stands for, by its first
/// character; none for another character, or for no character at all.
pub open spec fn setext_level(underline: Seq<char>) -> Option<u32> {
    if underline.len() == 0 {
        None
    } else if underline[0] == '=' {
        Some(1)
    } else if underline[0] == '-' {
        Some(2)
    } else if underline[0] == '~' {
        Some(3)
    } else if underline[0] == '^' {
        Some(4)
    } else {
        None
    }
}

/// The level that the underline of a title stands for.
pub fn level_of_underline(underline: &str) -> (r: Option<u32>)
    ensures
        r == setext_level(underline@),
{
    if underline.is_empty() {
        return None;
    }
    let ch = underline.get_char(0);
    if ch == '=' {
        Some(1)
    } else if ch == '-' {
        Some(2)
    } else if ch == '~' {
        Some(3)
    } else if ch == '^' {
        Some(4)
    } else {
        None
    }
}

/// What an error node says of a title with an underline that stands for no
/// level.
pub open spec fn unsupported_title() -> Seq<char> {
    "Unsupported title formatting"@
}

/// Takes in one part of a title, and says whether the parts after it count.
pub open spec fn title_step(src: Seq<char>, origin: int) -> spec_fn(ElementSpanView, Pair) -> (
    ElementSpanView,
    bool,
) {
    |base: ElementSpanView, sub: Pair|
        if sub.rule == Rule::AtxTitleStyle {
            (base.with_element(ElementView::Title { level: marker_length(sub.text(src, origin)) }), true)
        } else if sub.rule == Rule::SetextTitleStyle {
            match setext_level(sub.text(src, origin)) {
                Some(level) => (base.with_element(ElementView::Title { level }), true),
                None => (base.with_element(ElementView::Error(unsupported_title())), false),
            }
        } else if sub.rule == Rule::Line {
            (base.add_attribute("name"@, AttributeValueView::Ref(sub.text(src, origin))), true)
        } else {
            (base, false)
        }
}

/// `base` as the title `element`. Its parts are taken in the order of the
/// text, up to the first that is none of these: a run of markers before the
/// title makes `base` a title of the level that is the run's trimmed length;
/// an underline makes it a title of the level that the underline's first
/// character stands for, or, where it stands for none, an error node, and
/// ends the title; a line becomes the attribute `name`. A node that is no
/// title leaves `base` as it is.
pub open spec fn spec_process_title(
    src: Seq<char>,
    origin: int,
    element: Pair,
    base: ElementSpanView,
) -> ElementSpanView {
    if element.rule == Rule::Title {
        fold_while(element.inner@, 0, base, title_step(src, origin))
    } else {
        base
    }
}

/// Makes `base` the title `element`. There is always a result.
pub fn process_title<'a>(
    src: &'a str,
    origin: usize,
    element: &Pair,
    base: ElementSpan<'a>,
) -> (r: Option<ElementSpan<'a>>)
    requires
        element.within(src@, origin as int),
    ensures
        r is Some,
        r.unwrap()@ == spec_process_title(src@, origin as int, *element, base@),
{
    Some(entitle(src, origin, element, base))
}

/// Makes `base` the title `element`.
pub fn entitle<'a>(
    src: &'a str,
    origin: usize,
    element: &Pair,
    base: ElementSpan<'a>,
) -> (r: ElementSpan<'a>)
    requires
        element.within(src@, origin as int),
    ensures
        r@ == spec_process_title(src@, origin as int, *element, base@),
{
    let mut base = base;
    if element.rule != Rule::Title {
        return base;
    }
    let ghost first = base@;
    let mut i: usize = 0;
    let mut done = false;
    proof {
        lemma_within(*element, src@, origin as int);
    }
    while i < element.inner.len() && !done
        invariant
            i <= element.inner@.len(),
            forall|k: int|
                0 <= k < element.inner@.len()
                    ==> (#[trigger] element.inner@[k]).within(src@, origin as int),
            !done ==> fold_while(element.inner@, i as int, base@, title_step(src@, origin as int)) == fold_while(
                element.inner@,
                0,
                first,
                title_step(src@, origin as int),
            ),
            done ==> base@ == fold_while(element.inner@, 0, first, title_step(src@, origin as int)),
        decreases element.inner@.len() - i, (if done { 0int } else { 1int }),
    {
        let sub = &element.inner[i];
        proof {
            lemma_within(*sub, src@, origin as int);
        }
        if sub.rule == Rule::AtxTitleStyle {
            base.element = Element::Title { level: measure_marker(sub.as_str(src, origin)) };
            i = i + 1;
        } else if sub.rule == Rule::SetextTitleStyle {
            match level_of_underline(sub.as_str(src, origin)) {
                Some(level) => {
                    base.element = Element::Title { level };
                    i = i + 1;
                },
                None => {
                    base.element = Element::Error(String::from_str("Unsupported title formatting"));
                    done = true;
                },
            }
        } else if sub.rule == Rule::Line {
            base.add_attribute("name", AttributeValue::Ref(sub.as_str(src, origin)));
            i = i + 1;
        } else {
            done = true;
        }
    }
    base
}

} // verus!
