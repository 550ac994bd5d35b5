//! Images: where the picture is, and for an inline image what its file holds.

use vstd::prelude::*;
use vstd::string::*;
use crate::ast::{
    lemma_span_views,
    span_views,
    AttributeValue,
    AttributeValueView,
    Element,
    ElementSpan,
    ElementSpanView,
    ElementView,
};
use crate::attributes::{process_inline_attribute_list, spec_process_inline_attribute_list};
use crate::cst::{all_within, lemma_within, Pair, Rule};
use crate::known::{span_result, Env, Halt, HaltView};
use crate::text::{option_text, same_text};

verus! {

/// Takes in one node of an image: an address or a path gives the attribute
/// `path`, an attribute list what it holds.
pub open spec fn image_step(
    src: Seq<char>,
    origin: int,
    sub: Pair,
    base: ElementSpanView,
) -> ElementSpanView {
    if sub.rule == Rule::Url || sub.rule == Rule::Path {
        base.add_attribute("path"@, AttributeValueView::Ref(sub.text(src, origin)))
    } else if sub.rule == Rule::InlineAttributeList {
        spec_process_inline_attribute_list(src, origin, sub, base)
    } else {
        base
    }
}

/// `base` after taking in the nodes of `items` from index `from` on, each
/// followed by all the nodes inside it, in the order of the text.
pub open spec fn spec_image_walk(
    src: Seq<char>,
    origin: int,
    items: Seq<Pair>,
    from: int,
    base: ElementSpanView,
) -> ElementSpanView
    decreases items, items.len() - from,
{
    if 0 <= from < items.len() {
        let here = image_step(src, origin, items[from], base);
        let below = spec_image_walk(src, origin, items[from].inner@, 0, here);
        spec_image_walk(src, origin, items, from + 1, below)
    } else {
        base
    }
}

/// The image `base` with the content of its file, where it asks for that. It
/// asks with the attribute `opts` set to `inline`, and names the file in its
/// attribute `path`. Where the file is known to hold something, that becomes
/// the attribute `content`; where it is known to be unreadable, or where no
/// path is given, the image stays as it is (and [`spec_image_diagnostic`]
/// says what is wrong); where nothing is known of the file, the file has to
/// be read first.
pub open spec fn spec_inline_image(base: ElementSpanView, env: Env) -> Result<
    ElementSpanView,
    HaltView,
> {
    if base.attribute("opts"@) == Some("inline"@) {
        match base.attribute("path"@) {
            Some(path) => match env.file(path) {
                None => Err(HaltView::Unread { path }),
                Some(Ok(content)) => Ok(
                    base.add_attribute("content"@, AttributeValueView::String(content)),
                ),
                Some(Err(_)) => Ok(base),
            },
            None => Ok(base),
        }
    } else {
        Ok(base)
    }
}

/// What is to be said of a node that asks for the content of its file and
/// does not get it: that it names no file, or that its file could not be
/// read, with the path and the reason. Of a node that does not ask, or that
/// got the content, there is nothing to say.
pub open spec fn spec_inline_diagnostic(node: ElementSpanView, env: Env) -> Option<Seq<char>> {
    if node.attribute("opts"@) == Some("inline"@) {
        match node.attribute("path"@) {
            None => Some("There was no path of inline image defined"@),
            Some(path) => match env.file(path) {
                Some(Err(reason)) => Some(
                    "couldn't read content of image file "@ + path + " ("@ + reason + ")"@,
                ),
                _ => None,
            },
        }
    } else {
        None
    }
}

/// What is to be said of an image that asks for the content of its file and
/// does not get it. Of any other node there is nothing to say.
pub open spec fn spec_image_diagnostic(node: ElementSpanView, env: Env) -> Option<Seq<char>> {
    if node.element is Image {
        spec_inline_diagnostic(node, env)
    } else {
        None
    }
}

/// What is to be said of the nodes `nodes`, from index `from` on, and of all
/// the nodes below them, in the order of the document.
pub open spec fn spec_diagnostics(
    nodes: Seq<ElementSpanView>,
    from: int,
    env: Env,
) -> Seq<Seq<char>>
    decreases nodes, nodes.len() - from,
{
    if 0 <= from < nodes.len() {
        let own = match spec_image_diagnostic(nodes[from], env) {
            Some(message) => seq![message],
            None => Seq::empty(),
        };
        own + spec_diagnostics(nodes[from].children, 0, env) + spec_diagnostics(
            nodes,
            from + 1,
            env,
        )
    } else {
        Seq::empty()
    }
}

/// The characters of each of `lines`.
pub open spec fn texts(lines: Seq<String>) -> Seq<Seq<char>> {
    Seq::new(lines.len(), |i: int| lines[i]@)
}

/// `base` as the image `element`: every address, path and attribute list at
/// any depth inside `element` is taken in, in the order of the text, and then
/// the file's content where the image is an inline image.
pub open spec fn spec_process_image(
    src: Seq<char>,
    origin: int,
    element: Pair,
    base: ElementSpanView,
    env: Env,
) -> Result<ElementSpanView, HaltView> {
    spec_inline_image(
        spec_image_walk(src, origin, element.inner@, 0, base.with_element(ElementView::Image)),
        env,
    )
}

/// Takes in the nodes of `items` and all the nodes inside them.
pub fn image_walk<'a>(
    src: &'a str,
    origin: usize,
    items: &Vec<Pair>,
    base: ElementSpan<'a>,
) -> (r: ElementSpan<'a>)
    requires
        all_within(items@, src@, origin as int),
    ensures
        r@ == spec_image_walk(src@, origin as int, items@, 0, base@),
    decreases items@,
{
    let mut base = base;
    let ghost first = base@;
    let mut i: usize = 0;
    while i < items.len()
        invariant
            i <= items@.len(),
            all_within(items@, src@, origin as int),
            spec_image_walk(src@, origin as int, items@, i as int, base@) == spec_image_walk(
                src@,
                origin as int,
                items@,
                0,
                first,
            ),
        decreases items@.len() - i,
    {
        let sub = &items[i];
        proof {
            lemma_within(*sub, src@, origin as int);
        }
        if sub.rule == Rule::Url || sub.rule == Rule::Path {
            base.add_attribute("path", AttributeValue::Ref(sub.as_str(src, origin)));
        } else if sub.rule == Rule::InlineAttributeList {
            base = process_inline_attribute_list(src, origin, sub, base);
        }
        base = image_walk(src, origin, &sub.inner, base);
        i = i + 1;
    }
    base
}

/// Gives the image `base` the content of its file, where it asks for it and
/// the content is known.
pub fn inline_image<'a>(base: ElementSpan<'a>, env: &Env) -> (r: Result<ElementSpan<'a>, Halt<'a>>)
    ensures
        span_result(r) == spec_inline_image(base@, *env),
{
    let mut base = base;
    let inline = match base.get_attribute("opts") {
        Some(value) => same_text(value, "inline"),
        None => false,
    };
    if !inline {
        return Ok(base);
    }
    let content = match base.get_attribute("path") {
        Some(path) => match env.read_to_string(path) {
            Some(Ok(content)) => Some(String::from_str(content)),
            Some(Err(_)) => None,
            None => {
                return Err(Halt::Unread { path: String::from_str(path) });
            },
        },
        None => None,
    };
    match content {
        Some(content) => {
            base.add_attribute("content", AttributeValue::String(content));
        },
        None => {},
    }
    Ok(base)
}

/// Makes `base` the image `element`.
pub fn process_image<'a>(
    src: &'a str,
    origin: usize,
    element: &Pair,
    base: ElementSpan<'a>,
    env: &Env,
) -> (r: Result<ElementSpan<'a>, Halt<'a>>)
    requires
        element.within(src@, origin as int),
    ensures
        span_result(r) == spec_process_image(src@, origin as int, *element, base@, *env),
{
    let mut base = base;
    base.element = Element::Image;
    proof {
        lemma_within(*element, src@, origin as int);
    }
    let base = image_walk(src, origin, &element.inner, base);
    inline_image(base, env)
}

/// Says what is wrong with a node that asks for the content of its file and
/// does not get it.
pub fn inline_diagnostic(node: &ElementSpan, env: &Env) -> (r: Option<String>)
    ensures
        option_text(r) == spec_inline_diagnostic(node@, *env),
{
    let inline = match node.get_attribute("opts") {
        Some(value) => same_text(value, "inline"),
        None => false,
    };
    if !inline {
        return None;
    }
    match node.get_attribute("path") {
        None => Some(String::from_str("There was no path of inline image defined")),
        Some(path) => match env.read_to_string(path) {
            Some(Err(reason)) => {
                let mut message = String::from_str("couldn't read content of image file ");
                message.append(path);
                message.append(" (");
                message.append(reason);
                message.append(")");
                Some(message)
            },
            _ => None,
        },
    }
}

/// Says what is wrong with an image that asks for the content of its file
/// and does not get it.
pub fn image_diagnostic(node: &ElementSpan, env: &Env) -> (r: Option<String>)
    ensures
        option_text(r) == spec_image_diagnostic(node@, *env),
{
    match node.element {
        Element::Image => inline_diagnostic(node, env),
        _ => None,
    }
}

/// Adds to `out` what is to be said of the nodes `nodes` and of all the nodes
/// below them, in the order of the document.
pub fn collect_diagnostics(nodes: &Vec<ElementSpan>, env: &Env, out: &mut Vec<String>)
    ensures
        texts(final(out)@) == texts(old(out)@) + spec_diagnostics(span_views(nodes@), 0, *env),
    decreases nodes@,
{
    let ghost before = texts(out@);
    let ghost views = span_views(nodes@);
    proof {
        lemma_span_views(nodes@);
    }
    let mut i: usize = 0;
    while i < nodes.len()
        invariant
            i <= nodes@.len(),
            views == span_views(nodes@),
            views.len() == nodes@.len(),
            forall|k: int| 0 <= k < nodes@.len() ==> (#[trigger] views[k]) == nodes@[k]@,
            texts(out@) + spec_diagnostics(views, i as int, *env) == before + spec_diagnostics(
                views,
                0,
                *env,
            ),
        decreases nodes@.len() - i,
    {
        let ghost so_far = texts(out@);
        match image_diagnostic(&nodes[i], env) {
            Some(message) => {
                out.push(message);
                assert(texts(out@) =~= so_far + seq![message@]);
            },
            None => {
                assert(texts(out@) =~= so_far + Seq::<Seq<char>>::empty());
            },
        }
        let ghost with_own = texts(out@);
        collect_diagnostics(&nodes[i].children, env, out);
        proof {
            let own = match spec_image_diagnostic(views[i as int], *env) {
                Some(message) => seq![message],
                None => Seq::empty(),
            };
            let below = spec_diagnostics(views[i as int].children, 0, *env);
            let rest = spec_diagnostics(views, i + 1, *env);
            assert(with_own == so_far + own);
            assert(texts(out@) == with_own + below);
            assert(spec_diagnostics(views, i as int, *env) == own + below + rest);
            assert(texts(out@) + rest =~= so_far + (own + below + rest));
        }
        i = i + 1;
    }
    assert(texts(out@) + Seq::<Seq<char>>::empty() =~= texts(out@));
}

/// What an image is before the content of its file is looked at: `base` as
/// an image, with every address, path and attribute list inside `element`
/// taken in.
pub open spec fn spec_collected_image(
    src: Seq<char>,
    origin: int,
    element: Pair,
    base: ElementSpanView,
) -> ElementSpanView {
    spec_image_walk(src, origin, element.inner@, 0, base.with_element(ElementView::Image))
}

/// An inline image that names no file, or whose file is known to be
/// unreadable, is read all the same: it stays as it was collected, nothing
/// is added to it, and there is one thing to say of it.
pub proof fn lemma_image_without_content(
    src: Seq<char>,
    origin: int,
    element: Pair,
    base: ElementSpanView,
    env: Env,
)
    requires
        spec_collected_image(src, origin, element, base).attribute("opts"@) == Some("inline"@),
        match spec_collected_image(src, origin, element, base).attribute("path"@) {
            Some(path) => env.file(path) is Some && env.file(path)->Some_0 is Err,
            None => true,
        },
    ensures
        spec_process_image(src, origin, element, base, env) == Ok::<ElementSpanView, HaltView>(
            spec_collected_image(src, origin, element, base),
        ),
        spec_inline_diagnostic(spec_collected_image(src, origin, element, base), env) is Some,
        spec_collected_image(src, origin, element, base).element is Image
            ==> spec_image_diagnostic(spec_collected_image(src, origin, element, base), env)
            is Some,
{
}

/// An inline image whose file is known differs from the image as it was
/// collected by one attribute at its end, the `content`.
pub proof fn lemma_image_with_content(
    src: Seq<char>,
    origin: int,
    element: Pair,
    base: ElementSpanView,
    env: Env,
    path: Seq<char>,
    content: Seq<char>,
)
    requires
        spec_collected_image(src, origin, element, base).attribute("opts"@) == Some("inline"@),
        spec_collected_image(src, origin, element, base).attribute("path"@) == Some(path),
        env.file(path) == Some(Ok::<Seq<char>, Seq<char>>(content)),
    ensures
        spec_process_image(src, origin, element, base, env) == Ok::<ElementSpanView, HaltView>(
            spec_collected_image(src, origin, element, base).add_attribute(
                "content"@,
                AttributeValueView::String(content),
            ),
        ),
{
}

} // verus!
