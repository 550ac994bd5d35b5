//! The reader is asked again and again, each time with more recorded of the
//! grammar and of the files. This module proves that this leads somewhere:
//! what the reader asks for is something that is not recorded yet, and once it
//! has given a document, or has found that there is none, more records change
//! nothing.

use vstd::prelude::*;
use crate::ast::{BlockType, ElementSpanView, ElementView, ListType};
use crate::cst::{Pair, Rule};
use crate::dispatch::{
    cell_span,
    default_cell_format,
    spec_delimited_part,
    spec_delimited_parts,
    spec_inner_part,
    spec_inner_parts,
    spec_last_element,
    spec_list_item,
    spec_list_item_part,
    spec_process_element,
    spec_process_table_cell,
    spec_push_elements,
    spec_push_inner_elements,
    spec_push_table_elements,
    spec_reparse,
    spec_row_cells,
    spec_table_element,
    spec_table_formats,
    spec_table_part,
    spec_table_parts,
};
use crate::element::{spec_node_at, spec_set_span};
use crate::image::{spec_image_walk, spec_inline_image};
use crate::known::{lemma_answer_stays, lemma_file_stays, AsciidocParser, Env, HaltView};
use crate::reader::{spec_elements, spec_parse, Opts};
use crate::table::{format_at, CellFormat};

verus! {

/// `later` holds the records of `earlier`, in their order, before any others.
pub open spec fn knows_more(later: AsciidocParser, earlier: AsciidocParser) -> bool {
    earlier.known().is_prefix_of(later.known())
}

/// `later` holds the records of `earlier`, in their order, before any others.
pub open spec fn holds_more(later: Env, earlier: Env) -> bool {
    earlier.files().is_prefix_of(later.files())
}

/// The reader stopped for good: more records will not lead it further.
pub open spec fn is_final(halt: HaltView) -> bool {
    halt is Syntax || halt is TooDeep
}

/// What `halt` asks for is not recorded in `parser` and `env`.
pub open spec fn is_missing(halt: HaltView, parser: AsciidocParser, env: Env) -> bool {
    match halt {
        HaltView::Unparsed { rule, text } => parser.answer(rule, text) is None,
        HaltView::Unread { path } => env.file(path) is None,
        _ => true,
    }
}

/// `before` is what the reader gave with `parser` and `env`, `after` what it
/// gave with more records. Where `before` asks for something, that is
/// missing in `parser` and `env`; where it asks for nothing, `after` is the
/// same.
pub open spec fn kept<T>(
    before: Result<T, HaltView>,
    after: Result<T, HaltView>,
    parser: AsciidocParser,
    env: Env,
) -> bool {
    match before {
        Ok(_) => after == before,
        Err(halt) => is_missing(halt, parser, env) && (is_final(halt) ==> after == before),
    }
}

/// The syntax nodes of a nested text: asked for only while they are missing,
/// and the same once they are recorded.
proof fn lemma_reparse(
    parser: AsciidocParser,
    later: AsciidocParser,
    env: Env,
    rule: Rule,
    text: Seq<char>,
    depth: nat,
)
    requires
        knows_more(later, parser),
    ensures
        kept(
            spec_reparse(parser, rule, text, depth),
            spec_reparse(later, rule, text, depth),
            parser,
            env,
        ),
{
    if parser.answer(rule, text) is Some {
        lemma_answer_stays(parser.known(), later.known(), rule, text, 0);
    }
}

/// The content of the file of an image: asked for only while it is missing,
/// and the same once it is recorded.
proof fn lemma_inline_image(base: ElementSpanView, env: Env, later: Env, parser: AsciidocParser)
    requires
        holds_more(later, env),
    ensures
        kept(spec_inline_image(base, env), spec_inline_image(base, later), parser, env),
{
    match base.attribute("path"@) {
        Some(path) => {
            if env.file(path) is Some {
                lemma_file_stays(env.files(), later.files(), path, 0);
            }
        },
        None => {},
    }
}

/// What a syntax node becomes: where the reader asks for something to make
/// it, that is missing; where it asks for nothing, more records give the same.
pub proof fn lemma_element(
    src: Seq<char>,
    origin: int,
    element: Pair,
    parser: AsciidocParser,
    env: Env,
    later: AsciidocParser,
    later_env: Env,
    depth: nat,
)
    requires
        knows_more(later, parser),
        holds_more(later_env, env),
    ensures
        kept(
            spec_process_element(src, origin, element, parser, env, depth),
            spec_process_element(src, origin, element, later, later_env, depth),
            parser,
            env,
        ),
    decreases depth, element, 1int,
{
    let base = spec_set_span(src, origin, element);
    match element.rule {
        Rule::DelimitedBlock => {
            lemma_delimited_parts(
                src,
                origin,
                element.inner@,
                0,
                base,
                parser,
                env,
                later,
                later_env,
                depth,
            );
        },
        Rule::List => {
            lemma_last_element(
                src,
                origin,
                element.inner@,
                0,
                base,
                parser,
                env,
                later,
                later_env,
                depth,
            );
        },
        Rule::Block => {
            lemma_last_element(
                src,
                origin,
                element.inner@,
                0,
                base,
                parser,
                env,
                later,
                later_env,
                depth,
            );
        },
        Rule::BulletList => {
            lemma_push_elements(
                src,
                origin,
                element.inner@,
                0,
                base.with_element(ElementView::List(ListType::Bullet)),
                parser,
                env,
                later,
                later_env,
                depth,
            );
        },
        Rule::NumberedList => {
            lemma_push_elements(
                src,
                origin,
                element.inner@,
                0,
                base.with_element(ElementView::List(ListType::Number)),
                parser,
                env,
                later,
                later_env,
                depth,
            );
        },
        Rule::BulletListElement => {
            lemma_list_item(
                src,
                origin,
                element.inner@,
                0,
                base,
                Rule::Bullet,
                parser,
                env,
                later,
                later_env,
                depth,
            );
        },
        Rule::NumberBulletListElement => {
            lemma_list_item(
                src,
                origin,
                element.inner@,
                0,
                base,
                Rule::NumberBullet,
                parser,
                env,
                later,
                later_env,
                depth,
            );
        },
        Rule::ImageBlock => {
            lemma_inline_image(
                spec_image_walk(
                    src,
                    origin,
                    element.inner@,
                    0,
                    base.with_element(ElementView::Image),
                ),
                env,
                later_env,
                parser,
            );
        },
        Rule::TableRow => {
            lemma_row_cells(
                src,
                origin,
                element.inner@,
                0,
                base.with_element(ElementView::TableRow),
                seq![default_cell_format()],
                parser,
                env,
                later,
                later_env,
                depth,
            );
        },
        Rule::TableCell => {
            lemma_table_cell(
                src,
                origin,
                element,
                base,
                default_cell_format(),
                parser,
                env,
                later,
                later_env,
                depth,
            );
        },
        _ => {},
    }
}

/// As [`lemma_element`], of the children that are added for syntax nodes.
proof fn lemma_push_elements(
    src: Seq<char>,
    origin: int,
    items: Seq<Pair>,
    from: int,
    base: ElementSpanView,
    parser: AsciidocParser,
    env: Env,
    later: AsciidocParser,
    later_env: Env,
    depth: nat,
)
    requires
        knows_more(later, parser),
        holds_more(later_env, env),
    ensures
        kept(
            spec_push_elements(src, origin, items, from, base, parser, env, depth),
            spec_push_elements(src, origin, items, from, base, later, later_env, depth),
            parser,
            env,
        ),
    decreases depth, items, items.len() - from,
{
    if 0 <= from < items.len() {
        lemma_element(src, origin, items[from], parser, env, later, later_env, depth);
        match spec_process_element(src, origin, items[from], parser, env, depth) {
            Err(_) => {},
            Ok(Some(child)) => {
                lemma_push_elements(
                    src,
                    origin,
                    items,
                    from + 1,
                    base.add_child(child),
                    parser,
                    env,
                    later,
                    later_env,
                    depth,
                );
            },
            Ok(None) => {
                lemma_push_elements(
                    src,
                    origin,
                    items,
                    from + 1,
                    base,
                    parser,
                    env,
                    later,
                    later_env,
                    depth,
                );
            },
        }
    }
}

/// As [`lemma_element`], of the last thing that a part of a list or of a block
/// becomes.
proof fn lemma_last_element(
    src: Seq<char>,
    origin: int,
    items: Seq<Pair>,
    from: int,
    base: ElementSpanView,
    parser: AsciidocParser,
    env: Env,
    later: AsciidocParser,
    later_env: Env,
    depth: nat,
)
    requires
        knows_more(later, parser),
        holds_more(later_env, env),
    ensures
        kept(
            spec_last_element(src, origin, items, from, base, parser, env, depth),
            spec_last_element(src, origin, items, from, base, later, later_env, depth),
            parser,
            env,
        ),
    decreases depth, items, items.len() - from,
{
    if 0 <= from < items.len() {
        lemma_element(src, origin, items[from], parser, env, later, later_env, depth);
        match spec_process_element(src, origin, items[from], parser, env, depth) {
            Err(_) => {},
            Ok(Some(last)) => {
                lemma_last_element(
                    src,
                    origin,
                    items,
                    from + 1,
                    last,
                    parser,
                    env,
                    later,
                    later_env,
                    depth,
                );
            },
            Ok(None) => {
                lemma_last_element(
                    src,
                    origin,
                    items,
                    from + 1,
                    base,
                    parser,
                    env,
                    later,
                    later_env,
                    depth,
                );
            },
        }
    }
}

/// As [`lemma_element`], of one part of a list item.
proof fn lemma_list_item_part(
    src: Seq<char>,
    origin: int,
    sub: Pair,
    base: ElementSpanView,
    marker: Rule,
    parser: AsciidocParser,
    env: Env,
    later: AsciidocParser,
    later_env: Env,
    depth: nat,
)
    requires
        knows_more(later, parser),
        holds_more(later_env, env),
    ensures
        kept(
            spec_list_item_part(src, origin, sub, base, marker, parser, env, depth),
            spec_list_item_part(src, origin, sub, base, marker, later, later_env, depth),
            parser,
            env,
        ),
    decreases depth, sub, 1int,
{
    if sub.rule != marker && sub.rule == Rule::ListElement {
        lemma_push_elements(src, origin, sub.inner@, 0, base, parser, env, later, later_env, depth);
    }
}

/// As [`lemma_element`], of the parts of a list item.
proof fn lemma_list_item(
    src: Seq<char>,
    origin: int,
    items: Seq<Pair>,
    from: int,
    base: ElementSpanView,
    marker: Rule,
    parser: AsciidocParser,
    env: Env,
    later: AsciidocParser,
    later_env: Env,
    depth: nat,
)
    requires
        knows_more(later, parser),
        holds_more(later_env, env),
    ensures
        kept(
            spec_list_item(src, origin, items, from, base, marker, parser, env, depth),
            spec_list_item(src, origin, items, from, base, marker, later, later_env, depth),
            parser,
            env,
        ),
    decreases depth, items, items.len() - from,
{
    if 0 <= from < items.len() {
        lemma_list_item_part(
            src,
            origin,
            items[from],
            base,
            marker,
            parser,
            env,
            later,
            later_env,
            depth,
        );
        match spec_list_item_part(src, origin, items[from], base, marker, parser, env, depth) {
            Err(_) => {},
            Ok(next) => {
                lemma_list_item(
                    src,
                    origin,
                    items,
                    from + 1,
                    next,
                    marker,
                    parser,
                    env,
                    later,
                    later_env,
                    depth,
                );
            },
        }
    }
}

/// As [`lemma_element`], of one part of a delimited block.
proof fn lemma_delimited_part(
    src: Seq<char>,
    origin: int,
    sub: Pair,
    base: ElementSpanView,
    parser: AsciidocParser,
    env: Env,
    later: AsciidocParser,
    later_env: Env,
    depth: nat,
)
    requires
        knows_more(later, parser),
        holds_more(later_env, env),
    ensures
        match spec_delimited_part(src, origin, sub, base, parser, env, depth) {
            None => spec_delimited_part(src, origin, sub, base, later, later_env, depth) is None,
            Some(part) => spec_delimited_part(src, origin, sub, base, later, later_env, depth) is Some
                && kept(
                part,
                spec_delimited_part(src, origin, sub, base, later, later_env, depth).unwrap(),
                parser,
                env,
            ),
        },
    decreases depth, sub, 1int,
{
    if sub.rule == Rule::DelimitedTable {
        let table = base.with_element(ElementView::Table);
        lemma_table_parts(
            src,
            origin,
            sub.inner@,
            0,
            table,
            spec_table_formats(table),
            parser,
            env,
            later,
            later_env,
            depth,
        );
    } else if sub.rule == Rule::DelimitedComment {
        lemma_inner_parts(
            src,
            origin,
            sub.inner@,
            0,
            base.with_element(ElementView::TypedBlock { kind: BlockType::Comment }),
            parser,
            env,
            later,
            later_env,
            depth,
        );
    } else if sub.rule == Rule::DelimitedSource || sub.rule == Rule::DelimitedLiteral {
        lemma_inner_parts(
            src,
            origin,
            sub.inner@,
            0,
            base.with_element(ElementView::TypedBlock { kind: BlockType::Listing }),
            parser,
            env,
            later,
            later_env,
            depth,
        );
    } else if sub.rule == Rule::DelimitedExample {
        lemma_inner_parts(
            src,
            origin,
            sub.inner@,
            0,
            base.with_element(ElementView::TypedBlock { kind: BlockType::Example }),
            parser,
            env,
            later,
            later_env,
            depth,
        );
    }
}

/// As [`lemma_element`], of the parts of a delimited block.
proof fn lemma_delimited_parts(
    src: Seq<char>,
    origin: int,
    items: Seq<Pair>,
    from: int,
    base: ElementSpanView,
    parser: AsciidocParser,
    env: Env,
    later: AsciidocParser,
    later_env: Env,
    depth: nat,
)
    requires
        knows_more(later, parser),
        holds_more(later_env, env),
    ensures
        kept(
            spec_delimited_parts(src, origin, items, from, base, parser, env, depth),
            spec_delimited_parts(src, origin, items, from, base, later, later_env, depth),
            parser,
            env,
        ),
    decreases depth, items, items.len() - from,
{
    if 0 <= from < items.len() {
        lemma_delimited_part(src, origin, items[from], base, parser, env, later, later_env, depth);
        match spec_delimited_part(src, origin, items[from], base, parser, env, depth) {
            None => {},
            Some(Err(_)) => {},
            Some(Ok(next)) => {
                lemma_delimited_parts(
                    src,
                    origin,
                    items,
                    from + 1,
                    next,
                    parser,
                    env,
                    later,
                    later_env,
                    depth,
                );
            },
        }
    }
}

/// As [`lemma_element`], of one part of the inside of a delimited block.
proof fn lemma_inner_part(
    src: Seq<char>,
    origin: int,
    sub: Pair,
    base: ElementSpanView,
    parser: AsciidocParser,
    env: Env,
    later: AsciidocParser,
    later_env: Env,
    depth: nat,
)
    requires
        knows_more(later, parser),
        holds_more(later_env, env),
    ensures
        kept(
            spec_inner_part(src, origin, sub, base, parser, env, depth),
            spec_inner_part(src, origin, sub, base, later, later_env, depth),
            parser,
            env,
        ),
    decreases depth, sub, 1int,
{
    let text = sub.text(src, origin);
    if sub.rule == Rule::DelimitedInner && base.element == (ElementView::TypedBlock {
        kind: BlockType::Example,
    }) {
        lemma_reparse(parser, later, env, Rule::Asciidoc, text, depth);
        match spec_reparse(parser, Rule::Asciidoc, text, depth) {
            Ok(roots) => {
                lemma_push_elements(
                    src,
                    origin + sub.start,
                    roots,
                    0,
                    base,
                    parser,
                    env,
                    later,
                    later_env,
                    (depth - 1) as nat,
                );
            },
            Err(_) => {},
        }
    }
}

/// As [`lemma_element`], of the parts of the inside of a delimited block.
proof fn lemma_inner_parts(
    src: Seq<char>,
    origin: int,
    items: Seq<Pair>,
    from: int,
    base: ElementSpanView,
    parser: AsciidocParser,
    env: Env,
    later: AsciidocParser,
    later_env: Env,
    depth: nat,
)
    requires
        knows_more(later, parser),
        holds_more(later_env, env),
    ensures
        kept(
            spec_inner_parts(src, origin, items, from, base, parser, env, depth),
            spec_inner_parts(src, origin, items, from, base, later, later_env, depth),
            parser,
            env,
        ),
    decreases depth, items, items.len() - from,
{
    if 0 <= from < items.len() {
        lemma_inner_part(src, origin, items[from], base, parser, env, later, later_env, depth);
        match spec_inner_part(src, origin, items[from], base, parser, env, depth) {
            Err(_) => {},
            Ok(next) => {
                lemma_inner_parts(
                    src,
                    origin,
                    items,
                    from + 1,
                    next,
                    parser,
                    env,
                    later,
                    later_env,
                    depth,
                );
            },
        }
    }
}

/// As [`lemma_element`], of a syntax node of a table.
proof fn lemma_table_element(
    src: Seq<char>,
    origin: int,
    sub: Pair,
    formats: Seq<CellFormat>,
    parser: AsciidocParser,
    env: Env,
    later: AsciidocParser,
    later_env: Env,
    depth: nat,
)
    requires
        knows_more(later, parser),
        holds_more(later_env, env),
    ensures
        kept(
            spec_table_element(src, origin, sub, formats, parser, env, depth),
            spec_table_element(src, origin, sub, formats, later, later_env, depth),
            parser,
            env,
        ),
    decreases depth, sub, 2int,
{
    if sub.rule == Rule::TableRow {
        lemma_row_cells(
            src,
            origin,
            sub.inner@,
            0,
            spec_set_span(src, origin, sub).with_element(ElementView::TableRow),
            formats,
            parser,
            env,
            later,
            later_env,
            depth,
        );
    } else {
        lemma_element(src, origin, sub, parser, env, later, later_env, depth);
    }
}

/// As [`lemma_element`], of the syntax nodes of a table.
proof fn lemma_push_table_elements(
    src: Seq<char>,
    origin: int,
    items: Seq<Pair>,
    from: int,
    base: ElementSpanView,
    formats: Seq<CellFormat>,
    parser: AsciidocParser,
    env: Env,
    later: AsciidocParser,
    later_env: Env,
    depth: nat,
)
    requires
        knows_more(later, parser),
        holds_more(later_env, env),
    ensures
        kept(
            spec_push_table_elements(src, origin, items, from, base, formats, parser, env, depth),
            spec_push_table_elements(
                src,
                origin,
                items,
                from,
                base,
                formats,
                later,
                later_env,
                depth,
            ),
            parser,
            env,
        ),
    decreases depth, items, items.len() - from,
{
    if 0 <= from < items.len() {
        lemma_table_element(
            src,
            origin,
            items[from],
            formats,
            parser,
            env,
            later,
            later_env,
            depth,
        );
        match spec_table_element(src, origin, items[from], formats, parser, env, depth) {
            Err(_) => {},
            Ok(Some(child)) => {
                lemma_push_table_elements(
                    src,
                    origin,
                    items,
                    from + 1,
                    base.add_child(child),
                    formats,
                    parser,
                    env,
                    later,
                    later_env,
                    depth,
                );
            },
            Ok(None) => {
                lemma_push_table_elements(
                    src,
                    origin,
                    items,
                    from + 1,
                    base,
                    formats,
                    parser,
                    env,
                    later,
                    later_env,
                    depth,
                );
            },
        }
    }
}

/// As [`lemma_element`], of the rows and cells of a table body.
proof fn lemma_push_inner_elements(
    src: Seq<char>,
    origin: int,
    roots: Seq<Pair>,
    from: int,
    base: ElementSpanView,
    formats: Seq<CellFormat>,
    parser: AsciidocParser,
    env: Env,
    later: AsciidocParser,
    later_env: Env,
    depth: nat,
)
    requires
        knows_more(later, parser),
        holds_more(later_env, env),
    ensures
        kept(
            spec_push_inner_elements(src, origin, roots, from, base, formats, parser, env, depth),
            spec_push_inner_elements(
                src,
                origin,
                roots,
                from,
                base,
                formats,
                later,
                later_env,
                depth,
            ),
            parser,
            env,
        ),
    decreases depth, roots, roots.len() - from,
{
    if 0 <= from < roots.len() {
        lemma_push_table_elements(
            src,
            origin,
            roots[from].inner@,
            0,
            base,
            formats,
            parser,
            env,
            later,
            later_env,
            depth,
        );
        match spec_push_table_elements(
            src,
            origin,
            roots[from].inner@,
            0,
            base,
            formats,
            parser,
            env,
            depth,
        ) {
            Err(_) => {},
            Ok(next) => {
                lemma_push_inner_elements(
                    src,
                    origin,
                    roots,
                    from + 1,
                    next,
                    formats,
                    parser,
                    env,
                    later,
                    later_env,
                    depth,
                );
            },
        }
    }
}

/// As [`lemma_element`], of one part of a table.
proof fn lemma_table_part(
    src: Seq<char>,
    origin: int,
    sub: Pair,
    base: ElementSpanView,
    formats: Seq<CellFormat>,
    parser: AsciidocParser,
    env: Env,
    later: AsciidocParser,
    later_env: Env,
    depth: nat,
)
    requires
        knows_more(later, parser),
        holds_more(later_env, env),
    ensures
        kept(
            spec_table_part(src, origin, sub, base, formats, parser, env, depth),
            spec_table_part(src, origin, sub, base, formats, later, later_env, depth),
            parser,
            env,
        ),
    decreases depth, sub, 3int,
{
    let text = sub.text(src, origin);
    if sub.rule == Rule::DelimitedInner {
        lemma_reparse(parser, later, env, Rule::TableInner, text, depth);
        match spec_reparse(parser, Rule::TableInner, text, depth) {
            Ok(roots) => {
                lemma_push_inner_elements(
                    src,
                    origin + sub.start,
                    roots,
                    0,
                    base,
                    formats,
                    parser,
                    env,
                    later,
                    later_env,
                    (depth - 1) as nat,
                );
            },
            Err(_) => {},
        }
    } else if sub.rule == Rule::TableRow {
        lemma_table_element(src, origin, sub, formats, parser, env, later, later_env, depth);
    }
}

/// As [`lemma_element`], of the parts of a table.
proof fn lemma_table_parts(
    src: Seq<char>,
    origin: int,
    items: Seq<Pair>,
    from: int,
    base: ElementSpanView,
    formats: Seq<CellFormat>,
    parser: AsciidocParser,
    env: Env,
    later: AsciidocParser,
    later_env: Env,
    depth: nat,
)
    requires
        knows_more(later, parser),
        holds_more(later_env, env),
    ensures
        kept(
            spec_table_parts(src, origin, items, from, base, formats, parser, env, depth),
            spec_table_parts(src, origin, items, from, base, formats, later, later_env, depth),
            parser,
            env,
        ),
    decreases depth, items, items.len() - from,
{
    if 0 <= from < items.len() {
        lemma_table_part(
            src,
            origin,
            items[from],
            base,
            formats,
            parser,
            env,
            later,
            later_env,
            depth,
        );
        match spec_table_part(src, origin, items[from], base, formats, parser, env, depth) {
            Err(_) => {},
            Ok(next) => {
                lemma_table_parts(
                    src,
                    origin,
                    items,
                    from + 1,
                    next,
                    formats,
                    parser,
                    env,
                    later,
                    later_env,
                    depth,
                );
            },
        }
    }
}

/// As [`lemma_element`], of the cells of a row.
proof fn lemma_row_cells(
    src: Seq<char>,
    origin: int,
    items: Seq<Pair>,
    from: int,
    base: ElementSpanView,
    formats: Seq<CellFormat>,
    parser: AsciidocParser,
    env: Env,
    later: AsciidocParser,
    later_env: Env,
    depth: nat,
)
    requires
        knows_more(later, parser),
        holds_more(later_env, env),
    ensures
        kept(
            spec_row_cells(src, origin, items, from, base, formats, parser, env, depth),
            spec_row_cells(src, origin, items, from, base, formats, later, later_env, depth),
            parser,
            env,
        ),
    decreases depth, items, items.len() - from,
{
    if 0 <= from < items.len() {
        match format_at(formats, from) {
            None => {},
            Some(format) => {
                let start = spec_set_span(src, origin, items[from]);
                lemma_table_cell(
                    src,
                    origin,
                    items[from],
                    start,
                    format,
                    parser,
                    env,
                    later,
                    later_env,
                    depth,
                );
                match spec_process_table_cell(
                    src,
                    origin,
                    items[from],
                    start,
                    format,
                    parser,
                    env,
                    depth,
                ) {
                    Err(_) => {},
                    Ok(cell) => {
                        lemma_row_cells(
                            src,
                            origin,
                            items,
                            from + 1,
                            base.add_child(cell),
                            formats,
                            parser,
                            env,
                            later,
                            later_env,
                            depth,
                        );
                    },
                }
            },
        }
    }
}

/// As [`lemma_element`], of a table cell.
proof fn lemma_table_cell(
    src: Seq<char>,
    origin: int,
    element: Pair,
    base: ElementSpanView,
    format: CellFormat,
    parser: AsciidocParser,
    env: Env,
    later: AsciidocParser,
    later_env: Env,
    depth: nat,
)
    requires
        knows_more(later, parser),
        holds_more(later_env, env),
    ensures
        kept(
            spec_process_table_cell(src, origin, element, base, format, parser, env, depth),
            spec_process_table_cell(src, origin, element, base, format, later, later_env, depth),
            parser,
            env,
        ),
    decreases depth, element, 0int,
{
    let (start, end) = cell_span(src, origin, element);
    let cell = base.with_element(ElementView::TableCell).with_place(
        spec_node_at(src, start, end, ElementView::TableCell),
    );
    lemma_reparse(parser, later, env, Rule::Asciidoc, cell.content, depth);
    match spec_reparse(parser, Rule::Asciidoc, cell.content, depth) {
        Ok(roots) => {
            lemma_push_elements(
                src,
                start,
                roots,
                0,
                cell,
                parser,
                env,
                later,
                later_env,
                (depth - 1) as nat,
            );
        },
        Err(_) => {},
    }
}

/// As [`lemma_element`], of the elements of a document.
proof fn lemma_elements(
    src: Seq<char>,
    roots: Seq<Pair>,
    from: int,
    found: Seq<ElementSpanView>,
    parser: AsciidocParser,
    env: Env,
    later: AsciidocParser,
    later_env: Env,
    depth: nat,
)
    requires
        knows_more(later, parser),
        holds_more(later_env, env),
    ensures
        kept(
            spec_elements(src, roots, from, found, parser, env, depth),
            spec_elements(src, roots, from, found, later, later_env, depth),
            parser,
            env,
        ),
    decreases roots.len() - from,
{
    if 0 <= from < roots.len() {
        lemma_element(src, 0, roots[from], parser, env, later, later_env, depth);
        match spec_process_element(src, 0, roots[from], parser, env, depth) {
            Err(_) => {},
            Ok(Some(element)) => {
                lemma_elements(
                    src,
                    roots,
                    from + 1,
                    found.push(element),
                    parser,
                    env,
                    later,
                    later_env,
                    depth,
                );
            },
            Ok(None) => {
                lemma_elements(src, roots, from + 1, found, parser, env, later, later_env, depth);
            },
        }
    }
}

/// Where the reader asks for the syntax of a text, or for a file, nothing is
/// recorded of that text, or of that file.
pub proof fn lemma_asks_for_what_is_missing(
    input: Seq<char>,
    args: Opts,
    parser: AsciidocParser,
    env: Env,
)
    ensures
        match spec_parse(input, args, parser, env) {
            Err(HaltView::Unparsed { rule, text }) => parser.answer(rule, text) is None,
            Err(HaltView::Unread { path }) => env.file(path) is None,
            _ => true,
        },
{
    lemma_more_changes_nothing(input, args, parser, env, parser, env);
}

/// Where the reader has given a document, or has found that the grammar
/// rejects a text or that the nesting is too deep, it gives the same with
/// whatever is recorded after.
pub proof fn lemma_more_changes_nothing(
    input: Seq<char>,
    args: Opts,
    parser: AsciidocParser,
    env: Env,
    later: AsciidocParser,
    later_env: Env,
)
    requires
        knows_more(later, parser),
        holds_more(later_env, env),
    ensures
        kept(
            spec_parse(input, args, parser, env),
            spec_parse(input, args, later, later_env),
            parser,
            env,
        ),
{
    match parser.answer(Rule::Asciidoc, input) {
        Some(Ok(roots)) => {
            lemma_answer_stays(parser.known(), later.known(), Rule::Asciidoc, input, 0);
            lemma_elements(
                input,
                roots,
                0,
                Seq::empty(),
                parser,
                env,
                later,
                later_env,
                args.max_depth as nat,
            );
        },
        Some(Err(_)) => {
            lemma_answer_stays(parser.known(), later.known(), Rule::Asciidoc, input, 0);
        },
        None => {},
    }
}

} // verus!
