//! Where a syntax node lies in its text: the characters it covers, and the
//! line and column of a byte offset. Both are asked of `pest`.

use vstd::prelude::*;
use crate::text::{on_boundary, slice, valid_span};

verus! {

/// The line on which the character after `prefix` stands: one more than the
/// number of line feeds in `prefix`.
pub open spec fn line_of(prefix: Seq<char>) -> nat
    decreases prefix.len(),
{
    if prefix.len() == 0 {
        1
    } else if prefix.last() == '\n' {
        line_of(prefix.drop_last()) + 1
    } else {
        line_of(prefix.drop_last())
    }
}

/// The column in which the character after `prefix` stands: one more than the
/// number of characters that follow the last line feed of `prefix`.
pub open spec fn column_of(prefix: Seq<char>) -> nat
    decreases prefix.len(),
{
    if prefix.len() == 0 || prefix.last() == '\n' {
        1
    } else {
        column_of(prefix.drop_last()) + 1
    }
}

/// `pest::Span::new` followed by `pest::Span::as_str`. The first gives a span
/// exactly when `src.get(start..end)` is a string slice, that is when
/// `start <= end` and both offsets lie between characters of `src`; the second
/// returns `&src[start..end]`.
#[verifier::external_body]
pub(crate) fn span_text<'a>(src: &'a str, start: usize, end: usize) -> (r: Option<&'a str>)
    ensures
        r is Some <==> valid_span(src@, start as int, end as int),
        r is Some ==> r.unwrap()@ == slice(src@, start as int, end as int),
{
    match pest::Span::new(src, start, end) {
        Some(span) => Some(span.as_str()),
        None => None,
    }
}

/// `pest::Position::new` followed by `pest::Position::line_col`. The first
/// gives a position exactly when `pos` lies between characters of `src` (or at
/// its end); the second walks the characters before `pos`, starts at line 1
/// and column 1, and for a line feed (with or without a carriage return before
/// it) goes to column 1 of the next line, for any other character one column
/// on.
#[verifier::external_body]
pub(crate) fn line_col(src: &str, pos: usize) -> (r: Option<(usize, usize)>)
    ensures
        r is Some <==> on_boundary(src@, pos as int),
        r is Some ==> r.unwrap().0 == line_of(slice(src@, 0, pos as int)),
        r is Some ==> r.unwrap().1 == column_of(slice(src@, 0, pos as int)),
{
    match pest::Position::new(src, pos) {
        Some(position) => Some(position.line_col()),
        None => None,
    }
}

/// The characters that the bytes `start..end` of `src` encode.
pub fn text_at<'a>(src: &'a str, start: usize, end: usize) -> (r: &'a str)
    requires
        valid_span(src@, start as int, end as int),
    ensures
        r@ == slice(src@, start as int, end as int),
{
    match span_text(src, start, end) {
        Some(t) => t,
        None => src,
    }
}

/// The line and the column of the byte offset `pos` of `src`, both counted from 1.
pub fn position_at(src: &str, pos: usize) -> (r: (usize, usize))
    requires
        on_boundary(src@, pos as int),
    ensures
        r.0 == line_of(slice(src@, 0, pos as int)),
        r.1 == column_of(slice(src@, 0, pos as int)),
{
    match line_col(src, pos) {
        Some(p) => p,
        None => (1, 1),
    }
}

} // verus!
