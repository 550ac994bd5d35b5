//! Text as the rest of the crate sees it: a sequence of characters, addressed
//! by byte offsets into its UTF-8 encoding.

use vstd::prelude::*;
use vstd::std_specs::iter::IteratorSpec;
use vstd::string::*;
use vstd::utf8::*;

verus! {

/// The number of bytes that `text` takes in UTF-8.
pub open spec fn byte_len(text: Seq<char>) -> nat {
    encode_utf8(text).len()
}

/// `pos` is a byte offset into `text` at which a character starts, or the end of `text`.
pub open spec fn on_boundary(text: Seq<char>, pos: int) -> bool {
    is_char_boundary(encode_utf8(text), pos)
}

/// The byte range `start..end` cuts `text` between characters.
pub open spec fn valid_span(text: Seq<char>, start: int, end: int) -> bool {
    start <= end && on_boundary(text, start) && on_boundary(text, end)
}

/// The characters of `text` that its bytes `start..end` encode.
pub open spec fn slice(text: Seq<char>, start: int, end: int) -> Seq<char> {
    decode_utf8(encode_utf8(text).subrange(start, end))
}

/// A byte range that cuts `text` between characters lies in `text`.
pub proof fn lemma_span_fits(text: Seq<char>, start: int, end: int)
    requires
        valid_span(text, start, end),
    ensures
        0 <= start <= end <= byte_len(text),
{
    broadcast use encode_utf8_valid_utf8;

    reveal_with_fuel(is_char_boundary, 1);
}

/// The bytes of two texts, one after the other, are the bytes of the one and
/// after them the bytes of the other.
pub proof fn lemma_encode_concat(a: Seq<char>, b: Seq<char>)
    ensures
        encode_utf8(a + b) == encode_utf8(a) + encode_utf8(b),
    decreases a.len(),
{
    if a.len() == 0 {
        assert(a + b =~= b);
        assert(encode_utf8(a) + encode_utf8(b) =~= encode_utf8(b));
    } else {
        assert((a + b).drop_first() =~= a.drop_first() + b);
        lemma_encode_concat(a.drop_first(), b);
        assert(encode_utf8(a + b) =~= encode_utf8(a) + encode_utf8(b));
    }
}

/// Where a text ends and another goes on, a character starts.
pub proof fn lemma_boundary_after(a: Seq<char>, b: Seq<char>)
    ensures
        on_boundary(a + b, byte_len(a) as int),
    decreases a.len(),
{
    broadcast use encode_utf8_valid_utf8;

    if a.len() > 0 {
        let chars = a + b;
        let bytes = encode_utf8(chars);
        encode_utf8_first_scalar(chars);
        assert(chars.drop_first() =~= a.drop_first() + b);
        assert(pop_first_scalar(bytes) =~= encode_utf8(chars.drop_first()));
        lemma_boundary_after(a.drop_first(), b);
        lemma_encode_concat(a, b);
        assert(encode_scalar(a[0] as u32).len() >= 1);
        assert(byte_len(a) == encode_scalar(a[0] as u32).len() + byte_len(a.drop_first()));
    }
}

/// In a text made of three parts, the bytes of the part in the middle cut
/// the text between characters and encode that part.
pub proof fn lemma_slice_middle(before: Seq<char>, middle: Seq<char>, after: Seq<char>)
    ensures
        valid_span(
            before + middle + after,
            byte_len(before) as int,
            (byte_len(before) + byte_len(middle)) as int,
        ),
        slice(
            before + middle + after,
            byte_len(before) as int,
            (byte_len(before) + byte_len(middle)) as int,
        )
            == middle,
{
    broadcast use encode_utf8_decode_utf8;

    let whole = before + middle + after;
    assert(whole =~= before + (middle + after));
    lemma_boundary_after(before, middle + after);
    lemma_boundary_after(before + middle, after);
    lemma_encode_concat(before + middle, after);
    lemma_encode_concat(before, middle);
    assert(encode_utf8(whole).subrange(
        byte_len(before) as int,
        (byte_len(before) + byte_len(middle)) as int,
    ) =~= encode_utf8(middle));
}

/// A byte range of a piece of a text is a byte range of the text, further on
/// by the offset of the piece, and encodes the same characters.
pub proof fn lemma_window(text: Seq<char>, from: int, to: int, start: int, end: int)
    requires
        valid_span(text, from, to),
        valid_span(slice(text, from, to), start, end),
    ensures
        valid_span(text, from + start, from + end),
        from + end <= to,
        slice(text, from + start, from + end) == slice(slice(text, from, to), start, end),
{
    broadcast use encode_utf8_valid_utf8;

    let bytes = encode_utf8(text);
    let piece = bytes.subrange(from, to);
    lemma_span_fits(text, from, to);
    // the bytes of the piece are valid
    let tail = bytes.subrange(from, bytes.len() as int);
    valid_utf8_split(bytes, from);
    if to < bytes.len() {
        is_char_boundary_iff_not_is_continuation_byte(bytes, to);
        is_char_boundary_iff_not_is_continuation_byte(tail, to - from);
    } else {
        is_char_boundary_start_end_of_seq(tail);
    }
    valid_utf8_split(tail, to - from);
    assert(tail.subrange(0, to - from) =~= piece);
    decode_utf8_encode_utf8(piece);
    let inner = slice(text, from, to);
    assert(encode_utf8(inner) == piece);
    lemma_span_fits(inner, start, end);
    is_char_boundary_start_end_of_seq(piece);
    if start < piece.len() {
        is_char_boundary_iff_not_is_continuation_byte(piece, start);
        is_char_boundary_iff_not_is_continuation_byte(bytes, from + start);
    }
    if end < piece.len() {
        is_char_boundary_iff_not_is_continuation_byte(piece, end);
        is_char_boundary_iff_not_is_continuation_byte(bytes, from + end);
    }
    assert(piece.subrange(start, end) =~= bytes.subrange(from + start, from + end));
}

/// The characters that Unicode gives the property `White_Space`.
pub open spec fn is_white_space(c: char) -> bool {
    ||| ('\u{9}' <= c && c <= '\u{d}')
    ||| c == ' '
    ||| c == '\u{85}'
    ||| c == '\u{a0}'
    ||| c == '\u{1680}'
    ||| ('\u{2000}' <= c && c <= '\u{200a}')
    ||| c == '\u{2028}'
    ||| c == '\u{2029}'
    ||| c == '\u{202f}'
    ||| c == '\u{205f}'
    ||| c == '\u{3000}'
}

/// `s` without its leading white space.
pub open spec fn trim_start(s: Seq<char>) -> Seq<char>
    decreases s.len(),
{
    if s.len() > 0 && is_white_space(s.first()) {
        trim_start(s.drop_first())
    } else {
        s
    }
}

/// `s` without its trailing white space.
pub open spec fn trim_end(s: Seq<char>) -> Seq<char>
    decreases s.len(),
{
    if s.len() > 0 && is_white_space(s.last()) {
        trim_end(s.drop_last())
    } else {
        s
    }
}

/// `s` without leading and trailing white space.
pub open spec fn trim(s: Seq<char>) -> Seq<char> {
    trim_end(trim_start(s))
}

/// Without the `from` white space characters that `s` starts with, `s` is
/// trimmed at its start.
proof fn lemma_trim_start(s: Seq<char>, from: int)
    requires
        0 <= from <= s.len(),
        forall|i: int| 0 <= i < from ==> is_white_space(#[trigger] s[i]),
        from == s.len() || !is_white_space(s[from]),
    ensures
        trim_start(s) == s.subrange(from, s.len() as int),
    decreases from,
{
    if from == 0 {
        assert(s.subrange(0, s.len() as int) =~= s);
    } else {
        assert(is_white_space(s[0]));
        let rest = s.drop_first();
        assert forall|i: int| 0 <= i < from - 1 implies is_white_space(#[trigger] rest[i]) by {
            assert(rest[i] == s[i + 1]);
        }
        lemma_trim_start(rest, from - 1);
        assert(rest.subrange(from - 1, rest.len() as int) =~= s.subrange(from, s.len() as int));
    }
}

/// Without the white space characters that `s` ends with, from index `to`
/// on, `s` is trimmed at its end.
proof fn lemma_trim_end(s: Seq<char>, to: int)
    requires
        0 <= to <= s.len(),
        forall|i: int| to <= i < s.len() ==> is_white_space(#[trigger] s[i]),
        to == 0 || !is_white_space(s[to - 1]),
    ensures
        trim_end(s) == s.subrange(0, to),
    decreases s.len() - to,
{
    if to == s.len() {
        assert(s.subrange(0, to) =~= s);
    } else {
        assert(is_white_space(s[s.len() - 1]));
        let rest = s.drop_last();
        lemma_trim_end(rest, to);
        assert(rest.subrange(0, to) =~= s.subrange(0, to));
    }
}

/// Whether `c` is white space.
pub fn is_space(c: char) -> (r: bool)
    ensures
        r == is_white_space(c),
{
    (c >= '\u{9}' && c <= '\u{d}') || c == ' ' || c == '\u{85}' || c == '\u{a0}' || c == '\u{1680}'
        || (c >= '\u{2000}' && c <= '\u{200a}') || c == '\u{2028}' || c == '\u{2029}' || c
        == '\u{202f}' || c == '\u{205f}' || c == '\u{3000}'
}

/// The indices of the first character of `chars` trimmed, and of the first
/// after it.
pub fn trim_bounds(chars: &Vec<char>) -> (r: (usize, usize))
    ensures
        r.0 <= r.1 <= chars@.len(),
        trim_start(chars@) == chars@.subrange(r.0 as int, chars@.len() as int),
        trim(chars@) == chars@.subrange(r.0 as int, r.1 as int),
{
    let mut from: usize = 0;
    while from < chars.len() && is_space(chars[from])
        invariant
            from <= chars@.len(),
            forall|i: int| 0 <= i < from ==> is_white_space(#[trigger] chars@[i]),
        decreases chars@.len() - from,
    {
        from = from + 1;
    }
    let mut to: usize = chars.len();
    while to > from && is_space(chars[to - 1])
        invariant
            from <= to <= chars@.len(),
            forall|i: int| to <= i < chars@.len() ==> is_white_space(#[trigger] chars@[i]),
        decreases to,
    {
        to = to - 1;
    }
    proof {
        let start = chars@.subrange(from as int, chars@.len() as int);
        lemma_trim_start(chars@, from as int);
        lemma_trim_end(start, to - from);
        assert(start.subrange(0, to - from) =~= chars@.subrange(from as int, to as int));
    }
    (from, to)
}

/// The part of `s` that is left without leading and trailing white space.
pub fn trim_str<'a>(s: &'a str) -> (r: &'a str)
    ensures
        r@ == trim(s@),
{
    let chars = chars_of(s);
    let (from, to) = trim_bounds(&chars);
    s.substring_char(from, to)
}

/// The byte offset in `s` at which `s` trimmed starts: the bytes of the white
/// space that `s` starts with.
pub open spec fn trim_from(s: Seq<char>) -> nat {
    byte_len(s.subrange(0, s.len() - trim_start(s).len()))
}

/// The byte offset in `s` at which `s` trimmed ends.
pub open spec fn trim_to(s: Seq<char>) -> nat {
    trim_from(s) + byte_len(trim(s))
}

/// What is left of `s` when it is trimmed at its start is the end of `s`.
pub proof fn lemma_trim_start_is_end(s: Seq<char>)
    ensures
        trim_start(s).len() <= s.len(),
        trim_start(s) == s.subrange(s.len() - trim_start(s).len(), s.len() as int),
    decreases s.len(),
{
    if s.len() > 0 && is_white_space(s.first()) {
        let rest = s.drop_first();
        lemma_trim_start_is_end(rest);
        assert(rest.subrange(rest.len() - trim_start(rest).len(), rest.len() as int) =~= s.subrange(
            s.len() - trim_start(s).len(),
            s.len() as int,
        ));
    } else {
        assert(s.subrange(0, s.len() as int) =~= s);
    }
}

/// What is left of `s` when it is trimmed at its end is the start of `s`.
pub proof fn lemma_trim_end_is_start(s: Seq<char>)
    ensures
        trim_end(s).len() <= s.len(),
        trim_end(s) == s.subrange(0, trim_end(s).len() as int),
    decreases s.len(),
{
    if s.len() > 0 && is_white_space(s.last()) {
        let rest = s.drop_last();
        lemma_trim_end_is_start(rest);
        assert(rest.subrange(0, trim_end(rest).len() as int) =~= s.subrange(
            0,
            trim_end(s).len() as int,
        ));
    } else {
        assert(s.subrange(0, s.len() as int) =~= s);
    }
}

/// The bytes from [`trim_from`] to [`trim_to`] of a text cut it between
/// characters and encode the text trimmed.
pub proof fn lemma_trim_span(s: Seq<char>)
    ensures
        valid_span(s, trim_from(s) as int, trim_to(s) as int),
        slice(s, trim_from(s) as int, trim_to(s) as int) == trim(s),
{
    lemma_trim_start_is_end(s);
    let from = s.len() - trim_start(s).len();
    lemma_trim_end_is_start(trim_start(s));
    let to = from + trim(s).len();
    let before = s.subrange(0, from);
    let after = s.subrange(to, s.len() as int);
    assert(trim(s) =~= s.subrange(from, to));
    assert(s =~= before + trim(s) + after);
    lemma_slice_middle(before, trim(s), after);
}

/// The bytes of `s` that are left when `s` is trimmed: the offset of the
/// first, and of the first after them.
pub fn trim_span(s: &str) -> (r: (usize, usize))
    ensures
        r.0 == trim_from(s@),
        r.1 == trim_to(s@),
{
    let chars = chars_of(s);
    let (from, to) = trim_bounds(&chars);
    let start: usize = s.substring_char(0, from).as_bytes().len();
    let kept: usize = s.substring_char(from, to).as_bytes().len();
    let all: usize = s.as_bytes().len();
    proof {
        lemma_trim_span(s@);
        lemma_span_fits(s@, trim_from(s@) as int, trim_to(s@) as int);
        assert(s@.len() - trim_start(s@).len() == from);
    }
    (start, start + kept)
}

/// The length in bytes of `marker` once trimmed, cut to 32 bits.
pub open spec fn marker_length(marker: Seq<char>) -> u32 {
    byte_len(trim(marker)) as u32
}

/// Measures a title or list marker: the number of bytes left of it after
/// trimming.
pub fn measure_marker(marker: &str) -> (r: u32)
    ensures
        r == marker_length(marker@),
{
    let n: usize = trim_str(marker).as_bytes().len();
    #[verifier::truncate]
    (n as u32)
}

/// Whether two strings hold the same characters.
pub fn same_text(a: &str, b: &str) -> (r: bool)
    ensures
        r == (a@ == b@),
{
    broadcast use encode_utf8_decode_utf8;

    let x = a.as_bytes();
    let y = b.as_bytes();
    if x.len() != y.len() {
        return false;
    }
    let mut i: usize = 0;
    while i < x.len()
        invariant
            x@.len() == y@.len(),
            i <= x@.len(),
            x@ == encode_utf8(a@),
            y@ == encode_utf8(b@),
            forall|k: int| 0 <= k < i ==> x@[k] == y@[k],
        decreases x@.len() - i,
    {
        if x[i] != y[i] {
            return false;
        }
        i = i + 1;
    }
    assert(x@ =~= y@);
    assert(decode_utf8(encode_utf8(a@)) == decode_utf8(encode_utf8(b@)));
    true
}

/// The characters of a string, one by one.
pub fn chars_of(s: &str) -> (r: Vec<char>)
    ensures
        r@ == s@,
{
    broadcast use group_string_axioms;

    let mut rest = s.chars();
    let mut out: Vec<char> = Vec::new();
    let mut done = false;
    assert(out@ + rest.remaining() =~= s@);
    while !done
        invariant
            rest.obeys_prophetic_iter_laws(),
            out@ + rest.remaining() == s@,
            done ==> rest.remaining().len() == 0,
        decreases s@.len() - out@.len(), (if done { 0int } else { 1int }),
    {
        let ghost before = rest.remaining();
        match rest.next() {
            Some(c) => {
                out.push(c);
                assert(out@ + rest.remaining() =~= s@) by {
                    assert(before =~= seq![c] + before.drop_first());
                }
            },
            None => {
                done = true;
            },
        }
    }
    assert(out@ =~= s@);
    out
}

/// The characters of a string that may be missing.
pub open spec fn option_text(s: Option<String>) -> Option<Seq<char>> {
    match s {
        Some(s) => Some(s@),
        None => None,
    }
}

/// The characters of a text or of the reason for which it is missing.
pub open spec fn result_text(r: Result<String, String>) -> Result<Seq<char>, Seq<char>> {
    match r {
        Ok(text) => Ok(text@),
        Err(reason) => Err(reason@),
    }
}

} // verus!
