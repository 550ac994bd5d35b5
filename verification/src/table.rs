//! The formats of a table's columns, as the attribute `cols` writes them:
//! entries between commas, each a kind and, after `=`, a length.

use vstd::prelude::*;
use crate::text::chars_of;

verus! {

/// How the content of a cell is read.
#[derive(Debug, Clone, Copy, PartialEq, Eq, Structural)]
pub enum CellKind {
    /// The content is text.
    Default,
    /// The content is a document of its own.
    Asciidoc,
}

/// The format of the cells of one column.
#[derive(Debug, Clone, Copy, PartialEq, Eq, Structural)]
pub struct CellFormat {
    pub length: usize,
    pub kind: CellKind,
}

/// The pieces of `s` between the characters `sep`, in their order. There is
/// always the piece before the first `sep`, be it empty.
pub open spec fn split(s: Seq<char>, sep: char) -> Seq<Seq<char>>
    decreases s.len(),
{
    if s.len() == 0 {
        seq![Seq::<char>::empty()]
    } else {
        let before = split(s.drop_last(), sep);
        if s.last() == sep {
            before.push(Seq::<char>::empty())
        } else {
            before.drop_last().push(before.last().push(s.last()))
        }
    }
}

/// `c` is one of the digits 0 to 9.
pub open spec fn is_digit(c: char) -> bool {
    '0' <= c && c <= '9'
}

/// The number that the digits `s` write in base ten.
pub open spec fn decimal(s: Seq<char>) -> nat
    decreases s.len(),
{
    if s.len() == 0 {
        0
    } else {
        decimal(s.drop_last()) * 10 + (s.last() as nat - '0' as nat) as nat
    }
}

/// `s` without the `+` that it may start with.
pub open spec fn unsigned(s: Seq<char>) -> Seq<char> {
    if s.len() > 0 && s[0] == '+' {
        s.drop_first()
    } else {
        s
    }
}

/// `s` holds digits only.
pub open spec fn all_digits(s: Seq<char>) -> bool {
    forall|i: int| 0 <= i < s.len() ==> is_digit(#[trigger] s[i])
}

/// The number that `s` writes: digits, with or without a `+` before them.
/// Nothing else writes a number.
pub open spec fn number(s: Seq<char>) -> Option<nat> {
    let digits = unsigned(s);
    if digits.len() > 0 && all_digits(digits) {
        Some(decimal(digits))
    } else {
        None
    }
}

/// The length that `s` writes: a positive number that fits, or 1.
pub open spec fn length_of(s: Seq<char>) -> usize {
    match number(s) {
        Some(n) => if 0 < n <= usize::MAX {
            n as usize
        } else {
            1
        },
        None => 1,
    }
}

/// The format that one entry writes. The entry's kind is what stands before
/// its first `=`: `a` is for a document, anything else for text. Its length is
/// what stands between the first and the second `=`, and 1 where that is
/// missing or writes no length.
pub open spec fn cell_format(entry: Seq<char>) -> CellFormat {
    let parts = split(entry, '=');
    CellFormat {
        length: if parts.len() > 1 {
            length_of(parts[1])
        } else {
            1
        },
        kind: if parts[0] == seq!['a'] {
            CellKind::Asciidoc
        } else {
            CellKind::Default
        },
    }
}

/// The formats that `input` writes, one for each entry between commas.
pub open spec fn row_format(input: Seq<char>) -> Seq<CellFormat> {
    split(input, ',').map_values(|entry: Seq<char>| cell_format(entry))
}

/// There is a piece, whatever is split.
pub proof fn lemma_split_len(s: Seq<char>, sep: char)
    ensures
        split(s, sep).len() >= 1,
    decreases s.len(),
{
    if s.len() > 0 {
        lemma_split_len(s.drop_last(), sep);
    }
}

/// Digits in front of a number write no more than the whole number.
proof fn lemma_decimal_grows(s: Seq<char>, n: int)
    requires
        0 <= n <= s.len(),
        all_digits(s),
    ensures
        decimal(s.take(n)) <= decimal(s),
    decreases s.len() - n,
{
    if n < s.len() {
        lemma_decimal_grows(s, n + 1);
        assert(s.take(n + 1).drop_last() =~= s.take(n));
    } else {
        assert(s.take(n) =~= s);
    }
}

/// Cuts `s` at each `sep`.
pub fn split_at_each(s: &Vec<char>, sep: char) -> (r: Vec<Vec<char>>)
    ensures
        r@.len() == split(s@, sep).len(),
        forall|k: int| 0 <= k < r@.len() ==> (#[trigger] r@[k])@ == split(s@, sep)[k],
{
    let mut pieces: Vec<Vec<char>> = Vec::new();
    let mut piece: Vec<char> = Vec::new();
    let mut i: usize = 0;
    assert(s@.take(0) =~= Seq::<char>::empty());
    while i < s.len()
        invariant
            i <= s@.len(),
            pieces@.len() + 1 == split(s@.take(i as int), sep).len(),
            forall|k: int|
                0 <= k < pieces@.len() ==> (#[trigger] pieces@[k])@ == split(
                    s@.take(i as int),
                    sep,
                )[k],
            piece@ == split(s@.take(i as int), sep).last(),
        decreases s@.len() - i,
    {
        let ghost before = split(s@.take(i as int), sep);
        assert(s@.take(i + 1).drop_last() =~= s@.take(i as int));
        assert(s@.take(i + 1).last() == s@[i as int]);
        if s[i] == sep {
            pieces.push(piece);
            piece = Vec::new();
        } else {
            piece.push(s[i]);
        }
        i = i + 1;
    }
    assert(s@.take(i as int) =~= s@);
    pieces.push(piece);
    pieces
}

/// Reads a number as [`number`] says, where it fits.
pub fn parse_number(s: &Vec<char>) -> (r: Option<usize>)
    ensures
        r is Some <==> (number(s@) is Some && number(s@).unwrap() <= usize::MAX),
        r is Some ==> r.unwrap() == number(s@).unwrap(),
{
    let from: usize = if s.len() > 0 && s[0] == '+' {
        1
    } else {
        0
    };
    let ghost digits = unsigned(s@);
    if from == s.len() {
        return None;
    }
    let mut value: usize = 0;
    let mut i: usize = from;
    assert(digits.take(0) =~= Seq::<char>::empty());
    while i < s.len()
        invariant
            from <= i <= s@.len(),
            from <= 1,
            digits == unsigned(s@),
            digits.len() == s@.len() - from,
            forall|k: int| 0 <= k < digits.len() ==> digits[k] == s@[k + from],
            forall|k: int| 0 <= k < i - from ==> is_digit(#[trigger] digits[k]),
            value == decimal(digits.take(i - from)),
        decreases s@.len() - i,
    {
        let c = s[i];
        assert(c == digits[i - from]);
        if !(c >= '0' && c <= '9') {
            assert(!is_digit(digits[i - from]));
            return None;
        }
        let d: usize = (c as u32 - '0' as u32) as usize;
        assert(digits.take(i - from + 1).drop_last() =~= digits.take(i - from));
        assert(digits.take(i - from + 1).last() == c);
        if value > (usize::MAX - d) / 10 {
            proof {
                assert(decimal(digits.take(i - from + 1)) == value * 10 + d);
                assert(value * 10 + d > usize::MAX);
                if all_digits(digits) {
                    lemma_decimal_grows(digits, i - from + 1);
                }
            }
            return None;
        }
        value = value * 10 + d;
        i = i + 1;
    }
    assert(digits.take(i - from) =~= digits);
    Some(value)
}

/// Reads the format that one entry writes.
pub fn parse_cell_format(entry: &Vec<char>) -> (r: CellFormat)
    ensures
        r == cell_format(entry@),
{
    let parts = split_at_each(entry, '=');
    proof {
        lemma_split_len(entry@, '=');
    }
    let kind = if parts[0].len() == 1 && parts[0][0] == 'a' {
        assert(parts@[0]@ =~= seq!['a']);
        CellKind::Asciidoc
    } else {
        CellKind::Default
    };
    let length: usize = if parts.len() > 1 {
        match parse_number(&parts[1]) {
            Some(n) => if n > 0 {
                n
            } else {
                1
            },
            None => 1,
        }
    } else {
        1
    };
    CellFormat { length, kind }
}

/// Reads the formats of a table's columns.
pub fn parse_row_format(input: &str) -> (r: Vec<CellFormat>)
    ensures
        r@ == row_format(input@),
        r@.len() >= 1,
{
    let chars = chars_of(input);
    let entries = split_at_each(&chars, ',');
    proof {
        lemma_split_len(input@, ',');
    }
    let mut out: Vec<CellFormat> = Vec::new();
    let mut i: usize = 0;
    while i < entries.len()
        invariant
            i <= entries@.len(),
            entries@.len() == split(input@, ',').len(),
            forall|k: int| 0 <= k < entries@.len() ==> (#[trigger] entries@[k])@ == split(input@, ',')[k],
            out@.len() == i,
            forall|k: int| 0 <= k < i ==> out@[k] == cell_format(split(input@, ',')[k]),
        decreases entries@.len() - i,
    {
        out.push(parse_cell_format(&entries[i]));
        i = i + 1;
    }
    assert(out@ =~= row_format(input@));
    out
}

/// The format of the cell at `index` of a row: the formats are gone through
/// again and again, as often as the row has cells for them. Without formats
/// there is none.
pub open spec fn format_at(formats: Seq<CellFormat>, index: int) -> Option<CellFormat> {
    if formats.len() == 0 || index < 0 {
        None
    } else {
        Some(formats[index % formats.len() as int])
    }
}

/// The format of the cell at `index` of a row.
pub fn cell_format_at(formats: &Vec<CellFormat>, index: usize) -> (r: Option<CellFormat>)
    ensures
        r == format_at(formats@, index as int),
{
    if formats.len() == 0 {
        None
    } else {
        Some(formats[index % formats.len()])
    }
}

} // verus!
