//! What the reader is told of the world outside it. It neither runs the
//! grammar nor opens a file: it looks up what the grammar gave for a text, and
//! what a file held, in the two tables of this module, and says what is
//! missing where it finds nothing.

use vstd::prelude::*;
use vstd::string::*;
use crate::ast::{ElementSpan, ElementSpanView};
use crate::cst::{all_within, are_within, Pair, Rule};
use crate::text::{result_text, same_text};

verus! {

/// Why the reader stopped before the document was complete.
#[derive(Clone, PartialEq, Eq, Debug)]
pub enum Halt<'a> {
    /// The grammar has to be run on `text`, starting from `rule`.
    Unparsed { rule: Rule, text: &'a str },
    /// The file at `path` has to be read.
    Unread { path: String },
    /// The grammar rejected the text, or a text nested in it.
    Syntax { message: String },
    /// Blocks are nested deeper than the reader was allowed to follow.
    TooDeep,
}

/// The mathematical value of a [`Halt`].
pub ghost enum HaltView {
    Unparsed { rule: Rule, text: Seq<char> },
    Unread { path: Seq<char> },
    Syntax { message: Seq<char> },
    TooDeep,
}

impl<'a> View for Halt<'a> {
    type V = HaltView;

    open spec fn view(&self) -> HaltView {
        match *self {
            Halt::Unparsed { rule, text } => HaltView::Unparsed { rule, text: text@ },
            Halt::Unread { path } => HaltView::Unread { path: path@ },
            Halt::Syntax { message } => HaltView::Syntax { message: message@ },
            Halt::TooDeep => HaltView::TooDeep,
        }
    }
}

/// The value of a node, or of the reason for which there is none.
pub open spec fn span_result(r: Result<ElementSpan, Halt>) -> Result<ElementSpanView, HaltView> {
    match r {
        Ok(span) => Ok(span@),
        Err(halt) => Err(halt@),
    }
}

/// The value of what a syntax node became, or of the reason for which it
/// became nothing.
pub open spec fn element_result(r: Result<Option<ElementSpan>, Halt>) -> Result<
    Option<ElementSpanView>,
    HaltView,
> {
    match r {
        Ok(Some(span)) => Ok(Some(span@)),
        Ok(None) => Ok(None),
        Err(halt) => Err(halt@),
    }
}

/// What the grammar gave for one text: the syntax nodes at its top, or the
/// reason for which it rejected the text.
pub struct Parsed {
    pub rule: Rule,
    pub text: String,
    pub result: Result<Vec<Pair>, String>,
}

/// The value of what the grammar gave.
pub open spec fn result_view(result: Result<Vec<Pair>, String>) -> Result<Seq<Pair>, Seq<char>> {
    match result {
        Ok(pairs) => Ok(pairs@),
        Err(message) => Err(message@),
    }
}

/// The mathematical value of a [`Parsed`].
pub ghost struct ParsedView {
    pub rule: Rule,
    pub text: Seq<char>,
    pub result: Result<Seq<Pair>, Seq<char>>,
}

impl ParsedView {
    /// The syntax nodes, if there are any, lie in the text.
    pub open spec fn fits(self) -> bool {
        match self.result {
            Ok(pairs) => all_within(pairs, self.text, 0),
            Err(_) => true,
        }
    }
}

impl View for Parsed {
    type V = ParsedView;

    open spec fn view(&self) -> ParsedView {
        ParsedView { rule: self.rule, text: self.text@, result: result_view(self.result) }
    }
}

/// The first of `known`, from index `from` on, that is for `rule` and `text`.
pub open spec fn answer_from(
    known: Seq<ParsedView>,
    rule: Rule,
    text: Seq<char>,
    from: int,
) -> Option<Result<Seq<Pair>, Seq<char>>>
    decreases known.len() - from,
{
    if from < 0 || from >= known.len() {
        None
    } else if known[from].rule == rule && known[from].text == text {
        Some(known[from].result)
    } else {
        answer_from(known, rule, text, from + 1)
    }
}

/// The grammar, as far as it has been run: for each start rule and text that
/// was given to it, what came back.
pub struct AsciidocParser {
    known: Vec<Parsed>,
}

impl AsciidocParser {
    /// Every record holds syntax nodes that lie in its text. [`Self::new`]
    /// and [`Self::record`] make no other.
    pub closed spec fn wf(self) -> bool {
        forall|i: int| 0 <= i < self.known@.len() ==> (#[trigger] self.known@[i])@.fits()
    }

    /// What is recorded, in the order in which it was recorded.
    pub closed spec fn known(self) -> Seq<ParsedView> {
        Seq::new(self.known@.len(), |i: int| self.known@[i]@)
    }

    /// What the grammar gave for `text` from `rule`, if that is recorded: the
    /// first record for the two.
    pub open spec fn answer(self, rule: Rule, text: Seq<char>) -> Option<
        Result<Seq<Pair>, Seq<char>>,
    > {
        answer_from(self.known(), rule, text, 0)
    }

    /// A grammar that has not been run yet.
    pub fn new() -> (r: AsciidocParser)
        ensures
            r.wf(),
            r.known() == Seq::<ParsedView>::empty(),
    {
        let r = AsciidocParser { known: Vec::new() };
        assert(r.known() =~= Seq::<ParsedView>::empty());
        r
    }

    /// Records what the grammar gave for `text` from `rule`. Nodes that do not
    /// lie in `text` are not recorded, and the result says so.
    pub fn record(&mut self, rule: Rule, text: &str, result: Result<Vec<Pair>, String>) -> (r: bool)
        requires
            old(self).wf(),
        ensures
            final(self).wf(),
            r == (ParsedView { rule, text: text@, result: result_view(result) }).fits(),
            r ==> final(self).known() == old(self).known().push(
                ParsedView { rule, text: text@, result: result_view(result) },
            ),
            !r ==> final(self).known() == old(self).known(),
    {
        let fits = match &result {
            Ok(pairs) => are_within(pairs, text),
            Err(_) => true,
        };
        if fits {
            self.known.push(Parsed { rule, text: String::from_str(text), result });
            assert(self.known() =~= old(self).known().push(
                ParsedView { rule, text: text@, result: result_view(result) },
            ));
        }
        fits
    }

    /// What the grammar gave for `input` from `rule`, if that is recorded.
    pub fn parse(&self, rule: Rule, input: &str) -> (r: Option<&Result<Vec<Pair>, String>>)
        requires
            self.wf(),
        ensures
            r is Some <==> self.answer(rule, input@) is Some,
            r is Some ==> self.answer(rule, input@) == Some(result_view(*r.unwrap())),
            r is Some && r.unwrap() is Ok ==> all_within(r.unwrap().unwrap()@, input@, 0),
    {
        let mut i: usize = 0;
        while i < self.known.len()
            invariant
                self.wf(),
                i <= self.known@.len(),
                answer_from(self.known(), rule, input@, i as int) == self.answer(rule, input@),
            decreases self.known@.len() - i,
        {
            if self.known[i].rule == rule && same_text(self.known[i].text.as_str(), input) {
                assert(self.known@[i as int]@.fits());
                return Some(&self.known[i].result);
            }
            i = i + 1;
        }
        None
    }
}

/// The files, as far as they have been read: for each path that was tried,
/// what the file held, or the reason for which it could not be read.
pub struct Env {
    files: Vec<(String, Result<String, String>)>,
}

/// The first of `files`, from index `from` on, that is for `path`.
pub open spec fn file_from(
    files: Seq<(Seq<char>, Result<Seq<char>, Seq<char>>)>,
    path: Seq<char>,
    from: int,
) -> Option<Result<Seq<char>, Seq<char>>>
    decreases files.len() - from,
{
    if from < 0 || from >= files.len() {
        None
    } else if files[from].0 == path {
        Some(files[from].1)
    } else {
        file_from(files, path, from + 1)
    }
}

impl Env {
    /// What is recorded, in the order in which it was recorded: paths, each
    /// with the content of its file, or with the reason for which the file
    /// could not be read.
    pub closed spec fn files(self) -> Seq<(Seq<char>, Result<Seq<char>, Seq<char>>)> {
        Seq::new(self.files@.len(), |i: int| (self.files@[i].0@, result_text(self.files@[i].1)))
    }

    /// What is known of the file at `path`: nothing, its content, or the
    /// reason for which it cannot be read. The first record for the path
    /// counts.
    pub open spec fn file(self, path: Seq<char>) -> Option<Result<Seq<char>, Seq<char>>> {
        file_from(self.files(), path, 0)
    }

    /// Files of which nothing is known yet.
    pub fn new() -> (r: Env)
        ensures
            r.files() == Seq::<(Seq<char>, Result<Seq<char>, Seq<char>>)>::empty(),
    {
        let r = Env { files: Vec::new() };
        assert(r.files() =~= Seq::<(Seq<char>, Result<Seq<char>, Seq<char>>)>::empty());
        r
    }

    /// Records what the file at `path` held, or the reason for which it could
    /// not be read.
    pub fn record(&mut self, path: &str, content: Result<String, String>)
        ensures
            final(self).files() == old(self).files().push((path@, result_text(content))),
    {
        self.files.push((String::from_str(path), content));
        assert(self.files() =~= old(self).files().push((path@, result_text(content))));
    }

    /// What the file at `path` held, or why it could not be read, if either is
    /// known.
    pub fn read_to_string(&self, path: &str) -> (r: Option<Result<&str, &str>>)
        ensures
            match r {
                None => self.file(path@) is None,
                Some(Ok(content)) => self.file(path@) == Some(
                    Ok::<Seq<char>, Seq<char>>(content@),
                ),
                Some(Err(reason)) => self.file(path@) == Some(
                    Err::<Seq<char>, Seq<char>>(reason@),
                ),
            },
    {
        let mut i: usize = 0;
        while i < self.files.len()
            invariant
                i <= self.files@.len(),
                file_from(self.files(), path@, i as int) == self.file(path@),
            decreases self.files@.len() - i,
        {
            if same_text(self.files[i].0.as_str(), path) {
                return match &self.files[i].1 {
                    Ok(content) => Some(Ok(content.as_str())),
                    Err(reason) => Some(Err(reason.as_str())),
                };
            }
            i = i + 1;
        }
        None
    }
}

/// The syntax nodes that are recorded for a text lie in that text.
pub proof fn lemma_answer_fits(parser: AsciidocParser, rule: Rule, text: Seq<char>)
    requires
        parser.wf(),
    ensures
        match parser.answer(rule, text) {
            Some(Ok(roots)) => all_within(roots, text, 0),
            _ => true,
        },
{
    lemma_answer_from_fits(parser, rule, text, 0);
}

proof fn lemma_answer_from_fits(parser: AsciidocParser, rule: Rule, text: Seq<char>, from: int)
    requires
        parser.wf(),
        0 <= from,
    ensures
        match answer_from(parser.known(), rule, text, from) {
            Some(Ok(roots)) => all_within(roots, text, 0),
            _ => true,
        },
    decreases parser.known().len() - from,
{
    if from < parser.known().len() {
        assert(parser.known@[from]@.fits());
        if !(parser.known()[from].rule == rule && parser.known()[from].text == text) {
            lemma_answer_from_fits(parser, rule, text, from + 1);
        }
    }
}

/// An answer that is recorded stays the answer when more is recorded after
/// it.
pub proof fn lemma_answer_stays(
    known: Seq<ParsedView>,
    later: Seq<ParsedView>,
    rule: Rule,
    text: Seq<char>,
    from: int,
)
    requires
        known.is_prefix_of(later),
        answer_from(known, rule, text, from) is Some,
    ensures
        answer_from(later, rule, text, from) == answer_from(known, rule, text, from),
    decreases known.len() - from,
{
    if 0 <= from < known.len() {
        assert(later[from] == known[from]);
        if !(known[from].rule == rule && known[from].text == text) {
            lemma_answer_stays(known, later, rule, text, from + 1);
        }
    }
}

/// What is recorded of a file stays what is known of it when more is recorded
/// after it.
pub proof fn lemma_file_stays(
    files: Seq<(Seq<char>, Result<Seq<char>, Seq<char>>)>,
    later: Seq<(Seq<char>, Result<Seq<char>, Seq<char>>)>,
    path: Seq<char>,
    from: int,
)
    requires
        files.is_prefix_of(later),
        file_from(files, path, from) is Some,
    ensures
        file_from(later, path, from) == file_from(files, path, from),
    decreases files.len() - from,
{
    if 0 <= from < files.len() {
        assert(later[from] == files[from]);
        if files[from].0 != path {
            lemma_file_stays(files, later, path, from + 1);
        }
    }
}

} // verus!
