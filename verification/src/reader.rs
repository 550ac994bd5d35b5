//! The reader: from the text of a document to the document.

use vstd::prelude::*;
use vstd::string::*;
use crate::ast::{
    lemma_span_views_push,
    span_views,
    ASTView,
    Attribute,
    AttributeValue,
    AttributeValueView,
    AttributeView,
    ElementSpan,
    ElementSpanView,
    AST,
};
use crate::cst::{all_within, Pair, Rule};
use crate::dispatch::{process_element, spec_process_element};
use crate::image::{collect_diagnostics, spec_diagnostics, texts};
use crate::known::{AsciidocParser, Env, Halt, HaltView};
use crate::text::option_text;

verus! {

/// The number of levels of nesting that a reader follows unless it is told
/// otherwise.
pub const DEFAULT_DEPTH: usize = 64;

/// What a reader is told besides the text.
pub struct Opts {
    /// Where the text comes from, if that is known.
    pub input: Option<String>,
    /// How many levels of documents nested in blocks and cells are followed.
    pub max_depth: usize,
}

impl Opts {
    /// No source, and the usual depth.
    pub fn new() -> (r: Opts)
        ensures
            r.input is None,
            r.max_depth == DEFAULT_DEPTH,
    {
        Opts { input: None, max_depth: DEFAULT_DEPTH }
    }
}

/// The value of a document, or of the reason for which there is none.
pub open spec fn ast_result(r: Result<AST, Halt>) -> Result<ASTView, HaltView> {
    match r {
        Ok(ast) => Ok(ast@),
        Err(halt) => Err(halt@),
    }
}

/// `found` with what each of `roots` becomes, from index `from` on.
pub open spec fn spec_elements(
    src: Seq<char>,
    roots: Seq<Pair>,
    from: int,
    found: Seq<ElementSpanView>,
    parser: AsciidocParser,
    env: Env,
    depth: nat,
) -> Result<Seq<ElementSpanView>, HaltView>
    decreases roots.len() - from,
{
    if 0 <= from < roots.len() {
        match spec_process_element(src, 0, roots[from], parser, env, depth) {
            Err(halt) => Err(halt),
            Ok(Some(element)) => spec_elements(
                src,
                roots,
                from + 1,
                found.push(element),
                parser,
                env,
                depth,
            ),
            Ok(None) => spec_elements(src, roots, from + 1, found, parser, env, depth),
        }
    } else {
        Ok(found)
    }
}

/// The attributes of a document that comes from `input`: its source, where
/// that is known.
pub open spec fn spec_document_attributes(input: Option<Seq<char>>) -> Seq<AttributeView> {
    match input {
        Some(path) => seq![
            AttributeView { key: "source"@, value: AttributeValueView::String(path) },
        ],
        None => Seq::empty(),
    }
}

/// The document that `input` holds.
///
/// There is one where the grammar is known to accept `input` as a document,
/// and where every text nested in it that has to be read is known to be
/// accepted too, every file that it asks for is known, and nothing is nested
/// deeper than `args` allows. Its elements are what the syntax nodes at the
/// top of `input` become, in the order of the text; its attribute `source`
/// is where `args` says that the text comes from.
///
/// Where there is none, the result says why: which text the grammar has to
/// be run on first, or which file has to be read first, in the order in which
/// the reader comes to need them; or that the grammar rejected a text; or
/// that the nesting is too deep.
pub open spec fn spec_parse(
    input: Seq<char>,
    args: Opts,
    parser: AsciidocParser,
    env: Env,
) -> Result<
    ASTView,
    HaltView,
> {
    match parser.answer(Rule::Asciidoc, input) {
        None => Err(HaltView::Unparsed { rule: Rule::Asciidoc, text: input }),
        Some(Err(message)) => Err(HaltView::Syntax { message }),
        Some(Ok(roots)) => match spec_elements(
            input,
            roots,
            0,
            Seq::empty(),
            parser,
            env,
            args.max_depth as nat,
        ) {
            Err(halt) => Err(halt),
            Ok(elements) => Ok(
                ASTView {
                    content: input,
                    elements,
                    attributes: spec_document_attributes(option_text(args.input)),
                },
            ),
        },
    }
}

/// A reader of documents.
pub struct AsciidocReader {}

impl AsciidocReader {
    /// A reader.
    pub fn new() -> (r: AsciidocReader) {
        AsciidocReader {  }
    }

    /// Reads the document that `input` holds, as far as `parser` and `env`
    /// know what the grammar and the files give.
    pub fn parse<'a>(&self, input: &'a str, args: &Opts, parser: &AsciidocParser, env: &Env) -> (r: Result<AST<'a>, Halt<'a>>)
        requires
            parser.wf(),
        ensures
            ast_result(r) == spec_parse(input@, *args, *parser, *env),
    {
        let roots = match parser.parse(Rule::Asciidoc, input) {
            None => {
                return Err(Halt::Unparsed { rule: Rule::Asciidoc, text: input });
            },
            Some(Err(message)) => {
                return Err(Halt::Syntax { message: message.clone() });
            },
            Some(Ok(roots)) => roots,
        };
        let mut attributes: Vec<Attribute<'a>> = Vec::new();
        match &args.input {
            Some(path) => {
                attributes.push(
                    Attribute {
                        key: String::from_str("source"),
                        value: AttributeValue::String(path.clone()),
                    },
                );
            },
            None => {},
        }
        let mut elements: Vec<ElementSpan<'a>> = Vec::new();
        let mut i: usize = 0;
        assert(span_views(elements@) =~= Seq::empty());
        while i < roots.len()
            invariant
                i <= roots@.len(),
                all_within(roots@, input@, 0),
                parser.wf(),
                parser.answer(Rule::Asciidoc, input@) == Some(
                    Ok::<Seq<Pair>, Seq<char>>(roots@),
                ),
                spec_elements(
                    input@,
                    roots@,
                    i as int,
                    span_views(elements@),
                    *parser,
                    *env,
                    args.max_depth as nat,
                ) == spec_elements(
                    input@,
                    roots@,
                    0,
                    Seq::empty(),
                    *parser,
                    *env,
                    args.max_depth as nat,
                ),
            decreases roots@.len() - i,
        {
            match process_element(input, 0, &roots[i], parser, env, args.max_depth) {
                Err(halt) => {
                    return Err(halt);
                },
                Ok(Some(element)) => {
                    proof {
                        lemma_span_views_push(elements@, element);
                    }
                    elements.push(element);
                },
                Ok(None) => {},
            }
            i = i + 1;
        }
        let ast = AST { content: input, elements, attributes };
        assert(ast@.attributes =~= spec_document_attributes(option_text(args.input)));
        Ok(ast)
    }
}

/// What is to be said of the images of `ast` that ask for the content of
/// their files and do not get it, in the order of the document.
pub fn diagnostics(ast: &AST, env: &Env) -> (r: Vec<String>)
    ensures
        texts(r@) == spec_diagnostics(ast@.elements, 0, *env),
{
    let mut out: Vec<String> = Vec::new();
    assert(texts(out@) =~= Seq::<Seq<char>>::empty());
    collect_diagnostics(&ast.elements, env, &mut out);
    assert(Seq::<Seq<char>>::empty() + spec_diagnostics(ast@.elements, 0, *env) =~= spec_diagnostics(
        ast@.elements,
        0,
        *env,
    ));
    out
}

} // verus!
