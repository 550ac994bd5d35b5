//! The document model: a tree of elements, each with its place in the text,
//! its attributes and its children.

use vstd::prelude::*;
use vstd::string::*;
use crate::text::same_text;

verus! {

/// How the items of a list are marked.
#[derive(Clone, Copy, PartialEq, Eq, Structural, Debug)]
pub enum ListType {
    Bullet,
    Number,
}

/// What a delimited block holds.
#[derive(Clone, Copy, PartialEq, Eq, Structural, Debug)]
pub enum BlockType {
    Comment,
    Listing,
    Example,
}

/// What an element of the document is.
#[derive(Clone, PartialEq, Eq, Debug)]
pub enum Element {
    Text,
    Paragraph,
    Title { level: u32 },
    List(ListType),
    /// An item of a list, with the length of its marker.
    ListItem(u32),
    TypedBlock { kind: BlockType },
    Table,
    TableRow,
    TableCell,
    Styled,
    Link,
    XRef,
    Image,
    /// Stands where something could not be read, with the reason.
    Error(String),
}

/// The mathematical value of an [`Element`].
pub ghost enum ElementView {
    Text,
    Paragraph,
    Title { level: u32 },
    List(ListType),
    ListItem(u32),
    TypedBlock { kind: BlockType },
    Table,
    TableRow,
    TableCell,
    Styled,
    Link,
    XRef,
    Image,
    Error(Seq<char>),
}

impl View for Element {
    type V = ElementView;

    open spec fn view(&self) -> ElementView {
        match *self {
            Element::Text => ElementView::Text,
            Element::Paragraph => ElementView::Paragraph,
            Element::Title { level } => ElementView::Title { level },
            Element::List(kind) => ElementView::List(kind),
            Element::ListItem(length) => ElementView::ListItem(length),
            Element::TypedBlock { kind } => ElementView::TypedBlock { kind },
            Element::Table => ElementView::Table,
            Element::TableRow => ElementView::TableRow,
            Element::TableCell => ElementView::TableCell,
            Element::Styled => ElementView::Styled,
            Element::Link => ElementView::Link,
            Element::XRef => ElementView::XRef,
            Element::Image => ElementView::Image,
            Element::Error(message) => ElementView::Error(message@),
        }
    }
}

impl Element {
    /// A copy of the element.
    pub fn duplicate(&self) -> (r: Element)
        ensures
            r@ == self@,
    {
        match self {
            Element::Text => Element::Text,
            Element::Paragraph => Element::Paragraph,
            Element::Title { level } => Element::Title { level: *level },
            Element::List(kind) => Element::List(*kind),
            Element::ListItem(length) => Element::ListItem(*length),
            Element::TypedBlock { kind } => Element::TypedBlock { kind: *kind },
            Element::Table => Element::Table,
            Element::TableRow => Element::TableRow,
            Element::TableCell => Element::TableCell,
            Element::Styled => Element::Styled,
            Element::Link => Element::Link,
            Element::XRef => Element::XRef,
            Element::Image => Element::Image,
            Element::Error(message) => Element::Error(message.clone()),
        }
    }
}

/// The value of an attribute: a piece of the text, or a string made for it.
#[derive(Clone, PartialEq, Eq, Debug)]
pub enum AttributeValue<'a> {
    String(String),
    Ref(&'a str),
}

/// The mathematical value of an [`AttributeValue`].
pub ghost enum AttributeValueView {
    String(Seq<char>),
    Ref(Seq<char>),
}

impl AttributeValueView {
    /// The characters of the value, made or borrowed.
    pub open spec fn text(self) -> Seq<char> {
        match self {
            AttributeValueView::String(s) => s,
            AttributeValueView::Ref(s) => s,
        }
    }
}

impl<'a> View for AttributeValue<'a> {
    type V = AttributeValueView;

    open spec fn view(&self) -> AttributeValueView {
        match *self {
            AttributeValue::String(s) => AttributeValueView::String(s@),
            AttributeValue::Ref(s) => AttributeValueView::Ref(s@),
        }
    }
}

impl<'a> AttributeValue<'a> {
    /// The characters of the value.
    pub fn as_str(&self) -> (r: &str)
        ensures
            r@ == self@.text(),
    {
        match self {
            AttributeValue::String(s) => s.as_str(),
            AttributeValue::Ref(s) => s,
        }
    }

    /// A copy of the value.
    pub fn duplicate(&self) -> (r: AttributeValue<'a>)
        ensures
            r@ == self@,
    {
        match self {
            AttributeValue::String(s) => AttributeValue::String(s.clone()),
            AttributeValue::Ref(s) => AttributeValue::Ref(s),
        }
    }
}

/// A key with its value.
#[derive(Clone, PartialEq, Eq, Debug)]
pub struct Attribute<'a> {
    pub key: String,
    pub value: AttributeValue<'a>,
}

/// The mathematical value of an [`Attribute`].
pub ghost struct AttributeView {
    pub key: Seq<char>,
    pub value: AttributeValueView,
}

impl<'a> View for Attribute<'a> {
    type V = AttributeView;

    open spec fn view(&self) -> AttributeView {
        AttributeView { key: self.key@, value: self.value@ }
    }
}

/// The values of a run of attributes.
pub open spec fn attribute_views(attributes: Seq<Attribute>) -> Seq<AttributeView> {
    Seq::new(attributes.len(), |i: int| attributes[i]@)
}

/// The values of a run of attribute values.
pub open spec fn value_views(values: Seq<AttributeValue>) -> Seq<AttributeValueView> {
    Seq::new(values.len(), |i: int| values[i]@)
}

/// The value of the first of `attributes`, from index `from` on, whose key is
/// `key`.
pub open spec fn lookup_from(attributes: Seq<AttributeView>, key: Seq<char>, from: int) -> Option<
    Seq<char>,
>
    decreases attributes.len() - from,
{
    if from < 0 || from >= attributes.len() {
        None
    } else if attributes[from].key == key {
        Some(attributes[from].value.text())
    } else {
        lookup_from(attributes, key, from + 1)
    }
}

/// The value of the first of `attributes` whose key is `key`.
pub open spec fn lookup(attributes: Seq<AttributeView>, key: Seq<char>) -> Option<Seq<char>> {
    lookup_from(attributes, key, 0)
}

/// An element with its place in the text it was read from: the bytes
/// `start..end`, the line and the column of both ends, and the text between
/// them.
#[derive(PartialEq, Eq, Debug)]
pub struct ElementSpan<'a> {
    pub element: Element,
    pub content: &'a str,
    pub children: Vec<ElementSpan<'a>>,
    pub attributes: Vec<Attribute<'a>>,
    pub positional_attributes: Vec<AttributeValue<'a>>,
    pub start: usize,
    pub end: usize,
    pub start_line: usize,
    pub start_col: usize,
    pub end_line: usize,
    pub end_col: usize,
}

/// The mathematical value of an [`ElementSpan`].
pub ghost struct ElementSpanView {
    pub element: ElementView,
    pub content: Seq<char>,
    pub children: Seq<ElementSpanView>,
    pub attributes: Seq<AttributeView>,
    pub positional_attributes: Seq<AttributeValueView>,
    pub start: nat,
    pub end: nat,
    pub start_line: nat,
    pub start_col: nat,
    pub end_line: nat,
    pub end_col: nat,
}

impl ElementSpanView {
    /// The same node as another kind of element.
    pub open spec fn with_element(self, element: ElementView) -> ElementSpanView {
        ElementSpanView { element, ..self }
    }

    /// The same node at the place of `place`, with the content of `place`.
    pub open spec fn with_place(self, place: ElementSpanView) -> ElementSpanView {
        ElementSpanView {
            content: place.content,
            start: place.start,
            end: place.end,
            start_line: place.start_line,
            start_col: place.start_col,
            end_line: place.end_line,
            end_col: place.end_col,
            ..self
        }
    }

    /// The same node with one more attribute, after those it has.
    pub open spec fn add_attribute(
        self,
        key: Seq<char>,
        value: AttributeValueView,
    ) -> ElementSpanView {
        ElementSpanView { attributes: self.attributes.push(AttributeView { key, value }), ..self }
    }

    /// The same node with one more positional attribute, after those it has.
    pub open spec fn add_positional(self, value: AttributeValueView) -> ElementSpanView {
        ElementSpanView {
            positional_attributes: self.positional_attributes.push(value),
            ..self
        }
    }

    /// The same node with one more child, after those it has.
    pub open spec fn add_child(self, child: ElementSpanView) -> ElementSpanView {
        ElementSpanView { children: self.children.push(child), ..self }
    }

    /// The value of the node's first attribute with the key `key`.
    pub open spec fn attribute(self, key: Seq<char>) -> Option<Seq<char>> {
        lookup(self.attributes, key)
    }
}

/// The value of a node.
pub open spec fn span_view(span: ElementSpan) -> ElementSpanView
    decreases span, 0int,
{
    ElementSpanView {
        element: span.element@,
        content: span.content@,
        children: span_views(span.children@),
        attributes: attribute_views(span.attributes@),
        positional_attributes: value_views(span.positional_attributes@),
        start: span.start as nat,
        end: span.end as nat,
        start_line: span.start_line as nat,
        start_col: span.start_col as nat,
        end_line: span.end_line as nat,
        end_col: span.end_col as nat,
    }
}

/// The values of a run of nodes.
pub open spec fn span_views(spans: Seq<ElementSpan>) -> Seq<ElementSpanView>
    decreases spans, spans.len(),
{
    if spans.len() == 0 {
        Seq::empty()
    } else {
        span_views(spans.drop_last()).push(span_view(spans.last()))
    }
}

impl<'a> View for ElementSpan<'a> {
    type V = ElementSpanView;

    open spec fn view(&self) -> ElementSpanView {
        span_view(*self)
    }
}

/// The values of a run of nodes are the values of its nodes, in their order.
pub proof fn lemma_span_views(spans: Seq<ElementSpan>)
    ensures
        span_views(spans).len() == spans.len(),
        forall|i: int| 0 <= i < spans.len() ==> (#[trigger] span_views(spans)[i]) == spans[i]@,
    decreases spans.len(),
{
    if spans.len() > 0 {
        lemma_span_views(spans.drop_last());
    }
}

/// The values of a run of nodes with one more node at its end.
pub proof fn lemma_span_views_push(spans: Seq<ElementSpan>, last: ElementSpan)
    ensures
        span_views(spans.push(last)) == span_views(spans).push(last@),
{
    assert(spans.push(last).drop_last() =~= spans);
}

impl<'a> ElementSpan<'a> {
    /// Appends an attribute.
    pub fn add_attribute(&mut self, key: &str, value: AttributeValue<'a>)
        ensures
            final(self)@ == old(self)@.add_attribute(key@, value@),
    {
        self.attributes.push(Attribute { key: String::from_str(key), value });
        assert(attribute_views(self.attributes@) =~= attribute_views(old(self).attributes@).push(
            AttributeView { key: key@, value: value@ },
        ));
    }

    /// Appends a positional attribute.
    pub fn add_positional(&mut self, value: AttributeValue<'a>)
        ensures
            final(self)@ == old(self)@.add_positional(value@),
    {
        self.positional_attributes.push(value);
        assert(value_views(self.positional_attributes@) =~= value_views(
            old(self).positional_attributes@,
        ).push(value@));
    }

    /// Appends a child.
    pub fn add_child(&mut self, child: ElementSpan<'a>)
        ensures
            final(self)@ == old(self)@.add_child(child@),
    {
        self.children.push(child);
        proof {
            lemma_span_views_push(old(self).children@, child);
        }
    }

    /// The value of the first attribute with the key `key`.
    pub fn get_attribute(&self, key: &str) -> (r: Option<&str>)
        ensures
            r is Some <==> self@.attribute(key@) is Some,
            r is Some ==> self@.attribute(key@) == Some(r.unwrap()@),
    {
        let ghost all = attribute_views(self.attributes@);
        let mut i: usize = 0;
        while i < self.attributes.len()
            invariant
                i <= self.attributes@.len(),
                all == attribute_views(self.attributes@),
                lookup_from(all, key@, i as int) == lookup(all, key@),
            decreases self.attributes@.len() - i,
        {
            if same_text(self.attributes[i].key.as_str(), key) {
                return Some(self.attributes[i].value.as_str());
            }
            i = i + 1;
        }
        None
    }

    /// A copy of the node and of all below it.
    pub fn duplicate(&self) -> (r: ElementSpan<'a>)
        ensures
            r@ == self@,
        decreases *self,
    {
        let mut children: Vec<ElementSpan<'a>> = Vec::new();
        let mut i: usize = 0;
        while i < self.children.len()
            invariant
                i <= self.children@.len(),
                children@.len() == i,
                forall|k: int| 0 <= k < i ==> (#[trigger] children@[k])@ == self.children@[k]@,
            decreases self.children@.len() - i,
        {
            children.push(self.children[i].duplicate());
            i = i + 1;
        }
        let mut attributes: Vec<Attribute<'a>> = Vec::new();
        let mut j: usize = 0;
        while j < self.attributes.len()
            invariant
                j <= self.attributes@.len(),
                attributes@.len() == j,
                forall|k: int| 0 <= k < j ==> (#[trigger] attributes@[k])@ == self.attributes@[k]@,
            decreases self.attributes@.len() - j,
        {
            attributes.push(
                Attribute {
                    key: self.attributes[j].key.clone(),
                    value: self.attributes[j].value.duplicate(),
                },
            );
            j = j + 1;
        }
        let mut positional: Vec<AttributeValue<'a>> = Vec::new();
        let mut n: usize = 0;
        while n < self.positional_attributes.len()
            invariant
                n <= self.positional_attributes@.len(),
                positional@.len() == n,
                forall|k: int|
                    0 <= k < n ==> (#[trigger] positional@[k])@ == self.positional_attributes@[k]@,
            decreases self.positional_attributes@.len() - n,
        {
            positional.push(self.positional_attributes[n].duplicate());
            n = n + 1;
        }
        let r = ElementSpan {
            element: self.element.duplicate(),
            content: self.content,
            children,
            attributes,
            positional_attributes: positional,
            start: self.start,
            end: self.end,
            start_line: self.start_line,
            start_col: self.start_col,
            end_line: self.end_line,
            end_col: self.end_col,
        };
        proof {
            lemma_span_views(r.children@);
            lemma_span_views(self.children@);
        }
        assert(r@.children =~= self@.children);
        assert(r@.attributes =~= self@.attributes);
        assert(r@.positional_attributes =~= self@.positional_attributes);
        r
    }
}

/// A document: its text, its elements in the order of the text, and its
/// attributes.
#[derive(PartialEq, Eq, Debug)]
pub struct AST<'a> {
    pub content: &'a str,
    pub elements: Vec<ElementSpan<'a>>,
    pub attributes: Vec<Attribute<'a>>,
}

/// The mathematical value of an [`AST`].
pub ghost struct ASTView {
    pub content: Seq<char>,
    pub elements: Seq<ElementSpanView>,
    pub attributes: Seq<AttributeView>,
}

impl<'a> View for AST<'a> {
    type V = ASTView;

    open spec fn view(&self) -> ASTView {
        ASTView {
            content: self.content@,
            elements: span_views(self.elements@),
            attributes: attribute_views(self.attributes@),
        }
    }
}

} // verus!
