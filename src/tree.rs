//! The document tree: blocks that hold inline spans, and their mathematical
//! models.

use vstd::prelude::*;

verus! {

/// The numbering style of an ordered list, fixed by its first marker.
#[derive(Debug, PartialEq, Eq, Clone, Copy, Structural)]
pub enum OrderedListType {
    /// `1.`, `2.`, ...
    Numeric,
    /// `a.`, `b.`, ...
    Lowercase,
    /// `A.`, `B.`, ...
    Uppercase,
    /// `i.`, `ii.`, ...
    LowercaseRoman,
    /// `I.`, `II.`, ...
    UppercaseRoman,
}

impl OrderedListType {
    /// The value of the `type` attribute of an HTML ordered list.
    pub fn to_html_type(&self) -> (r: &'static str)
        ensures
            r@ == crate::html::html_type(*self),
    {
        match self {
            OrderedListType::Lowercase => "a",
            OrderedListType::Uppercase => "A",
            OrderedListType::LowercaseRoman => "i",
            OrderedListType::UppercaseRoman => "I",
            OrderedListType::Numeric => "1",
        }
    }
}

/// Inline content.
#[derive(Debug, PartialEq)]
pub enum Span {
    /// A hard line break.
    Break,
    Text(String),
    Code(String),
    /// An escaped character, shown as it is.
    Literal(char),
    /// Content, url, optional title.
    Link(Vec<Span>, String, Option<String>),
    /// Content, normalized reference id, and the raw source text that stands
    /// in when the reference cannot be resolved.
    RefLink(Vec<Span>, String, String),
    /// Alternative text, url, optional title.
    Image(String, String, Option<String>),
    Emphasis(Vec<Span>),
    Strong(Vec<Span>),
}

/// An item of a list: one line of spans, or nested blocks.
#[derive(Debug, PartialEq)]
pub enum ListItem {
    Simple(Vec<Span>),
    Paragraph(Vec<Block>),
}

/// A block of the document.
#[derive(Debug, PartialEq)]
pub enum Block {
    /// Content and level (1 to 6).
    Header(Vec<Span>, usize),
    Paragraph(Vec<Span>),
    Blockquote(Vec<Block>),
    /// Optional language tag and the verbatim content lines.
    CodeBlock(Option<String>, Vec<String>),
    /// Id (case-folded), url, optional title.
    LinkReference(String, String, Option<String>),
    OrderedList(Vec<ListItem>, OrderedListType),
    UnorderedList(Vec<ListItem>),
    /// Content passed through as it is.
    Raw(String),
    Hr,
}

/// The model of a [`Span`].
pub enum SpanView {
    Break,
    Text(Seq<char>),
    Code(Seq<char>),
    Literal(char),
    Link(Seq<SpanView>, Seq<char>, Option<Seq<char>>),
    RefLink(Seq<SpanView>, Seq<char>, Seq<char>),
    Image(Seq<char>, Seq<char>, Option<Seq<char>>),
    Emphasis(Seq<SpanView>),
    Strong(Seq<SpanView>),
}

/// The model of a [`ListItem`].
pub enum ItemView {
    Simple(Seq<SpanView>),
    Paragraph(Seq<BlockView>),
}

/// The model of a [`Block`].
pub enum BlockView {
    Header(Seq<SpanView>, nat),
    Paragraph(Seq<SpanView>),
    Blockquote(Seq<BlockView>),
    CodeBlock(Option<Seq<char>>, Seq<Seq<char>>),
    LinkReference(Seq<char>, Seq<char>, Option<Seq<char>>),
    OrderedList(Seq<ItemView>, OrderedListType),
    UnorderedList(Seq<ItemView>),
    Raw(Seq<char>),
    Hr,
}

pub open spec fn opt_view(o: Option<String>) -> Option<Seq<char>> {
    match o {
        Some(s) => Some(s@),
        None => None,
    }
}

pub open spec fn strings_view(v: Seq<String>) -> Seq<Seq<char>> {
    Seq::new(v.len(), |i: int| v[i]@)
}

pub open spec fn span_view(s: Span) -> SpanView
    decreases s,
{
    match s {
        Span::Break => SpanView::Break,
        Span::Text(t) => SpanView::Text(t@),
        Span::Code(t) => SpanView::Code(t@),
        Span::Literal(c) => SpanView::Literal(c),
        Span::Link(c, u, t) => SpanView::Link(spans_view(c@), u@, opt_view(t)),
        Span::RefLink(c, r, raw) => SpanView::RefLink(spans_view(c@), r@, raw@),
        Span::Image(a, u, t) => SpanView::Image(a@, u@, opt_view(t)),
        Span::Emphasis(c) => SpanView::Emphasis(spans_view(c@)),
        Span::Strong(c) => SpanView::Strong(spans_view(c@)),
    }
}

pub open spec fn spans_view(v: Seq<Span>) -> Seq<SpanView>
    decreases v,
{
    if v.len() == 0 {
        Seq::empty()
    } else {
        spans_view(v.drop_last()).push(span_view(v.last()))
    }
}

pub open spec fn item_view(it: ListItem) -> ItemView
    decreases it,
{
    match it {
        ListItem::Simple(v) => ItemView::Simple(spans_view(v@)),
        ListItem::Paragraph(v) => ItemView::Paragraph(blocks_view(v@)),
    }
}

pub open spec fn items_view(v: Seq<ListItem>) -> Seq<ItemView>
    decreases v,
{
    if v.len() == 0 {
        Seq::empty()
    } else {
        items_view(v.drop_last()).push(item_view(v.last()))
    }
}

pub open spec fn block_view(b: Block) -> BlockView
    decreases b,
{
    match b {
        Block::Header(v, level) => BlockView::Header(spans_view(v@), level as nat),
        Block::Paragraph(v) => BlockView::Paragraph(spans_view(v@)),
        Block::Blockquote(v) => BlockView::Blockquote(blocks_view(v@)),
        Block::CodeBlock(lang, lines) => BlockView::CodeBlock(opt_view(lang), strings_view(lines@)),
        Block::LinkReference(id, url, title) => BlockView::LinkReference(id@, url@, opt_view(title)),
        Block::OrderedList(v, t) => BlockView::OrderedList(items_view(v@), t),
        Block::UnorderedList(v) => BlockView::UnorderedList(items_view(v@)),
        Block::Raw(t) => BlockView::Raw(t@),
        Block::Hr => BlockView::Hr,
    }
}

pub open spec fn blocks_view(v: Seq<Block>) -> Seq<BlockView>
    decreases v,
{
    if v.len() == 0 {
        Seq::empty()
    } else {
        blocks_view(v.drop_last()).push(block_view(v.last()))
    }
}

pub proof fn lemma_spans_view_push(v: Seq<Span>, x: Span)
    ensures
        spans_view(v.push(x)) == spans_view(v).push(span_view(x)),
{
    assert(v.push(x).drop_last() =~= v);
}

pub proof fn lemma_blocks_view_push(v: Seq<Block>, x: Block)
    ensures
        blocks_view(v.push(x)) == blocks_view(v).push(block_view(x)),
{
    assert(v.push(x).drop_last() =~= v);
}

pub proof fn lemma_items_view_push(v: Seq<ListItem>, x: ListItem)
    ensures
        items_view(v.push(x)) == items_view(v).push(item_view(x)),
{
    assert(v.push(x).drop_last() =~= v);
}

pub proof fn lemma_spans_view_len(v: Seq<Span>)
    ensures
        spans_view(v).len() == v.len(),
        forall|k: int| 0 <= k < v.len() ==> #[trigger] spans_view(v)[k] == span_view(v[k]),
    decreases v.len(),
{
    if v.len() > 0 {
        lemma_spans_view_len(v.drop_last());
    }
}

pub proof fn lemma_blocks_view_len(v: Seq<Block>)
    ensures
        blocks_view(v).len() == v.len(),
        forall|k: int| 0 <= k < v.len() ==> #[trigger] blocks_view(v)[k] == block_view(v[k]),
    decreases v.len(),
{
    if v.len() > 0 {
        lemma_blocks_view_len(v.drop_last());
    }
}

pub proof fn lemma_items_view_len(v: Seq<ListItem>)
    ensures
        items_view(v).len() == v.len(),
        forall|k: int| 0 <= k < v.len() ==> #[trigger] items_view(v)[k] == item_view(v[k]),
    decreases v.len(),
{
    if v.len() > 0 {
        lemma_items_view_len(v.drop_last());
    }
}

/// Views of a concatenation.
pub proof fn lemma_spans_view_concat(a: Seq<Span>, b: Seq<Span>)
    ensures
        spans_view(a + b) == spans_view(a) + spans_view(b),
    decreases b.len(),
{
    if b.len() == 0 {
        assert(a + b =~= a);
        assert(spans_view(a) + spans_view(b) =~= spans_view(a));
    } else {
        lemma_spans_view_concat(a, b.drop_last());
        assert((a + b).drop_last() =~= a + b.drop_last());
        assert((a + b).last() == b.last());
    }
}

} // verus!
