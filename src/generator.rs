//! Writing a document tree back to Markdown text.

use vstd::prelude::*;
use crate::block::{lemma_lines_push, lines_in, lines_of, lines_view};
use crate::html::{join_nl, push_chars, push_str, str_chars};
use crate::text::string_of;
use crate::tree::{
    Block, BlockView, ItemView, ListItem, OrderedListType, Span, SpanView, block_view, blocks_view,
    item_view, items_view, lemma_blocks_view_len, lemma_items_view_len, lemma_spans_view_len,
    span_view, spans_view, strings_view,
};

verus! {

pub open spec fn md_span(sp: SpanView) -> Seq<char>
    decreases sp, 0nat,
{
    match sp {
        SpanView::Break => "  \n"@,
        SpanView::Text(x) => x,
        SpanView::Literal(c) => seq!['\\', c],
        SpanView::Code(x) => if x.contains('`') {
            "``"@ + x + "``"@
        } else {
            seq!['`'] + x + seq!['`']
        },
        SpanView::Link(a, b, None) => seq!['['] + md_spans(a) + "]("@ + b + seq![')'],
        SpanView::Link(a, b, Some(c)) => seq!['['] + md_spans(a) + "]("@ + b + " \""@ + c + "\")"@,
        SpanView::RefLink(_, _, raw) => raw,
        SpanView::Image(a, b, None) => "!["@ + a + "]("@ + b + seq![')'],
        SpanView::Image(a, b, Some(c)) => "!["@ + a + "]("@ + b + " \""@ + c + "\")"@,
        SpanView::Emphasis(x) => seq!['*'] + md_spans(x) + seq!['*'],
        SpanView::Strong(x) => "**"@ + md_spans(x) + "**"@,
    }
}

/// The Markdown of spans, written one after the other.
pub open spec fn md_spans(v: Seq<SpanView>) -> Seq<char>
    decreases v, 1nat,
{
    if v.len() == 0 {
        seq![]
    } else {
        md_spans(v.drop_last()) + md_span(v.last())
    }
}

/// Every line prefixed by `p`, but the first when `skip_first`.
pub open spec fn prefix_lines(ls: Seq<Seq<char>>, p: Seq<char>, skip_first: bool) -> Seq<Seq<char>> {
    Seq::new(ls.len(), |k: int| if skip_first && k == 0 { ls[0] } else { p + ls[k] })
}

/// The marker of an ordered list's items.
pub open spec fn marker(t: OrderedListType) -> Seq<char> {
    match t {
        OrderedListType::Numeric => "1."@,
        OrderedListType::Lowercase => "a."@,
        OrderedListType::Uppercase => "A."@,
        OrderedListType::LowercaseRoman => "i."@,
        OrderedListType::UppercaseRoman => "I."@,
    }
}

/// The first text of a paragraph, changed where it would begin a block when
/// read again: an escapable first character gets a backslash, a leading `>`
/// or `=` a space, and the dot that ends an ordered-list marker a backslash.
/// The change renders the same.
pub open spec fn guard_text(t: Seq<char>) -> Seq<char> {
    if t.len() == 0 {
        t
    } else if crate::inline::escapable(t[0]) {
        seq!['\\'] + t
    } else if t[0] == '>' || t[0] == '=' {
        seq![' '] + t
    } else {
        match crate::block::number_begin(t) {
            Some((_, c)) => t.subrange(0, c - 2) + seq!['\\'] + t.subrange(c - 2, t.len() as int),
            None => t,
        }
    }
}

/// A paragraph's Markdown: its spans, with the first one guarded when it is
/// text.
pub open spec fn guard_paragraph(s: Seq<SpanView>) -> Seq<char> {
    if s.len() > 0 && s[0] is Text {
        guard_text(s[0]->Text_0) + md_spans(s.subrange(1, s.len() as int))
    } else {
        md_spans(s)
    }
}

pub open spec fn md_block(b: BlockView) -> Seq<char>
    decreases b, 0nat,
{
    match b {
        BlockView::Header(s, level) => Seq::new(level, |k: int| '#') + seq![' '] + md_spans(s),
        BlockView::Paragraph(s) => guard_paragraph(s),
        BlockView::Blockquote(bb) => join_nl(prefix_lines(lines_of(md_blocks(bb)), "> "@, false)),
        BlockView::CodeBlock(None, x) => join_nl(prefix_lines(x, "    "@, false)),
        BlockView::CodeBlock(Some(lang), x) => "```"@ + lang + seq!['\n'] + join_nl(x) + "\n```"@,
        BlockView::OrderedList(x, t) => md_items(x, marker(t)),
        BlockView::UnorderedList(x) => md_items(x, "*"@),
        BlockView::LinkReference(id, url, None) => seq!['['] + id + "]: "@ + url,
        BlockView::LinkReference(id, url, Some(title)) => seq!['['] + id + "]: "@ + url + " \""@
            + title + seq!['"'],
        BlockView::Raw(x) => x,
        BlockView::Hr => "==="@,
    }
}

pub open spec fn md_item(it: ItemView) -> Seq<char>
    decreases it, 0nat,
{
    match it {
        ItemView::Simple(x) => md_spans(x),
        ItemView::Paragraph(bs) => join_nl(prefix_lines(lines_of(md_blocks(bs)), "    "@, true)) + seq!['\n'],
    }
}

/// The items, each after its marker and a space, one per line.
pub open spec fn md_items(items: Seq<ItemView>, m: Seq<char>) -> Seq<char>
    decreases items, 1nat,
{
    if items.len() == 0 {
        seq![]
    } else if items.len() == 1 {
        m + seq![' '] + md_item(items[0])
    } else {
        md_items(items.drop_last(), m) + seq!['\n'] + m + seq![' '] + md_item(items.last())
    }
}

/// The Markdown of blocks, separated by blank lines.
pub open spec fn md_blocks(bs: Seq<BlockView>) -> Seq<char>
    decreases bs, 1nat,
{
    if bs.len() == 0 {
        seq![]
    } else if bs.len() == 1 {
        md_block(bs[0])
    } else {
        md_blocks(bs.drop_last()) + "\n\n"@ + md_block(bs.last())
    }
}

// ============================================================ executable side

/// Appends the lines `ls`, each prefixed as `prefix_lines` says, joined by
/// newlines.
fn push_prefixed(out: &mut Vec<char>, ls: &Vec<Vec<char>>, p: &str, skip_first: bool)
    ensures
        final(out)@ == old(out)@ + join_nl(prefix_lines(lines_view(ls@), p@, skip_first)),
{
    let ghost pl = prefix_lines(lines_view(ls@), p@, skip_first);
    let ghost start = out@;
    let mut k: usize = 0;
    assert(pl.subrange(0, 0) =~= Seq::<Seq<char>>::empty());
    while k < ls.len()
        invariant
            k <= ls@.len(),
            pl == prefix_lines(lines_view(ls@), p@, skip_first),
            out@ == start + join_nl(pl.subrange(0, k as int)),
        decreases ls@.len() - k,
    {
        if k > 0 {
            out.push('\n');
        }
        let ghost mid = out@;
        if !(skip_first && k == 0) {
            push_str(out, p);
        }
        push_chars(out, ls[k].as_slice(), 0, ls[k].len());
        assert(ls@[k as int]@.subrange(0, ls@[k as int]@.len() as int) =~= ls@[k as int]@);
        assert(out@ =~= mid + pl[k as int]);
        assert(pl.subrange(0, (k + 1) as int).drop_last() =~= pl.subrange(0, k as int));
        k += 1;
        assert(out@ =~= start + join_nl(pl.subrange(0, k as int)));
    }
    assert(pl.subrange(0, ls@.len() as int) =~= pl);
}

fn push_md_span(out: &mut Vec<char>, sp: &Span)
    ensures
        final(out)@ == old(out)@ + md_span(span_view(*sp)),
    decreases sp, 0usize,
{
    let ghost start = out@;
    match sp {
        Span::Break => {
            push_str(out, "  \n");
        },
        Span::Text(x) => {
            let c = str_chars(x);
            push_chars(out, c.as_slice(), 0, c.len());
            assert(c@.subrange(0, c@.len() as int) =~= c@);
        },
        Span::Literal(c) => {
            out.push('\\');
            out.push(*c);
        },
        Span::Code(x) => {
            let c = str_chars(x);
            let tick = has_tick(c.as_slice());
            if tick {
                push_str(out, "``");
            } else {
                out.push('`');
            }
            push_chars(out, c.as_slice(), 0, c.len());
            assert(c@.subrange(0, c@.len() as int) =~= c@);
            if tick {
                push_str(out, "``");
            } else {
                out.push('`');
            }
        },
        Span::Link(a, b, t) => {
            out.push('[');
            push_md_spans(out, a);
            push_str(out, "](");
            push_str(out, b.as_str());
            match t {
                Some(c) => {
                    push_str(out, " \"");
                    push_str(out, c.as_str());
                    push_str(out, "\")");
                },
                None => {
                    out.push(')');
                },
            }
        },
        Span::RefLink(_, _, raw) => {
            push_str(out, raw.as_str());
        },
        Span::Image(a, b, t) => {
            push_str(out, "![");
            push_str(out, a.as_str());
            push_str(out, "](");
            push_str(out, b.as_str());
            match t {
                Some(c) => {
                    push_str(out, " \"");
                    push_str(out, c.as_str());
                    push_str(out, "\")");
                },
                None => {
                    out.push(')');
                },
            }
        },
        Span::Emphasis(x) => {
            out.push('*');
            push_md_spans(out, x);
            out.push('*');
        },
        Span::Strong(x) => {
            push_str(out, "**");
            push_md_spans(out, x);
            push_str(out, "**");
        },
    }
    assert(out@ =~= start + md_span(span_view(*sp)));
}

fn push_md_spans(out: &mut Vec<char>, v: &Vec<Span>)
    ensures
        final(out)@ == old(out)@ + md_spans(spans_view(v@)),
    decreases v, 2usize,
{
    proof {
        lemma_spans_view_len(v@);
    }
    push_md_spans_from(out, v, 0);
    assert(spans_view(v@).subrange(0, v@.len() as int) =~= spans_view(v@));
}

/// Appends the Markdown of the spans `v[from..]`.
fn push_md_spans_from(out: &mut Vec<char>, v: &Vec<Span>, from: usize)
    requires
        from <= v@.len(),
    ensures
        final(out)@ == old(out)@ + md_spans(spans_view(v@).subrange(from as int, v@.len() as int)),
    decreases v, 1usize,
{
    proof {
        lemma_spans_view_len(v@);
    }
    let ghost sv = spans_view(v@);
    let ghost start = out@;
    let mut k: usize = from;
    assert(start + md_spans(sv.subrange(from as int, from as int)) =~= start);
    while k < v.len()
        invariant
            from <= k <= v@.len(),
            sv == spans_view(v@),
            sv.len() == v@.len(),
            forall|m: int| 0 <= m < v@.len() ==> #[trigger] sv[m] == span_view(v@[m]),
            out@ == start + md_spans(sv.subrange(from as int, k as int)),
        decreases v@.len() - k,
    {
        assert(sv.subrange(from as int, (k + 1) as int).drop_last() =~= sv.subrange(
            from as int,
            k as int,
        ));
        push_md_span(out, &v[k]);
        k += 1;
        assert(out@ =~= start + md_spans(sv.subrange(from as int, k as int)));
    }
}

fn has_tick(c: &[char]) -> (r: bool)
    ensures
        r == c@.contains('`'),
{
    let mut k: usize = 0;
    while k < c.len()
        invariant
            k <= c@.len(),
            forall|m: int| 0 <= m < k ==> c@[m] != '`',
        decreases c@.len() - k,
    {
        if c[k] == '`' {
            assert(c@[k as int] == '`');
            return true;
        }
        k += 1;
    }
    false
}

/// Appends `guard_text(t)`.
fn push_guarded(out: &mut Vec<char>, t: &[char])
    ensures
        final(out)@ == old(out)@ + guard_text(t@),
{
    let ghost start = out@;
    if t.len() == 0 {
        assert(out@ =~= start + guard_text(t@));
        return;
    }
    let c = t[0];
    if c == '\\' || c == '`' || c == '*' || c == '_' || c == '{' || c == '}' || c == '[' || c == ']'
        || c == '(' || c == ')' || c == '#' || c == '+' || c == '-' || c == '.' || c == '!' {
        out.push('\\');
        push_chars(out, t, 0, t.len());
    } else if c == '>' || c == '=' {
        out.push(' ');
        push_chars(out, t, 0, t.len());
    } else {
        match crate::block::item_begin_in(t, true) {
            Some((_, b)) => {
                proof {
                    crate::block::lemma_number_marker(t@);
                }
                push_chars(out, t, 0, b - 2);
                out.push('\\');
                push_chars(out, t, b - 2, t.len());
            },
            None => {
                push_chars(out, t, 0, t.len());
            },
        }
    }
    assert(t@.subrange(0, t@.len() as int) =~= t@);
    assert(out@ =~= start + guard_text(t@));
}

fn marker_str(t: OrderedListType) -> (r: &'static str)
    ensures
        r@ == marker(t),
{
    match t {
        OrderedListType::Numeric => "1.",
        OrderedListType::Lowercase => "a.",
        OrderedListType::Uppercase => "A.",
        OrderedListType::LowercaseRoman => "i.",
        OrderedListType::UppercaseRoman => "I.",
    }
}

fn strings_to_lines(x: &Vec<String>) -> (r: Vec<Vec<char>>)
    ensures
        lines_view(r@) == strings_view(x@),
{
    let mut out: Vec<Vec<char>> = Vec::new();
    let mut k: usize = 0;
    while k < x.len()
        invariant
            k <= x@.len(),
            lines_view(out@) =~= strings_view(x@).subrange(0, k as int),
        decreases x@.len() - k,
    {
        let l = str_chars(&x[k]);
        proof {
            lemma_lines_push(out@, l);
        }
        out.push(l);
        k += 1;
    }
    out
}

fn push_md_block(out: &mut Vec<char>, b: &Block)
    ensures
        final(out)@ == old(out)@ + md_block(block_view(*b)),
    decreases b, 0usize,
{
    let ghost start = out@;
    match b {
        Block::Header(s, level) => {
            let mut k: usize = 0;
            while k < *level
                invariant
                    k <= *level,
                    out@ =~= start + Seq::new(k as nat, |m: int| '#'),
                decreases *level - k,
            {
                out.push('#');
                k += 1;
            }
            out.push(' ');
            push_md_spans(out, s);
            assert(out@ =~= start + md_block(block_view(*b)));
        },
        Block::Paragraph(s) => {
            proof {
                lemma_spans_view_len(s@);
            }
            if s.len() > 0 {
                match &s[0] {
                    Span::Text(t) => {
                        push_guarded(out, str_chars(t).as_slice());
                        push_md_spans_from(out, s, 1);
                    },
                    _ => {
                        push_md_spans(out, s);
                    },
                }
            } else {
                push_md_spans(out, s);
            }
        },
        Block::Blockquote(bb) => {
            let inner = md_blocks_in(bb);
            let ls = lines_in(inner.as_slice());
            push_prefixed(out, &ls, "> ", false);
        },
        Block::CodeBlock(lang, x) => {
            match lang {
                None => {
                    let ls = strings_to_lines(x);
                    push_prefixed(out, &ls, "    ", false);
                },
                Some(l) => {
                    push_str(out, "```");
                    push_str(out, l.as_str());
                    out.push('\n');
                    let j = crate::html::join_lines_in(x);
                    push_chars(out, j.as_slice(), 0, j.len());
                    assert(j@.subrange(0, j@.len() as int) =~= j@);
                    push_str(out, "\n```");
                },
            }
        },
        Block::OrderedList(x, t) => {
            push_md_items(out, x, marker_str(*t));
        },
        Block::UnorderedList(x) => {
            push_md_items(out, x, "*");
        },
        Block::LinkReference(id, url, t) => {
            out.push('[');
            push_str(out, id.as_str());
            push_str(out, "]: ");
            push_str(out, url.as_str());
            match t {
                Some(title) => {
                    push_str(out, " \"");
                    push_str(out, title.as_str());
                    out.push('"');
                },
                None => {},
            }
        },
        Block::Raw(x) => {
            push_str(out, x.as_str());
        },
        Block::Hr => {
            push_str(out, "===");
        },
    }
    assert(out@ =~= start + md_block(block_view(*b)));
}

fn push_md_item(out: &mut Vec<char>, it: &ListItem)
    ensures
        final(out)@ == old(out)@ + md_item(item_view(*it)),
    decreases it, 0usize,
{
    let ghost start = out@;
    match it {
        ListItem::Simple(x) => {
            push_md_spans(out, x);
        },
        ListItem::Paragraph(bs) => {
            let inner = md_blocks_in(bs);
            let ls = lines_in(inner.as_slice());
            push_prefixed(out, &ls, "    ", true);
            out.push('\n');
        },
    }
    assert(out@ =~= start + md_item(item_view(*it)));
}

fn push_md_items(out: &mut Vec<char>, items: &Vec<ListItem>, m: &str)
    ensures
        final(out)@ == old(out)@ + md_items(items_view(items@), m@),
    decreases items, 1usize,
{
    proof {
        lemma_items_view_len(items@);
    }
    let ghost iv = items_view(items@);
    let ghost start = out@;
    let mut k: usize = 0;
    assert(start + md_items(iv.subrange(0, 0), m@) =~= start);
    while k < items.len()
        invariant
            k <= items@.len(),
            iv == items_view(items@),
            iv.len() == items@.len(),
            forall|j: int| 0 <= j < items@.len() ==> #[trigger] iv[j] == item_view(items@[j]),
            out@ == start + md_items(iv.subrange(0, k as int), m@),
        decreases items@.len() - k,
    {
        assert(iv.subrange(0, (k + 1) as int).drop_last() =~= iv.subrange(0, k as int));
        if k > 0 {
            out.push('\n');
        }
        push_str(out, m);
        out.push(' ');
        push_md_item(out, &items[k]);
        k += 1;
        assert(out@ =~= start + md_items(iv.subrange(0, k as int), m@));
    }
    assert(iv.subrange(0, items@.len() as int) =~= iv);
}

fn md_blocks_in(bs: &Vec<Block>) -> (r: Vec<char>)
    ensures
        r@ == md_blocks(blocks_view(bs@)),
    decreases bs, 1usize,
{
    proof {
        lemma_blocks_view_len(bs@);
    }
    let ghost bv = blocks_view(bs@);
    let mut out: Vec<char> = Vec::new();
    let mut k: usize = 0;
    assert(out@ =~= md_blocks(bv.subrange(0, 0)));
    while k < bs.len()
        invariant
            k <= bs@.len(),
            bv == blocks_view(bs@),
            bv.len() == bs@.len(),
            forall|j: int| 0 <= j < bs@.len() ==> #[trigger] bv[j] == block_view(bs@[j]),
            out@ == md_blocks(bv.subrange(0, k as int)),
        decreases bs@.len() - k,
    {
        assert(bv.subrange(0, (k + 1) as int).drop_last() =~= bv.subrange(0, k as int));
        if k > 0 {
            push_str(&mut out, "\n\n");
        }
        push_md_block(&mut out, &bs[k]);
        k += 1;
        assert(out@ =~= md_blocks(bv.subrange(0, k as int)));
    }
    assert(bv.subrange(0, bs@.len() as int) =~= bv);
    out
}

/// Writes blocks back to Markdown text.
pub fn generate(data: Vec<Block>) -> (r: String)
    ensures
        r@ == md_blocks(blocks_view(data@)),
{
    let v = md_blocks_in(&data);
    string_of(v.as_slice(), 0, v.len())
}

} // verus!
