//! Rendering a document tree to HTML.
//!
//! Link references are collected from the block list being rendered; a
//! reference link is resolved by its id, then by the slug of its content,
//! and otherwise rendered as its raw source text.

use vstd::prelude::*;
use crate::block::{last_before, word_end};
use crate::text::{chars_of, lower_of, lowercase, skip_ws_back_exec, skip_ws_exec, string_of, trim};
use crate::tree::{
    Block, BlockView, ItemView, ListItem, OrderedListType, Span, SpanView, block_view, blocks_view,
    item_view, items_view, lemma_blocks_view_len, lemma_items_view_len, lemma_spans_view_len,
    span_view, spans_view, strings_view,
};

verus! {

/// A link reference: id, url, optional title.
pub type RefEntry = (Seq<char>, Seq<char>, Option<Seq<char>>);

/// The link references among `bs`, in order.
pub open spec fn refs_of(bs: Seq<BlockView>) -> Seq<RefEntry>
    decreases bs.len(),
{
    if bs.len() == 0 {
        seq![]
    } else {
        let r = refs_of(bs.drop_last());
        match bs.last() {
            BlockView::LinkReference(id, url, t) => r.push((id, url, t)),
            _ => r,
        }
    }
}

/// The url and title of the last reference with id `key`.
pub open spec fn lookup(refs: Seq<RefEntry>, key: Seq<char>) -> Option<(Seq<char>, Option<Seq<char>>)>
    decreases refs.len(),
{
    if refs.len() == 0 {
        None
    } else if refs.last().0 == key {
        Some((refs.last().1, refs.last().2))
    } else {
        lookup(refs.drop_last(), key)
    }
}

// ------------------------------------------------------------------ escape

pub open spec fn esc_char(c: char) -> Seq<char> {
    if c == '&' {
        seq!['&', 'a', 'm', 'p', ';']
    } else if c == '<' {
        seq!['&', 'l', 't', ';']
    } else if c == '"' {
        seq!['&', 'q', 'u', 'o', 't', ';']
    } else if c == '\'' {
        seq!['&', '#', '8', '2', '1', '7', ';']
    } else if c == '>' {
        seq!['&', 'g', 't', ';']
    } else {
        seq![c]
    }
}

/// Each of `& < " ' >` replaced by its entity.
pub open spec fn esc_chars(s: Seq<char>) -> Seq<char>
    decreases s.len(),
{
    if s.len() == 0 {
        seq![]
    } else {
        esc_chars(s.drop_last()) + esc_char(s.last())
    }
}

/// `r[i..i + 5]` is `&amp;`.
pub open spec fn amp_at(r: Seq<char>, i: int) -> bool {
    0 <= i && i + 5 <= r.len() && r[i] == '&' && r[i + 1] == 'a' && r[i + 2] == 'm' && r[i + 3]
        == 'p' && r[i + 4] == ';'
}

/// The `;` that ends an entity written after the `&amp;` at `i`: the last
/// `;` of the run of non-whitespace that follows, with something before it.
pub open spec fn entity_end(r: Seq<char>, i: int) -> Option<int> {
    last_before(r, word_end(r, i + 5), i + 5, ';')
}

/// An escaped `&amp;` that starts an entity goes back to `&`; the search
/// goes on after the entity.
pub open spec fn unamp(r: Seq<char>, i: int) -> Seq<char>
    decreases r.len() - i,
{
    if i < 0 || i >= r.len() {
        seq![]
    } else if amp_at(r, i) && entity_end(r, i) is Some && i + 5 <= entity_end(r, i)->0 < r.len() {
        let l = entity_end(r, i)->0;
        seq!['&'] + r.subrange(i + 5, l + 1) + unamp(r, l + 1)
    } else {
        seq![r[i]] + unamp(r, i + 1)
    }
}

/// HTML escaping; with `entities`, text that already holds an entity keeps
/// it.
pub open spec fn escape(s: Seq<char>, entities: bool) -> Seq<char> {
    if entities {
        unamp(esc_chars(s), 0)
    } else {
        esc_chars(s)
    }
}

// -------------------------------------------------------------------- slugs

pub open spec fn unspace(s: Seq<char>) -> Seq<char> {
    Seq::new(s.len(), |k: int| if s[k] == ' ' { '_' } else { s[k] })
}

pub open spec fn slug_piece(sp: SpanView, no_spaces: bool) -> Seq<char>
    decreases sp, 0nat,
{
    match sp {
        SpanView::Break => seq![],
        SpanView::Literal(c) => seq![c],
        SpanView::Text(t) => lower_of(trim(t)),
        SpanView::Image(t, _, _) => lower_of(trim(t)),
        SpanView::Code(t) => lower_of(trim(t)),
        SpanView::RefLink(c, _, _) => slugify(c, no_spaces),
        SpanView::Link(c, _, _) => slugify(c, no_spaces),
        SpanView::Strong(c) => slugify(c, no_spaces),
        SpanView::Emphasis(c) => slugify(c, no_spaces),
    }
}

/// The pieces of `v` joined by `_` (no `_` while nothing was written).
pub open spec fn slug_acc(v: Seq<SpanView>, no_spaces: bool) -> Seq<char>
    decreases v, 0nat,
{
    if v.len() == 0 {
        seq![]
    } else {
        let r = slug_acc(v.drop_last(), no_spaces);
        (if r.len() > 0 {
            r.push('_')
        } else {
            r
        }) + slug_piece(v.last(), no_spaces)
    }
}

/// The text of spans as an identifier: lower case, pieces joined by `_`,
/// and with `no_spaces` every space turned into `_`.
pub open spec fn slugify(v: Seq<SpanView>, no_spaces: bool) -> Seq<char>
    decreases v, 1nat,
{
    if no_spaces {
        unspace(slug_acc(v, no_spaces))
    } else {
        slug_acc(v, no_spaces)
    }
}

// ---------------------------------------------------------------- rendering

pub open spec fn digit(d: nat) -> char {
    if d == 0 {
        '0'
    } else if d == 1 {
        '1'
    } else if d == 2 {
        '2'
    } else if d == 3 {
        '3'
    } else if d == 4 {
        '4'
    } else if d == 5 {
        '5'
    } else if d == 6 {
        '6'
    } else if d == 7 {
        '7'
    } else if d == 8 {
        '8'
    } else {
        '9'
    }
}

/// The decimal digits of `n`.
pub open spec fn decimal(n: nat) -> Seq<char>
    decreases n,
{
    if n < 10 {
        seq![digit(n)]
    } else {
        decimal(n / 10).push(digit(n % 10))
    }
}

/// An anchor to `url` around `inner`.
pub open spec fn anchor(url: Seq<char>, title: Option<Seq<char>>, inner: Seq<char>) -> Seq<char> {
    match title {
        None => "<a href=\""@ + escape(url, false) + "\">"@ + inner + "</a>"@,
        Some(t) => "<a href=\""@ + escape(url, false) + "\" title=\""@ + escape(t, true) + "\">"@
            + inner + "</a>"@,
    }
}

pub open spec fn span_html(sp: SpanView, refs: Seq<RefEntry>) -> Seq<char>
    decreases sp, 0nat,
{
    match sp {
        SpanView::Break => "<br />"@,
        SpanView::Literal(c) => seq![c],
        SpanView::Text(t) => escape(t, true),
        SpanView::Code(t) => "<code>"@ + escape(t, false) + "</code>"@,
        SpanView::Link(c, url, title) => anchor(url, title, spans_html(c, refs)),
        SpanView::RefLink(c, id, raw) => match lookup(refs, id) {
            Some((url, title)) => anchor(url, title, spans_html(c, refs)),
            None => match lookup(refs, slugify(c, false)) {
                Some((url, title)) => anchor(url, title, spans_html(c, refs)),
                None => raw,
            },
        },
        SpanView::Image(alt, url, None) => "<img src=\""@ + escape(url, false) + "\" alt=\""@
            + escape(alt, true) + "\" />"@,
        SpanView::Image(alt, url, Some(t)) => "<img src=\""@ + escape(url, false) + "\" title=\""@
            + escape(t, true) + "\" alt=\""@ + escape(alt, true) + "\" />"@,
        SpanView::Emphasis(c) => "<em>"@ + spans_html(c, refs) + "</em>"@,
        SpanView::Strong(c) => "<strong>"@ + spans_html(c, refs) + "</strong>"@,
    }
}

pub open spec fn spans_html(v: Seq<SpanView>, refs: Seq<RefEntry>) -> Seq<char>
    decreases v, 1nat,
{
    if v.len() == 0 {
        seq![]
    } else {
        spans_html(v.drop_last(), refs) + span_html(v.last(), refs)
    }
}

/// The lines joined by newlines.
pub open spec fn join_nl(ls: Seq<Seq<char>>) -> Seq<char>
    decreases ls.len(),
{
    if ls.len() == 0 {
        seq![]
    } else if ls.len() == 1 {
        ls[0]
    } else {
        join_nl(ls.drop_last()) + seq!['\n'] + ls.last()
    }
}

pub open spec fn html_type(t: OrderedListType) -> Seq<char> {
    match t {
        OrderedListType::Lowercase => "a"@,
        OrderedListType::Uppercase => "A"@,
        OrderedListType::LowercaseRoman => "i"@,
        OrderedListType::UppercaseRoman => "I"@,
        OrderedListType::Numeric => "1"@,
    }
}

pub open spec fn code_html(lang: Option<Seq<char>>, lines: Seq<Seq<char>>) -> Seq<char> {
    match lang {
        Some(l) => if l.len() > 0 {
            "<pre><code class=\"language-"@ + escape(l, false) + "\">"@ + escape(join_nl(lines), false)
                + "</code></pre>\n\n"@
        } else {
            "<pre><code>"@ + escape(join_nl(lines), false) + "</code></pre>\n\n"@
        },
        None => "<pre><code>"@ + escape(join_nl(lines), false) + "</code></pre>\n\n"@,
    }
}

pub open spec fn block_html(b: BlockView, refs: Seq<RefEntry>) -> Seq<char>
    decreases b, 0nat,
{
    match b {
        BlockView::Header(v, level) => "<h"@ + decimal(level) + " id='"@ + slugify(v, true) + "'>"@
            + spans_html(v, refs) + "</h"@ + decimal(level) + ">\n\n"@,
        BlockView::Paragraph(v) => "<p>"@ + spans_html(v, refs) + "</p>\n\n"@,
        BlockView::Blockquote(v) => "<blockquote>\n"@ + blocks_html(v) + "</blockquote>\n\n"@,
        BlockView::CodeBlock(lang, lines) => code_html(lang, lines),
        BlockView::LinkReference(_, _, _) => seq![],
        BlockView::OrderedList(items, t) => if t == OrderedListType::Numeric {
            "<ol>"@ + items_html(items, refs) + "</ol>\n\n"@
        } else {
            "<ol type=\""@ + html_type(t) + "\">"@ + items_html(items, refs) + "</ol>\n\n"@
        },
        BlockView::UnorderedList(items) => "<ul>"@ + items_html(items, refs) + "</ul>\n\n"@,
        BlockView::Raw(x) => x,
        BlockView::Hr => "<hr />\n\n"@,
    }
}

pub open spec fn item_html(it: ItemView, refs: Seq<RefEntry>) -> Seq<char>
    decreases it, 0nat,
{
    match it {
        ItemView::Simple(v) => spans_html(v, refs),
        ItemView::Paragraph(bs) => seq!['\n'] + blocks_html(bs),
    }
}

pub open spec fn items_html(items: Seq<ItemView>, refs: Seq<RefEntry>) -> Seq<char>
    decreases items, 1nat,
{
    if items.len() == 0 {
        seq![]
    } else {
        items_html(items.drop_last(), refs) + "\n<li>"@ + item_html(items.last(), refs) + "</li>\n"@
    }
}

pub open spec fn blocks_concat(bs: Seq<BlockView>, refs: Seq<RefEntry>) -> Seq<char>
    decreases bs, 0nat,
{
    if bs.len() == 0 {
        seq![]
    } else {
        blocks_concat(bs.drop_last(), refs) + block_html(bs.last(), refs)
    }
}

/// The HTML of a list of blocks: their renderings, trimmed, and a newline.
pub open spec fn blocks_html(bs: Seq<BlockView>) -> Seq<char>
    decreases bs, 1nat,
{
    trim(blocks_concat(bs, refs_of(bs))) + seq!['\n']
}

// ============================================================ executable side

/// Appends the characters of `s`.
pub(crate) fn push_str(out: &mut Vec<char>, s: &str)
    ensures
        final(out)@ == old(out)@ + s@,
{
    let cs = chars_of(s);
    push_chars(out, cs.as_slice(), 0, cs.len());
}

/// Appends `s[a..b]`.
pub(crate) fn push_chars(out: &mut Vec<char>, s: &[char], a: usize, b: usize)
    requires
        a <= b <= s@.len(),
    ensures
        final(out)@ == old(out)@ + s@.subrange(a as int, b as int),
{
    let ghost start = out@;
    let mut k = a;
    while k < b
        invariant
            a <= k <= b <= s@.len(),
            out@ == start + s@.subrange(a as int, k as int),
        decreases b - k,
    {
        out.push(s[k]);
        k += 1;
        assert(out@ =~= start + s@.subrange(a as int, k as int));
    }
}

fn esc_chars_in(s: &[char]) -> (r: Vec<char>)
    ensures
        r@ == esc_chars(s@),
{
    let mut r: Vec<char> = Vec::new();
    let mut k: usize = 0;
    while k < s.len()
        invariant
            k <= s@.len(),
            r@ == esc_chars(s@.subrange(0, k as int)),
        decreases s@.len() - k,
    {
        let c = s[k];
        if c == '&' {
            push_str(&mut r, "&amp;");
            proof { reveal_strlit("&amp;"); }
        } else if c == '<' {
            push_str(&mut r, "&lt;");
            proof { reveal_strlit("&lt;"); }
        } else if c == '"' {
            push_str(&mut r, "&quot;");
            proof { reveal_strlit("&quot;"); }
        } else if c == '\'' {
            push_str(&mut r, "&#8217;");
            proof { reveal_strlit("&#8217;"); }
        } else if c == '>' {
            push_str(&mut r, "&gt;");
            proof { reveal_strlit("&gt;"); }
        } else {
            r.push(c);
        }
        assert(s@.subrange(0, (k + 1) as int).drop_last() =~= s@.subrange(0, k as int));
        assert(r@ =~= esc_chars(s@.subrange(0, (k + 1) as int)));
        k += 1;
    }
    assert(s@.subrange(0, s@.len() as int) =~= s@);
    r
}

fn last_before_in(r: &[char], e: usize, k: usize, c: char) -> (res: Option<usize>)
    requires
        k < e <= r@.len(),
    ensures
        crate::inline::opt_int(res) == last_before(r@, e as int, k as int, c),
        res matches Some(l) ==> k < l < e,
{
    let mut j = e;
    while j - 1 > k && r[j - 1] != c
        invariant
            k < j <= e <= r@.len(),
            last_before(r@, j as int, k as int, c) == last_before(r@, e as int, k as int, c),
        decreases j,
    {
        j -= 1;
    }
    if j - 1 > k {
        Some(j - 1)
    } else {
        None
    }
}

/// Appends `escape(s[a..b], entities)`.
fn push_escaped(out: &mut Vec<char>, s: &[char], entities: bool)
    ensures
        final(out)@ == old(out)@ + escape(s@, entities),
{
    let r = esc_chars_in(s);
    if !entities {
        push_chars(out, r.as_slice(), 0, r.len());
        assert(r@.subrange(0, r@.len() as int) =~= r@);
        return;
    }
    let ghost start = out@;
    let mut i: usize = 0;
    while i < r.len()
        invariant
            i <= r@.len(),
            out@ + unamp(r@, i as int) == start + unamp(r@, 0),
        decreases r@.len() - i,
    {
        let ghost before = out@;
        let mut done = false;
        if r.len() - i >= 5 && r[i] == '&' && r[i + 1] == 'a' && r[i + 2] == 'm' && r[i + 3] == 'p'
            && r[i + 4] == ';' {
            let we = crate::block::word_end_in(r.as_slice(), i + 5);
            if we > i + 5 {
                match last_before_in(r.as_slice(), we, i + 5, ';') {
                    Some(l) => {
                        out.push('&');
                        push_chars(out, r.as_slice(), i + 5, l + 1);
                        assert(out@ =~= before + (seq!['&'] + r@.subrange(i + 5, l + 1)));
                        i = l + 1;
                        done = true;
                    },
                    None => {},
                }
            } else {
                assert(last_before(r@, we as int, (i + 5) as int, ';') is None);
            }
        }
        if !done {
            out.push(r[i]);
            assert(out@ =~= before + seq![r@[i as int]]);
            i += 1;
        }
    }
    assert(out@ + unamp(r@, i as int) =~= out@);
}

pub open spec fn refs_view(v: Seq<(Vec<char>, Vec<char>, Option<Vec<char>>)>) -> Seq<RefEntry> {
    Seq::new(
        v.len(),
        |k: int|
            (
                v[k].0@,
                v[k].1@,
                match v[k].2 {
                    Some(t) => Some(t@),
                    None => None,
                },
            ),
    )
}

fn eq_chars(a: &[char], b: &[char]) -> (r: bool)
    ensures
        r == (a@ == b@),
{
    if a.len() != b.len() {
        return false;
    }
    let mut k: usize = 0;
    while k < a.len()
        invariant
            k <= a@.len() == b@.len(),
            forall|m: int| 0 <= m < k ==> a@[m] == b@[m],
        decreases a@.len() - k,
    {
        if a[k] != b[k] {
            return false;
        }
        k += 1;
    }
    assert(a@ =~= b@);
    true
}

fn lookup_in(refs: &Vec<(Vec<char>, Vec<char>, Option<Vec<char>>)>, key: &[char]) -> (r: Option<usize>)
    ensures
        match r {
            Some(k) => k < refs@.len() && lookup(refs_view(refs@), key@) == Some(
                (refs_view(refs@)[k as int].1, refs_view(refs@)[k as int].2),
            ),
            None => lookup(refs_view(refs@), key@) is None,
        },
{
    let ghost rv = refs_view(refs@);
    let mut j = refs.len();
    assert(rv.subrange(0, j as int) =~= rv);
    while j > 0
        invariant
            j <= refs@.len(),
            rv == refs_view(refs@),
            lookup(rv.subrange(0, j as int), key@) == lookup(rv, key@),
        decreases j,
    {
        assert(rv.subrange(0, j as int).last() == rv[j - 1]);
        if eq_chars(refs[j - 1].0.as_slice(), key) {
            return Some(j - 1);
        }
        assert(rv.subrange(0, j as int).drop_last() =~= rv.subrange(0, j - 1));
        j -= 1;
    }
    None
}

fn refs_in(bs: &Vec<Block>) -> (r: Vec<(Vec<char>, Vec<char>, Option<Vec<char>>)>)
    ensures
        refs_view(r@) == refs_of(blocks_view(bs@)),
{
    proof {
        lemma_blocks_view_len(bs@);
    }
    let ghost bv = blocks_view(bs@);
    let mut r: Vec<(Vec<char>, Vec<char>, Option<Vec<char>>)> = Vec::new();
    let mut k: usize = 0;
    assert(refs_view(r@) =~= refs_of(bv.subrange(0, 0)));
    while k < bs.len()
        invariant
            k <= bs@.len(),
            bv == blocks_view(bs@),
            bv.len() == bs@.len(),
            forall|m: int| 0 <= m < bs@.len() ==> #[trigger] bv[m] == block_view(bs@[m]),
            refs_view(r@) == refs_of(bv.subrange(0, k as int)),
        decreases bs@.len() - k,
    {
        assert(bv.subrange(0, (k + 1) as int).drop_last() =~= bv.subrange(0, k as int));
        assert(bv.subrange(0, (k + 1) as int).last() == block_view(bs@[k as int]));
        match &bs[k] {
            Block::LinkReference(id, url, title) => {
                let t = match title {
                    Some(x) => Some(chars_of(x.as_str())),
                    None => None,
                };
                r.push((chars_of(id.as_str()), chars_of(url.as_str()), t));
                assert(refs_view(r@) =~= refs_of(bv.subrange(0, (k + 1) as int)));
            },
            _ => {},
        }
        k += 1;
    }
    assert(bv.subrange(0, bs@.len() as int) =~= bv);
    r
}

fn push_anchor(out: &mut Vec<char>, url: &[char], title: &Option<Vec<char>>, inner: &[char])
    ensures
        final(out)@ == old(out)@ + anchor(
            url@,
            match title {
                Some(t) => Some(t@),
                None => None,
            },
            inner@,
        ),
{
    let ghost start = out@;
    push_str(out, "<a href=\"");
    push_escaped(out, url, false);
    match title {
        Some(t) => {
            push_str(out, "\" title=\"");
            push_escaped(out, t.as_slice(), true);
        },
        None => {},
    }
    push_str(out, "\">");
    push_chars(out, inner, 0, inner.len());
    push_str(out, "</a>");
    assert(inner@.subrange(0, inner@.len() as int) =~= inner@);
    assert(out@ =~= start + anchor(
        url@,
        match title {
            Some(t) => Some(t@),
            None => None,
        },
        inner@,
    ));
}

pub(crate) fn str_chars(s: &String) -> (r: Vec<char>)
    ensures
        r@ == s@,
{
    chars_of(s.as_str())
}

fn lower_trimmed(t: &String) -> (r: Vec<char>)
    ensures
        r@ == lower_of(trim(t@)),
{
    let cs = str_chars(t);
    let a = skip_ws_exec(cs.as_slice(), 0, cs.len());
    let b = skip_ws_back_exec(cs.as_slice(), a, cs.len());
    assert(cs@.subrange(0, cs@.len() as int) =~= cs@);
    let st = string_of(cs.as_slice(), a, b);
    let low = lowercase(st.as_str());
    str_chars(&low)
}

fn slug_piece_in(sp: &Span, no_spaces: bool) -> (r: Vec<char>)
    ensures
        r@ == slug_piece(span_view(*sp), no_spaces),
    decreases sp, 0usize,
{
    match sp {
        Span::Break => Vec::new(),
        Span::Literal(c) => {
            let mut v: Vec<char> = Vec::new();
            v.push(*c);
            v
        },
        Span::Text(t) => lower_trimmed(t),
        Span::Image(t, _, _) => lower_trimmed(t),
        Span::Code(t) => lower_trimmed(t),
        Span::RefLink(c, _, _) => slug_in(c, no_spaces),
        Span::Link(c, _, _) => slug_in(c, no_spaces),
        Span::Strong(c) => slug_in(c, no_spaces),
        Span::Emphasis(c) => slug_in(c, no_spaces),
    }
}

/// The slug of spans.
fn slug_in(v: &Vec<Span>, no_spaces: bool) -> (r: Vec<char>)
    ensures
        r@ == slugify(spans_view(v@), no_spaces),
    decreases v, 1usize,
{
    proof {
        lemma_spans_view_len(v@);
    }
    let ghost sv = spans_view(v@);
    let mut acc: Vec<char> = Vec::new();
    let mut k: usize = 0;
    assert(sv.subrange(0, 0) =~= Seq::<SpanView>::empty());
    while k < v.len()
        invariant
            k <= v@.len(),
            sv == spans_view(v@),
            sv.len() == v@.len(),
            forall|m: int| 0 <= m < v@.len() ==> #[trigger] sv[m] == span_view(v@[m]),
            acc@ == slug_acc(sv.subrange(0, k as int), no_spaces),
        decreases v@.len() - k,
    {
        assert(sv.subrange(0, (k + 1) as int).drop_last() =~= sv.subrange(0, k as int));
        let piece = slug_piece_in(&v[k], no_spaces);
        if acc.len() > 0 {
            acc.push('_');
        }
        push_chars(&mut acc, piece.as_slice(), 0, piece.len());
        assert(piece@.subrange(0, piece@.len() as int) =~= piece@);
        k += 1;
        assert(acc@ =~= slug_acc(sv.subrange(0, k as int), no_spaces));
    }
    assert(sv.subrange(0, v@.len() as int) =~= sv);
    if no_spaces {
        let mut out: Vec<char> = Vec::new();
        let mut j: usize = 0;
        while j < acc.len()
            invariant
                j <= acc@.len(),
                out@ =~= unspace(acc@).subrange(0, j as int),
            decreases acc@.len() - j,
        {
            let c = acc[j];
            out.push(if c == ' ' {
                '_'
            } else {
                c
            });
            j += 1;
        }
        assert(out@ =~= unspace(acc@));
        out
    } else {
        acc
    }
}

pub type Refs = Vec<(Vec<char>, Vec<char>, Option<Vec<char>>)>;

fn push_decimal(out: &mut Vec<char>, n: usize)
    ensures
        final(out)@ == old(out)@ + decimal(n as nat),
    decreases n,
{
    if n >= 10 {
        push_decimal(out, n / 10);
    }
    let d = n % 10;
    let c = if d == 0 {
        '0'
    } else if d == 1 {
        '1'
    } else if d == 2 {
        '2'
    } else if d == 3 {
        '3'
    } else if d == 4 {
        '4'
    } else if d == 5 {
        '5'
    } else if d == 6 {
        '6'
    } else if d == 7 {
        '7'
    } else if d == 8 {
        '8'
    } else {
        '9'
    };
    out.push(c);
    assert(n < 10 ==> n % 10 == n);
}

fn push_span_html(out: &mut Vec<char>, sp: &Span, refs: &Refs)
    ensures
        final(out)@ == old(out)@ + span_html(span_view(*sp), refs_view(refs@)),
    decreases sp, 0usize,
{
    let ghost start = out@;
    let ghost rv = refs_view(refs@);
    match sp {
        Span::Break => {
            push_str(out, "<br />");
        },
        Span::Literal(c) => {
            out.push(*c);
        },
        Span::Text(t) => {
            push_escaped(out, str_chars(t).as_slice(), true);
        },
        Span::Code(t) => {
            push_str(out, "<code>");
            push_escaped(out, str_chars(t).as_slice(), false);
            push_str(out, "</code>");
        },
        Span::Link(c, url, title) => {
            let mut inner: Vec<char> = Vec::new();
            push_spans_html(&mut inner, c, refs);
            let t = match title {
                Some(x) => Some(str_chars(x)),
                None => None,
            };
            push_anchor(out, str_chars(url).as_slice(), &t, inner.as_slice());
        },
        Span::RefLink(c, id, raw) => {
            let mut inner: Vec<char> = Vec::new();
            push_spans_html(&mut inner, c, refs);
            let idc = str_chars(id);
            match lookup_in(refs, idc.as_slice()) {
                Some(k) => {
                    push_anchor(out, refs[k].1.as_slice(), &refs[k].2, inner.as_slice());
                },
                None => {
                    let sl = slug_in(c, false);
                    match lookup_in(refs, sl.as_slice()) {
                        Some(k) => {
                            push_anchor(out, refs[k].1.as_slice(), &refs[k].2, inner.as_slice());
                        },
                        None => {
                            let rc = str_chars(raw);
                            push_chars(out, rc.as_slice(), 0, rc.len());
                            assert(rc@.subrange(0, rc@.len() as int) =~= rc@);
                        },
                    }
                },
            }
        },
        Span::Image(alt, url, title) => {
            push_str(out, "<img src=\"");
            push_escaped(out, str_chars(url).as_slice(), false);
            match title {
                Some(t) => {
                    push_str(out, "\" title=\"");
                    push_escaped(out, str_chars(t).as_slice(), true);
                },
                None => {},
            }
            push_str(out, "\" alt=\"");
            push_escaped(out, str_chars(alt).as_slice(), true);
            push_str(out, "\" />");
        },
        Span::Emphasis(c) => {
            push_str(out, "<em>");
            push_spans_html(out, c, refs);
            push_str(out, "</em>");
        },
        Span::Strong(c) => {
            push_str(out, "<strong>");
            push_spans_html(out, c, refs);
            push_str(out, "</strong>");
        },
    }
    assert(out@ =~= start + span_html(span_view(*sp), rv));
}

fn push_spans_html(out: &mut Vec<char>, v: &Vec<Span>, refs: &Refs)
    ensures
        final(out)@ == old(out)@ + spans_html(spans_view(v@), refs_view(refs@)),
    decreases v, 1usize,
{
    proof {
        lemma_spans_view_len(v@);
    }
    let ghost sv = spans_view(v@);
    let ghost rv = refs_view(refs@);
    let ghost start = out@;
    let mut k: usize = 0;
    assert(start + spans_html(sv.subrange(0, 0), rv) =~= start);
    while k < v.len()
        invariant
            k <= v@.len(),
            sv == spans_view(v@),
            rv == refs_view(refs@),
            sv.len() == v@.len(),
            forall|m: int| 0 <= m < v@.len() ==> #[trigger] sv[m] == span_view(v@[m]),
            out@ == start + spans_html(sv.subrange(0, k as int), rv),
        decreases v@.len() - k,
    {
        assert(sv.subrange(0, (k + 1) as int).drop_last() =~= sv.subrange(0, k as int));
        push_span_html(out, &v[k], refs);
        k += 1;
        assert(out@ =~= start + spans_html(sv.subrange(0, k as int), rv));
    }
    assert(sv.subrange(0, v@.len() as int) =~= sv);
}

pub(crate) fn join_lines_in(lines: &Vec<String>) -> (r: Vec<char>)
    ensures
        r@ == join_nl(strings_view(lines@)),
{
    let ghost lv = strings_view(lines@);
    let mut r: Vec<char> = Vec::new();
    let mut k: usize = 0;
    assert(lv.subrange(0, 0) =~= Seq::<Seq<char>>::empty());
    while k < lines.len()
        invariant
            k <= lines@.len(),
            lv == strings_view(lines@),
            r@ == join_nl(lv.subrange(0, k as int)),
        decreases lines@.len() - k,
    {
        if k > 0 {
            r.push('\n');
        }
        let cs = str_chars(&lines[k]);
        push_chars(&mut r, cs.as_slice(), 0, cs.len());
        assert(cs@.subrange(0, cs@.len() as int) =~= cs@);
        assert(lv.subrange(0, (k + 1) as int).drop_last() =~= lv.subrange(0, k as int));
        k += 1;
        assert(r@ =~= join_nl(lv.subrange(0, k as int)));
    }
    assert(lv.subrange(0, lines@.len() as int) =~= lv);
    r
}

fn push_block_html(out: &mut Vec<char>, b: &Block, refs: &Refs)
    ensures
        final(out)@ == old(out)@ + block_html(block_view(*b), refs_view(refs@)),
    decreases b, 0usize,
{
    let ghost start = out@;
    let ghost rv = refs_view(refs@);
    match b {
        Block::Header(v, level) => {
            push_str(out, "<h");
            push_decimal(out, *level);
            push_str(out, " id='");
            let sl = slug_in(v, true);
            push_chars(out, sl.as_slice(), 0, sl.len());
            assert(sl@.subrange(0, sl@.len() as int) =~= sl@);
            push_str(out, "'>");
            push_spans_html(out, v, refs);
            push_str(out, "</h");
            push_decimal(out, *level);
            push_str(out, ">\n\n");
        },
        Block::Paragraph(v) => {
            push_str(out, "<p>");
            push_spans_html(out, v, refs);
            push_str(out, "</p>\n\n");
        },
        Block::Blockquote(v) => {
            push_str(out, "<blockquote>\n");
            let inner = blocks_html_in(v);
            push_chars(out, inner.as_slice(), 0, inner.len());
            assert(inner@.subrange(0, inner@.len() as int) =~= inner@);
            push_str(out, "</blockquote>\n\n");
        },
        Block::CodeBlock(lang, lines) => {
            let code = join_lines_in(lines);
            let plain = match lang {
                Some(l) => str_chars(l).len() == 0,
                None => true,
            };
            if plain {
                push_str(out, "<pre><code>");
            } else {
                push_str(out, "<pre><code class=\"language-");
                match lang {
                    Some(l) => {
                        push_escaped(out, str_chars(l).as_slice(), false);
                    },
                    None => {},
                }
                push_str(out, "\">");
            }
            push_escaped(out, code.as_slice(), false);
            push_str(out, "</code></pre>\n\n");
        },
        Block::LinkReference(_, _, _) => {},
        Block::OrderedList(items, t) => {
            if *t == OrderedListType::Numeric {
                push_str(out, "<ol>");
            } else {
                push_str(out, "<ol type=\"");
                push_str(out, t.to_html_type());
                push_str(out, "\">");
            }
            push_items_html(out, items, refs);
            push_str(out, "</ol>\n\n");
        },
        Block::UnorderedList(items) => {
            push_str(out, "<ul>");
            push_items_html(out, items, refs);
            push_str(out, "</ul>\n\n");
        },
        Block::Raw(x) => {
            let xc = str_chars(x);
            push_chars(out, xc.as_slice(), 0, xc.len());
            assert(xc@.subrange(0, xc@.len() as int) =~= xc@);
        },
        Block::Hr => {
            push_str(out, "<hr />\n\n");
        },
    }
    assert(out@ =~= start + block_html(block_view(*b), rv));
}

fn push_item_html(out: &mut Vec<char>, it: &ListItem, refs: &Refs)
    ensures
        final(out)@ == old(out)@ + item_html(item_view(*it), refs_view(refs@)),
    decreases it, 0usize,
{
    let ghost start = out@;
    match it {
        ListItem::Simple(v) => {
            push_spans_html(out, v, refs);
        },
        ListItem::Paragraph(bs) => {
            out.push('\n');
            let inner = blocks_html_in(bs);
            push_chars(out, inner.as_slice(), 0, inner.len());
            assert(inner@.subrange(0, inner@.len() as int) =~= inner@);
        },
    }
    assert(out@ =~= start + item_html(item_view(*it), refs_view(refs@)));
}

fn push_items_html(out: &mut Vec<char>, items: &Vec<ListItem>, refs: &Refs)
    ensures
        final(out)@ == old(out)@ + items_html(items_view(items@), refs_view(refs@)),
    decreases items, 1usize,
{
    proof {
        lemma_items_view_len(items@);
    }
    let ghost iv = items_view(items@);
    let ghost rv = refs_view(refs@);
    let ghost start = out@;
    let mut k: usize = 0;
    assert(start + items_html(iv.subrange(0, 0), rv) =~= start);
    while k < items.len()
        invariant
            k <= items@.len(),
            iv == items_view(items@),
            rv == refs_view(refs@),
            iv.len() == items@.len(),
            forall|m: int| 0 <= m < items@.len() ==> #[trigger] iv[m] == item_view(items@[m]),
            out@ == start + items_html(iv.subrange(0, k as int), rv),
        decreases items@.len() - k,
    {
        assert(iv.subrange(0, (k + 1) as int).drop_last() =~= iv.subrange(0, k as int));
        push_str(out, "\n<li>");
        push_item_html(out, &items[k], refs);
        push_str(out, "</li>\n");
        k += 1;
        assert(out@ =~= start + items_html(iv.subrange(0, k as int), rv));
    }
    assert(iv.subrange(0, items@.len() as int) =~= iv);
}

/// The HTML of a list of blocks.
fn blocks_html_in(bs: &Vec<Block>) -> (r: Vec<char>)
    ensures
        r@ == blocks_html(blocks_view(bs@)),
    decreases bs, 1usize,
{
    proof {
        lemma_blocks_view_len(bs@);
    }
    let ghost bv = blocks_view(bs@);
    let refs = refs_in(bs);
    let ghost rv = refs_view(refs@);
    let mut all: Vec<char> = Vec::new();
    let mut k: usize = 0;
    assert(all@ =~= blocks_concat(bv.subrange(0, 0), rv));
    while k < bs.len()
        invariant
            k <= bs@.len(),
            bv == blocks_view(bs@),
            rv == refs_view(refs@),
            rv == refs_of(bv),
            bv.len() == bs@.len(),
            forall|m: int| 0 <= m < bs@.len() ==> #[trigger] bv[m] == block_view(bs@[m]),
            all@ == blocks_concat(bv.subrange(0, k as int), rv),
        decreases bs@.len() - k,
    {
        assert(bv.subrange(0, (k + 1) as int).drop_last() =~= bv.subrange(0, k as int));
        push_block_html(&mut all, &bs[k], &refs);
        k += 1;
        assert(all@ =~= blocks_concat(bv.subrange(0, k as int), rv));
    }
    assert(bv.subrange(0, bs@.len() as int) =~= bv);
    let a = skip_ws_exec(all.as_slice(), 0, all.len());
    let b = skip_ws_back_exec(all.as_slice(), a, all.len());
    assert(all@.subrange(0, all@.len() as int) =~= all@);
    let mut out: Vec<char> = Vec::new();
    push_chars(&mut out, all.as_slice(), a, b);
    out.push('\n');
    assert(out@ =~= trim(all@) + seq!['\n']);
    out
}

/// Renders blocks as HTML.
pub fn to_html(blocks: &Vec<Block>) -> (r: String)
    ensures
        r@ == blocks_html(blocks_view(blocks@)),
{
    let v = blocks_html_in(blocks);
    string_of(v.as_slice(), 0, v.len())
}

} // verus!
