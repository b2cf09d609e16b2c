//! Properties that relate the parser's parts, stated over their models.

use vstd::prelude::*;
use crate::block::{
    CodeScan, blocks_from, blocks_of, document_of, lines_from, strip_cr, join_line, line_spans, atx_at, block_at, closes_heading, code_block_at, code_scan, code_start, fence,
    heading_end, rule_line, run_end, setext_at, window_spans,
};
use crate::html::{RefEntry, lookup, slugify, span_html};
use crate::inline::{Rec, code_close, escapable, recognize, scan, spans_of, tail_run, text_run};
use crate::text::{skip_ws, skip_ws_back, spec_is_ws, trim_end, trim_start};
use crate::tree::{BlockView, SpanView};

verus! {

proof fn lemma_open_fence_runs_out(ls: Seq<Seq<char>>, j: int, st: CodeScan)
    requires
        0 <= j <= ls.len(),
        st.opened,
        !st.closed,
        forall|k: int| j <= k < ls.len() ==> !fence(#[trigger] ls[k]),
    ensures
        code_scan(ls, j, st).opened,
        !code_scan(ls, j, st).closed,
    decreases ls.len() - j,
{
    if j < ls.len() {
        let l = ls[j];
        lemma_open_fence_runs_out(
            ls,
            j + 1,
            CodeScan { content: st.content.push(l), n: st.n + 1, ..st },
        );
    }
}

/// A fence that no later line closes opens no code block: the line is read
/// as the other recognizers (at most a setext heading) or a paragraph read
/// it.
pub proof fn law_unclosed_fence(ls: Seq<Seq<char>>, i: int, depth: nat)
    requires
        0 <= i < ls.len(),
        fence(ls[i]),
        forall|k: int| i < k < ls.len() ==> !fence(#[trigger] ls[k]),
    ensures
        code_block_at(ls, i) is None,
        block_at(ls, i, depth) == setext_at(ls, i),
{
    let l = ls[i];
    let st0 = code_start();
    let st1 = CodeScan {
        lang: Some(l.subrange(3, l.len() as int)),
        opened: true,
        n: st0.n + 1,
        ..st0
    };
    assert(code_scan(ls, i, st0) == code_scan(ls, i + 1, st1));
    lemma_open_fence_runs_out(ls, i + 1, st1);
    assert(skip_ws(l, 0, l.len() as int) == 0);
    assert(run_end(l, 0, ' ') == 0);
    assert(run_end(l, 0, '#') == 0);
    assert(!rule_line(l, '='));
    assert(!rule_line(l, '-'));
}

/// A reference link that resolves neither by its id nor by the slug of its
/// content renders as its raw source text.
pub proof fn law_unresolved_reference(
    content: Seq<SpanView>,
    id: Seq<char>,
    raw: Seq<char>,
    refs: Seq<RefEntry>,
)
    requires
        lookup(refs, id) is None,
        lookup(refs, slugify(content, false)) is None,
    ensures
        span_html(SpanView::RefLink(content, id, raw), refs) == raw,
{
}

proof fn lemma_hash_run(l: Seq<char>, k: int, h: int)
    requires
        0 <= k <= h < l.len(),
        forall|j: int| k <= j < h ==> l[j] == '#',
        l[h] != '#',
    ensures
        run_end(l, k, '#') == h,
    decreases h - k,
{
    if k < h {
        lemma_hash_run(l, k + 1, h);
    }
}

proof fn lemma_heading_end(l: Seq<char>, p: int, q: int)
    requires
        0 <= p < q <= l.len(),
        !spec_is_ws(l[q - 1]),
        l[q - 1] != '#',
        closes_heading(l, q),
    ensures
        heading_end(l, p) == q,
    decreases q - p,
{
    assert(!closes_heading(l, p)) by {
        if p < q - 1 {
            if forall|j: int| p < j < l.len() ==> l[j] == '#' || spec_is_ws(l[j]) {
                assert(l[q - 1] == '#' || spec_is_ws(l[q - 1]));
            }
        }
    }
    if p + 1 < q {
        lemma_heading_end(l, p + 1, q);
    }
    assert(heading_end(l, p) == heading_end(l, p + 1));
}

/// A `*` or `_` with whitespace on both sides is no delimiter: the scan,
/// standing on the whitespace before it, takes it as a literal.
pub proof fn law_spaced_delimiter(s: Seq<char>, i: int, hi: int)
    requires
        0 <= i,
        i + 2 < hi <= s.len(),
        spec_is_ws(s[i]),
        s[i + 1] == '*' || s[i + 1] == '_',
        spec_is_ws(s[i + 2]),
    ensures
        recognize(s, i, hi) == Some((Rec::Lit(s[i + 1]), 1int, 2int)),
{
}

/// A backslash before one of the escapable characters makes that character
/// a literal.
pub proof fn law_escape(s: Seq<char>, i: int, hi: int)
    requires
        0 <= i,
        i + 1 < hi <= s.len(),
        s[i] == '\\',
        escapable(s[i + 1]),
    ensures
        recognize(s, i, hi) == Some((Rec::Lit(s[i + 1]), 0int, 2int)),
{
}

/// No character that starts inline markup.
pub open spec fn plain(c: char) -> bool {
    c != '\\' && c != '`' && c != '*' && c != '_' && c != '!' && c != '['
}

proof fn lemma_plain_scan(s: Seq<char>, lo: int, hi: int, start: int, i: int, lead: bool)
    requires
        0 <= lo <= start <= i <= hi <= s.len(),
        start < hi,
        forall|k: int| start <= k < hi ==> plain(#[trigger] s[k]),
        !spec_is_ws(s[hi - 1]),
    ensures
        scan(s, lo, hi, start, i, lead) == scan(s, lo, hi, start, hi, lead),
    decreases hi - i,
{
    if i < hi {
        assert(plain(s[i]));
        if i + 1 < hi {
            assert(plain(s[i + 1]));
        }
        assert(recognize(s, i, hi) is None);
        lemma_plain_scan(s, lo, hi, start, i + 1, lead);
    }
}

/// A window of markup-free text with no whitespace at its ends scans to one
/// text span holding all of it.
proof fn lemma_plain_window(s: Seq<char>, lo: int, hi: int, lead: bool)
    requires
        0 <= lo < hi <= s.len(),
        forall|k: int| lo <= k < hi ==> plain(#[trigger] s[k]),
        !spec_is_ws(s[lo]),
        !spec_is_ws(s[hi - 1]),
    ensures
        scan(s, lo, hi, lo, lo, lead) == seq![SpanView::Text(s.subrange(lo, hi))],
{
    lemma_plain_scan(s, lo, hi, lo, lo, lead);
    let t = s.subrange(lo, hi);
    assert(t[0] == s[lo]);
    assert(t.last() == s[hi - 1]);
    assert(trim_start(t) == t);
    assert(trim_end(t) == t);
}

/// Text without markup characters, and without whitespace at its ends, is
/// kept whole: its spans are one text span holding all of it.
pub proof fn law_plain_text(s: Seq<char>)
    requires
        s.len() > 0,
        forall|k: int| 0 <= k < s.len() ==> plain(#[trigger] s[k]),
        !spec_is_ws(s[0]),
        !spec_is_ws(s.last()),
    ensures
        spans_of(s) == seq![SpanView::Text(s)],
{
    lemma_plain_window(s, 0, s.len() as int, true);
    assert(s.subrange(0, s.len() as int) =~= s);
}

proof fn lemma_hash_run_at_least(l: Seq<char>, k: int, m: int)
    requires
        0 <= k <= m <= l.len(),
        forall|j: int| k <= j < m ==> l[j] == '#',
    ensures
        run_end(l, k, '#') >= m,
    decreases m - k,
{
    if k < m {
        lemma_hash_run_at_least(l, k + 1, m);
    } else {
        lemma_run_end_ge(l, k, '#');
    }
}

proof fn lemma_run_end_ge(l: Seq<char>, k: int, c: char)
    requires
        0 <= k,
    ensures
        run_end(l, k, c) >= k,
    decreases l.len() - k,
{
    if k < l.len() && l[k] == c {
        lemma_run_end_ge(l, k + 1, c);
    }
}

/// The title's characters allowed by the heading law: no markup character,
/// no `#`, and no whitespace at its ends.
pub open spec fn plain_title(w: Seq<char>) -> bool {
    &&& w.len() > 0
    &&& forall|k: int| 0 <= k < w.len() ==> plain(#[trigger] w[k]) && w[k] != '#'
    &&& !spec_is_ws(w[0])
    &&& !spec_is_ws(w.last())
}

/// An ATX heading line: `h` hashes, a space, the title, then, when `k > 0`,
/// a space and `k` closing hashes, and last `t` trailing spaces.
pub open spec fn heading_line(h: nat, w: Seq<char>, k: nat, t: nat) -> Seq<char> {
    Seq::new(h, |j: int| '#') + seq![' '] + w + (if k > 0 {
        seq![' '] + Seq::new(k, |j: int| '#')
    } else {
        seq![]
    }) + Seq::new(t, |j: int| ' ')
}

/// Closing hashes, however many or none, and whitespace after them are
/// dropped from an ATX heading: the heading of level `h` holds exactly the
/// spans of its title, which for a plain title is the title as one text
/// span.
pub proof fn law_heading_closing_hashes(w: Seq<char>, h: nat, k: nat, t: nat)
    requires
        1 <= h <= 6,
        plain_title(w),
    ensures
        atx_at(seq![heading_line(h, w, k, t)], 0) == Some(
            (BlockView::Header(spans_of(w), h), 1int),
        ),
        spans_of(w) == seq![SpanView::Text(w)],
{
    let l = heading_line(h, w, k, t);
    let q: int = h as int + 1 + w.len() as int;
    let tail = (if k > 0 {
        seq![' '] + Seq::new(k, |j: int| '#')
    } else {
        seq![]
    }) + Seq::new(t, |j: int| ' ');
    assert(l =~= Seq::new(h, |j: int| '#') + seq![' '] + w + tail);
    assert(l[h as int] == ' ');
    lemma_hash_run(l, 0, h as int);
    assert forall|j: int| h + 1 <= j < q implies l[j] == w[j - h - 1] by {}
    assert(l[q - 1] == w.last());
    assert forall|j: int| q <= j < l.len() implies l[j] == tail[j - q] by {}
    assert forall|j: int| 0 <= j < tail.len() implies tail[j] == '#' || spec_is_ws(tail[j]) by {
        if k > 0 && 1 <= j < k + 1 {
            assert(tail[j] == Seq::new(k, |i: int| '#')[j - 1]);
        }
    }
    assert(closes_heading(l, q)) by {
        if q < l.len() {
            assert(l[q] == tail[0]);
            assert forall|j: int| q < j < l.len() implies l[j] == '#' || spec_is_ws(l[j]) by {
                assert(l[j] == tail[j - q]);
            }
        }
    }
    lemma_heading_end(l, h as int + 1, q);
    assert(skip_ws_back(l, h as int + 1, q) == q);
    lemma_plain_window(l, h as int + 1, q, true);
    assert(l.subrange(h as int + 1, q) =~= w);
    law_plain_text(w);
    assert(seq![l][0] == l);
}

/// Seven or more leading hashes make no ATX heading.
pub proof fn law_seven_hashes(l: Seq<char>)
    requires
        l.len() >= 7,
        forall|j: int| 0 <= j < 7 ==> l[j] == '#',
    ensures
        atx_at(seq![l], 0) is None,
{
    lemma_hash_run_at_least(l, 0, 7);
    assert(seq![l][0] == l);
}

/// A line of plain text that no block recognizer takes: a plain title that
/// starts with no ordered-list marker, and whose first character starts no
/// other list, rule, quote or code block.
pub open spec fn plain_line(l: Seq<char>) -> bool {
    &&& plain_title(l)
    &&& crate::block::number_begin(l) is None
    &&& l[0] != '>' && l[0] != '-' && l[0] != '+' && l[0] != '=' && l[0] != '\t'
    &&& forall|k: int| 0 <= k < l.len() ==> #[trigger] l[k] != '\n'
}

/// The paragraph that the first `n` plain lines make: their texts joined by
/// newline spans.
pub open spec fn joined_lines(ls: Seq<Seq<char>>, n: int) -> Seq<SpanView>
    decreases n,
{
    if n <= 0 {
        seq![]
    } else if n == 1 {
        seq![SpanView::Text(ls[0])]
    } else {
        joined_lines(ls, n - 1) + seq![SpanView::Text(seq!['\n']), SpanView::Text(ls[n - 1])]
    }
}

proof fn lemma_plain_line_no_block(ls: Seq<Seq<char>>, i: int, depth: nat)
    requires
        0 <= i < ls.len(),
        forall|k: int| 0 <= k < ls.len() ==> plain_line(#[trigger] ls[k]),
    ensures
        block_at(ls, i, depth) is None,
        line_spans(ls[i], true) == seq![SpanView::Text(ls[i])],
        line_spans(ls[i], false) == seq![SpanView::Text(ls[i])],
{
    let l = ls[i];
    assert(plain_line(l));
    assert(plain(l[0]) && l[0] != '#');
    assert(!rule_line(l, '='));
    assert(!rule_line(l, '-'));
    assert(run_end(l, 0, '#') == 0);
    assert(run_end(l, 0, ' ') == 0);
    assert(skip_ws(l, 0, l.len() as int) == 0);
    assert(code_scan(ls, i, code_start()) == code_start());
    if i + 1 < ls.len() {
        assert(plain_line(ls[i + 1]));
        assert(!rule_line(ls[i + 1], '='));
        assert(!rule_line(ls[i + 1], '-'));
    }
    lemma_plain_window(l, 0, l.len() as int, true);
    lemma_plain_window(l, 0, l.len() as int, false);
    assert(l.subrange(0, l.len() as int) =~= l);
}

proof fn lemma_plain_lines(ls: Seq<Seq<char>>, i: int, depth: nat)
    requires
        0 <= i <= ls.len(),
        ls.len() > 0,
        forall|k: int| 0 <= k < ls.len() ==> plain_line(#[trigger] ls[k]),
    ensures
        blocks_from(ls, i, joined_lines(ls, i), depth) == seq![
            BlockView::Paragraph(joined_lines(ls, ls.len() as int)),
        ],
    decreases ls.len() - i,
{
    if i < ls.len() {
        lemma_plain_line_no_block(ls, i, depth);
        assert(ls[i].len() > 0);
        if i > 0 {
            assert(joined_lines(ls, i).len() > 0) by {
                lemma_joined_last(ls, i);
            }
            lemma_joined_last(ls, i);
        }
        assert(join_line(joined_lines(ls, i), ls[i]) =~= joined_lines(ls, i + 1));
        lemma_plain_lines(ls, i + 1, depth);
    } else {
        lemma_joined_last(ls, i);
    }
}

proof fn lemma_joined_last(ls: Seq<Seq<char>>, n: int)
    requires
        1 <= n <= ls.len(),
    ensures
        joined_lines(ls, n).len() > 0,
        joined_lines(ls, n).last() == SpanView::Text(ls[n - 1]),
{
}

/// No line of plain text is dropped: lines that no block recognizer takes
/// make one paragraph holding each line's text, joined by newline spans.
pub proof fn law_plain_paragraph(ls: Seq<Seq<char>>)
    requires
        ls.len() > 0,
        forall|k: int| 0 <= k < ls.len() ==> plain_line(#[trigger] ls[k]),
    ensures
        blocks_of(ls) == seq![BlockView::Paragraph(joined_lines(ls, ls.len() as int))],
{
    lemma_plain_lines(ls, 0, crate::block::MAX_DEPTH as nat);
}

/// Lines joined by newlines, the first line first.
pub open spec fn joined_text(ls: Seq<Seq<char>>) -> Seq<char>
    decreases ls.len(),
{
    if ls.len() == 0 {
        seq![]
    } else if ls.len() == 1 {
        ls[0]
    } else {
        ls[0] + seq!['\n'] + joined_text(ls.drop_first())
    }
}

proof fn lemma_lines_to_nl(s: Seq<char>, start: int, i: int, j: int)
    requires
        0 <= start <= i <= j < s.len(),
        s[j] == '\n',
        forall|k: int| i <= k < j ==> s[k] != '\n',
    ensures
        lines_from(s, start, i) == seq![strip_cr(s.subrange(start, j))] + lines_from(s, j + 1, j + 1),
    decreases j - i,
{
    if i < j {
        lemma_lines_to_nl(s, start, i + 1, j);
    }
}

proof fn lemma_lines_to_end(s: Seq<char>, start: int, i: int)
    requires
        0 <= start <= i <= s.len(),
        start < s.len(),
        forall|k: int| i <= k < s.len() ==> s[k] != '\n',
    ensures
        lines_from(s, start, i) == seq![s.subrange(start, s.len() as int)],
    decreases s.len() - i,
{
    if i < s.len() {
        lemma_lines_to_end(s, start, i + 1);
    }
}

/// A non-empty line with no newline and no whitespace at its end: the lines
/// of text are exactly such lines joined by newlines.
pub open spec fn simple_line(l: Seq<char>) -> bool {
    &&& l.len() > 0
    &&& forall|k: int| 0 <= k < l.len() ==> #[trigger] l[k] != '\n'
    &&& !spec_is_ws(l.last())
}

proof fn lemma_lines_of_joined(ls: Seq<Seq<char>>, s: Seq<char>, start: int)
    requires
        ls.len() >= 1,
        forall|k: int| 0 <= k < ls.len() ==> simple_line(#[trigger] ls[k]),
        0 <= start <= s.len(),
        s.subrange(start, s.len() as int) == joined_text(ls),
    ensures
        lines_from(s, start, start) == ls,
    decreases ls.len(),
{
    let l = ls[0];
    assert(simple_line(l));
    let n = l.len() as int;
    if ls.len() == 1 {
        assert(s.subrange(start, s.len() as int) == l);
        assert forall|k: int| start <= k < s.len() implies s[k] != '\n' by {
            assert(s[k] == s.subrange(start, s.len() as int)[k - start]);
        }
        lemma_lines_to_end(s, start, start);
        assert(seq![s.subrange(start, s.len() as int)] =~= ls);
    } else {
        let rest = joined_text(ls.drop_first());
        let sub = s.subrange(start, s.len() as int);
        assert(sub == l + seq!['\n'] + rest);
        assert forall|k: int| start <= k < start + n implies s[k] != '\n' by {
            assert(s[k] == sub[k - start]);
            assert(sub[k - start] == l[k - start]);
        }
        assert(s[start + n] == sub[n]);
        assert(s[start + n] == '\n');
        lemma_lines_to_nl(s, start, start, start + n);
        assert(s.subrange(start, start + n) =~= l);
        assert(strip_cr(l) == l) by {
            assert(!spec_is_ws(l.last()));
        }
        assert(sub.len() == n + 1 + rest.len());
        assert forall|k: int| 0 <= k < rest.len() implies s.subrange(start + n + 1, s.len() as int)[k]
            == rest[k] by {
            assert(s[start + n + 1 + k] == sub[n + 1 + k]);
            assert((l + seq!['\n'] + rest)[n + 1 + k] == rest[k]);
        }
        assert(s.subrange(start + n + 1, s.len() as int) =~= rest);
        assert forall|k: int| 0 <= k < ls.drop_first().len() implies simple_line(
            #[trigger] ls.drop_first()[k],
        ) by {
            assert(ls.drop_first()[k] == ls[k + 1]);
        }
        lemma_lines_of_joined(ls.drop_first(), s, start + n + 1);
        assert(seq![l] + ls.drop_first() =~= ls);
    }
}

/// Parsing plain lines joined by newlines drops none of their text: the
/// document is one paragraph holding each line, joined by newline spans.
pub proof fn law_parse_plain_lines(ls: Seq<Seq<char>>)
    requires
        ls.len() > 0,
        forall|k: int| 0 <= k < ls.len() ==> plain_line(#[trigger] ls[k]),
    ensures
        document_of(joined_text(ls)) == seq![
            BlockView::Paragraph(joined_lines(ls, ls.len() as int)),
        ],
{
    let s = joined_text(ls);
    assert(s.subrange(0, s.len() as int) =~= s);
    assert forall|k: int| 0 <= k < ls.len() implies simple_line(#[trigger] ls[k]) by {
        assert(plain_line(ls[k]));
    }
    lemma_lines_of_joined(ls, s, 0);
    law_plain_paragraph(ls);
}

pub open spec fn delim(c: char) -> bool {
    c == '*' || c == '_'
}

/// A line whose only markup characters are `*` and `_`, each with whitespace
/// on both sides.
pub open spec fn spaced_line(s: Seq<char>) -> bool {
    forall|k: int|
        0 <= k < s.len() ==> (plain(#[trigger] s[k]) || delim(s[k])) && (delim(s[k]) ==> 0 < k
            < s.len() - 1 && spec_is_ws(s[k - 1]) && spec_is_ws(s[k + 1]))
}

/// No emphasis and no strong span.
pub open spec fn no_emphasis(v: Seq<SpanView>) -> bool {
    forall|k: int| 0 <= k < v.len() ==> !(#[trigger] v[k] is Emphasis) && !(v[k] is Strong)
}

proof fn lemma_no_emphasis_concat(a: Seq<SpanView>, b: Seq<SpanView>)
    requires
        no_emphasis(a),
        no_emphasis(b),
    ensures
        no_emphasis(a + b),
{
    assert forall|k: int| 0 <= k < (a + b).len() implies !(#[trigger] (a + b)[k] is Emphasis)
        && !((a + b)[k] is Strong) by {
        if k < a.len() {
            assert((a + b)[k] == a[k]);
        } else {
            assert((a + b)[k] == b[k - a.len()]);
        }
    }
}

proof fn lemma_spaced_scan(s: Seq<char>, start: int, i: int, lead: bool)
    requires
        0 <= start <= i <= s.len(),
        spaced_line(s),
        i < s.len() ==> !delim(s[i]),
    ensures
        no_emphasis(scan(s, 0, s.len() as int, start, i, lead)),
    decreases s.len() - i,
{
    let hi = s.len() as int;
    if i >= hi {
        assert(no_emphasis(tail_run(s, start, hi, lead)));
    } else {
        assert(plain(s[i]) || delim(s[i]));
        if i + 1 < hi {
            assert(plain(s[i + 1]) || delim(s[i + 1]));
            if delim(s[i + 1]) {
                assert(spec_is_ws(s[i]) && spec_is_ws(s[i + 2]));
            }
        }
        match recognize(s, i, hi) {
            Some((rec, off, n)) => {
                if i + 2 < hi {
                    assert(plain(s[i + 2]) || delim(s[i + 2]));
                }
                if i + 1 < hi && delim(s[i + 1]) {
                    law_spaced_delimiter(s, i, hi);
                } else {
                    assert(rec == Rec::Brk && n == 2 && i + 2 == hi);
                }
                assert(crate::inline::found_ok((rec, off, n), i, hi));
                lemma_spaced_scan(s, i + n, i + n, false);
                let tr = text_run(s, start, i + off, lead);
                assert(no_emphasis(tr));
                let pv = seq![crate::inline::piece_view(s, rec, 0, hi)];
                assert(no_emphasis(pv));
                lemma_no_emphasis_concat(tr, pv);
                lemma_no_emphasis_concat(tr + pv, scan(s, 0, hi, i + n, i + n, false));
            },
            None => {
                lemma_spaced_scan(s, start, i + 1, lead);
            },
        }
    }
}

/// Asterisks and underscores with whitespace on both sides never make
/// emphasis: a line whose only markup characters are such delimiters has
/// no emphasis or strong span.
pub proof fn law_spaced_line(s: Seq<char>)
    requires
        spaced_line(s),
    ensures
        no_emphasis(spans_of(s)),
{
    if s.len() > 0 {
        assert(plain(s[0]) || delim(s[0]));
    }
    lemma_spaced_scan(s, 0, 0, true);
}

proof fn lemma_no_double_close(s: Seq<char>, hi: int, a: int, k: int)
    requires
        0 <= a,
        1 <= k,
        hi <= s.len(),
        forall|j: int| a + k <= j < hi ==> s[j] != '`',
    ensures
        code_close(s, hi, a, 2, k) is None,
    decreases hi - a - k,
{
    if !(a + k + 2 > hi || s[a + k - 1] == '\n') {
        lemma_no_double_close(s, hi, a, k + 1);
    }
}

/// The paragraph whose first line gave the spans `first`, followed by the
/// plain lines `ls[1..n]`, each after a newline span.
pub open spec fn joined_after(first: Seq<SpanView>, ls: Seq<Seq<char>>, n: int) -> Seq<SpanView>
    decreases n,
{
    if n <= 1 {
        first
    } else {
        joined_after(first, ls, n - 1) + seq![SpanView::Text(seq!['\n']), SpanView::Text(ls[n - 1])]
    }
}

proof fn lemma_lines_after(first: Seq<SpanView>, ls: Seq<Seq<char>>, i: int, depth: nat)
    requires
        1 <= i <= ls.len(),
        first.len() > 0,
        first.last() != SpanView::Break,
        forall|k: int| 1 <= k < ls.len() ==> plain_line(#[trigger] ls[k]),
    ensures
        blocks_from(ls, i, joined_after(first, ls, i), depth) == seq![
            BlockView::Paragraph(joined_after(first, ls, ls.len() as int)),
        ],
    decreases ls.len() - i,
{
    if i < ls.len() {
        let rest = ls.drop_first();
        assert forall|k: int| 0 <= k < rest.len() implies plain_line(#[trigger] rest[k]) by {
            assert(rest[k] == ls[k + 1]);
        }
        lemma_plain_line_no_block_at(ls, i, depth);
        let l = ls[i];
        assert(plain_line(l));
        lemma_plain_window(l, 0, l.len() as int, false);
        assert(l.subrange(0, l.len() as int) =~= l);
        assert(joined_after(first, ls, i).len() > 0 && joined_after(first, ls, i).last() != SpanView::Break) by {
            if i > 1 {
                assert(joined_after(first, ls, i).last() == SpanView::Text(ls[i - 1]));
            }
        }
        assert(join_line(joined_after(first, ls, i), ls[i]) =~= joined_after(first, ls, i + 1));
        lemma_lines_after(first, ls, i + 1, depth);
    }
}

proof fn lemma_plain_line_no_block_at(ls: Seq<Seq<char>>, i: int, depth: nat)
    requires
        1 <= i < ls.len(),
        forall|k: int| 1 <= k < ls.len() ==> plain_line(#[trigger] ls[k]),
    ensures
        block_at(ls, i, depth) is None,
{
    let l = ls[i];
    assert(plain_line(l));
    assert(plain(l[0]) && l[0] != '#');
    assert(!rule_line(l, '='));
    assert(!rule_line(l, '-'));
    assert(run_end(l, 0, '#') == 0);
    assert(run_end(l, 0, ' ') == 0);
    assert(skip_ws(l, 0, l.len() as int) == 0);
    assert(code_scan(ls, i, code_start()) == code_start());
    if i + 1 < ls.len() {
        assert(plain_line(ls[i + 1]));
        assert(!rule_line(ls[i + 1], '='));
        assert(!rule_line(ls[i + 1], '-'));
    }
}

/// A fence line that nothing closes, followed by plain lines, is read as
/// one paragraph: no code block comes out, and the fence line keeps its
/// text (a one-backtick code span, then the rest of the line).
pub proof fn law_unclosed_fence_document(w: Seq<char>, rest: Seq<Seq<char>>)
    requires
        plain_title(w),
        forall|k: int| 0 <= k < rest.len() ==> plain_line(#[trigger] rest[k]),
    ensures
        ({
            let ls = seq![seq!['`', '`', '`'] + w] + rest;
            blocks_of(ls) == seq![
                BlockView::Paragraph(
                    joined_after(
                        seq![SpanView::Code(seq!['`']), SpanView::Text(w)],
                        ls,
                        ls.len() as int,
                    ),
                ),
            ]
        }),
{
    let f = seq!['`', '`', '`'] + w;
    let ls = seq![f] + rest;
    let hi = f.len() as int;
    let depth = crate::block::MAX_DEPTH as nat;
    assert(ls[0] == f);
    assert forall|k: int| 1 <= k < ls.len() implies plain_line(#[trigger] ls[k]) by {
        assert(ls[k] == rest[k - 1]);
    }
    assert forall|k: int| 0 < k < ls.len() implies !fence(#[trigger] ls[k]) by {
        assert(ls[k] == rest[k - 1]);
        assert(plain_line(rest[k - 1]));
        assert(plain(rest[k - 1][0]));
    }
    assert(fence(f));
    law_unclosed_fence(ls, 0, depth);
    if ls.len() > 1 {
        lemma_plain_line_no_block_at(ls, 1, depth);
        assert(plain_line(ls[1]));
        assert(!rule_line(ls[1], '='));
        assert(!rule_line(ls[1], '-'));
    }
    assert(block_at(ls, 0, depth) is None);
    // the spans of the fence line
    assert forall|j: int| 3 <= j < hi implies f[j] == w[j - 3] && plain(#[trigger] f[j]) by {
        assert(f[j] == w[j - 3]);
    }
    lemma_no_double_close(f, hi, 2, 1);
    assert(recognize(f, 0, hi) == Some((Rec::Code(1, 2), 0int, 3int)));
    assert(f.last() == w.last());
    lemma_plain_scan(f, 0, hi, 3, 3, false);
    let t = f.subrange(3, hi);
    assert(t =~= w);
    assert(trim_end(t) == t);
    assert(f.subrange(1, 2) =~= seq!['`']);
    assert(f.subrange(0, 0) =~= Seq::<char>::empty());
    let first = seq![SpanView::Code(seq!['`']), SpanView::Text(w)];
    assert(crate::inline::found_ok((Rec::Code(1, 2), 0int, 3int), 0, hi));
    assert(scan(f, 0, hi, 3, hi, false) == seq![SpanView::Text(w)]);
    assert(text_run(f, 0, 0, true) =~= Seq::<SpanView>::empty());
    assert(crate::inline::piece_view(f, Rec::Code(1, 2), 0, hi) == SpanView::Code(seq!['`']));
    assert(scan(f, 0, hi, 0, 0, true) == text_run(f, 0, 0, true) + seq![
        SpanView::Code(seq!['`']),
    ] + scan(f, 0, hi, 3, 3, false));
    assert(line_spans(f, true) =~= first);
    assert(join_line(seq![], f) =~= first);
    lemma_lines_after(first, ls, 1, depth);
}

/// The unclosed-fence law on text: a fence line that nothing closes,
/// followed by plain lines, all joined by newlines, parses to one paragraph
/// and no code block.
pub proof fn law_parse_unclosed_fence(w: Seq<char>, rest: Seq<Seq<char>>)
    requires
        plain_title(w),
        forall|k: int| 0 <= k < w.len() ==> #[trigger] w[k] != '\n',
        forall|k: int| 0 <= k < rest.len() ==> plain_line(#[trigger] rest[k]),
    ensures
        ({
            let ls = seq![seq!['`', '`', '`'] + w] + rest;
            document_of(joined_text(ls)) == seq![
                BlockView::Paragraph(
                    joined_after(
                        seq![SpanView::Code(seq!['`']), SpanView::Text(w)],
                        ls,
                        ls.len() as int,
                    ),
                ),
            ]
        }),
{
    let f = seq!['`', '`', '`'] + w;
    let ls = seq![f] + rest;
    let s = joined_text(ls);
    assert(s.subrange(0, s.len() as int) =~= s);
    assert forall|k: int| 0 <= k < ls.len() implies simple_line(#[trigger] ls[k]) by {
        if k == 0 {
            assert(ls[0] == f);
            assert(f.last() == w.last());
            assert forall|j: int| 0 <= j < f.len() implies #[trigger] f[j] != '\n' by {
                if j >= 3 {
                    assert(f[j] == w[j - 3]);
                }
            }
        } else {
            assert(ls[k] == rest[k - 1]);
            assert(plain_line(rest[k - 1]));
        }
    }
    lemma_lines_of_joined(ls, s, 0);
    law_unclosed_fence_document(w, rest);
}

/// A definition `[id]:` with no url on its line and no line after it is no
/// link reference.
pub proof fn law_definition_needs_url(ls: Seq<Seq<char>>, i: int)
    requires
        0 <= i == ls.len() - 1,
        crate::block::ref_label(ls[i]) matches Some((a, b)) && skip_ws(
            ls[i],
            b + 2,
            ls[i].len() as int,
        ) >= ls[i].len(),
    ensures
        crate::block::link_ref_at(ls, i) is None,
{
}

} // verus!
