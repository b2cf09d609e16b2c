//! The inline span engine: scans the characters of a line left to right and
//! recognizes escapes, code spans, strong and emphasis, hard breaks, images,
//! links and reference links; everything else becomes text.
//!
//! The grammar is given by the spec functions below over a window
//! `s[lo..hi]` of a character sequence; indices are absolute positions in `s`.

use vstd::prelude::*;
use crate::text::{
    chars_of, is_ws, lower_of, lowercase, skip_ws, skip_ws_back_exec, skip_ws_exec, spec_is_ws,
    prefix_bytes, prefix_bytes_exec, string_of, trim, trim_end, trim_start,
};
use crate::tree::{Span, SpanView, lemma_spans_view_push, span_view, spans_view};

verus! {

/// The characters that a backslash turns into a literal.
pub open spec fn escapable(c: char) -> bool {
    c == '\\' || c == '`' || c == '*' || c == '_' || c == '{' || c == '}' || c == '[' || c == ']'
        || c == '(' || c == ')' || c == '#' || c == '+' || c == '-' || c == '.' || c == '!'
}

/// What a recognizer found; all positions are absolute indices into the
/// scanned sequence.
pub enum Rec {
    Lit(char),
    Brk,
    /// Content range.
    Code(int, int),
    Strong(int, int),
    Emph(int, int),
    /// Alternative text, url, optional title.
    Img(int, int, int, int, Option<(int, int)>),
    /// Content, url (before trimming), optional title.
    Link(int, int, int, int, Option<(int, int)>),
    /// Content, optional explicit id (before trimming and case folding),
    /// raw source range.
    Ref(int, int, Option<(int, int)>, int, int),
}

// ---------------------------------------------------------------- code spans

/// Searches the content length `k` of a code span whose content starts at
/// `a` and which is closed by `d` backticks: the shortest content, free of
/// newlines, that is followed by the closing run.
pub open spec fn code_close(s: Seq<char>, hi: int, a: int, d: int, k: int) -> Option<int>
    decreases hi - a - k,
{
    if k < 1 || d < 1 || a + k + d > hi || s[a + k - 1] == '\n' {
        None
    } else if s[a + k] == '`' && (d == 1 || s[a + k + 1] == '`') {
        Some(k)
    } else {
        code_close(s, hi, a, d, k + 1)
    }
}

/// A code span at `i` (where `s[i]` is a backtick): delimited by two
/// backticks if that closes, else by one.
pub open spec fn code_at(s: Seq<char>, i: int, hi: int) -> Option<(Rec, int, int)> {
    if i + 1 < hi && s[i + 1] == '`' && code_close(s, hi, i + 2, 2, 1) is Some {
        let k = code_close(s, hi, i + 2, 2, 1)->0;
        Some((Rec::Code(i + 2, i + 2 + k), 0, k + 4))
    } else {
        match code_close(s, hi, i + 1, 1, 1) {
            Some(k) => Some((Rec::Code(i + 1, i + 1 + k), 0, k + 2)),
            None => None,
        }
    }
}

// ------------------------------------------------------- strong and emphasis

/// The position of the first of the two closing delimiters `e` of a strong
/// span, scanning from `j`; a backslash hides the character after it.
pub open spec fn strong_end(s: Seq<char>, hi: int, e: char, j: int, first: bool) -> Option<int>
    decreases hi + 2 - j,
{
    if j >= hi {
        None
    } else if s[j] == e {
        if first {
            Some(j - 1)
        } else {
            strong_end(s, hi, e, j + 1, true)
        }
    } else if s[j] == '\\' {
        strong_end(s, hi, e, j + 2, false)
    } else {
        strong_end(s, hi, e, j + 1, false)
    }
}

pub open spec fn strong_at(s: Seq<char>, i: int, hi: int) -> Option<(Rec, int, int)> {
    match strong_end(s, hi, s[i], i + 2, false) {
        Some(end) => if end > i + 2 {
            Some((Rec::Strong(i + 2, end), 0, end + 2 - i))
        } else {
            None
        },
        None => None,
    }
}

/// The position of the closing delimiter `e` of an emphasis span, scanning
/// from `j`: a delimiter with whitespace on both sides does not close, and a
/// backslash hides the character after it.
pub open spec fn emph_end(s: Seq<char>, hi: int, e: char, j: int, prev_ws: bool) -> Option<int>
    decreases hi + 2 - j,
{
    if j >= hi {
        None
    } else if s[j] == e {
        if !(prev_ws && j + 1 < hi && spec_is_ws(s[j + 1])) {
            Some(j)
        } else {
            emph_end(s, hi, e, j + 1, false)
        }
    } else if s[j] == '\\' {
        emph_end(s, hi, e, j + 2, false)
    } else {
        emph_end(s, hi, e, j + 1, spec_is_ws(s[j]))
    }
}

pub open spec fn emph_at(s: Seq<char>, i: int, hi: int) -> Option<(Rec, int, int)> {
    match emph_end(s, hi, s[i], i + 1, false) {
        Some(end) => if end > i + 1 {
            Some((Rec::Emph(i + 1, end), 0, end + 1 - i))
        } else {
            None
        },
        None => None,
    }
}

// ------------------------------------------------------------------- images

/// The closing quote of an image title that starts before `b`: the first
/// `"` followed by `)`, with no newline on the way.
pub open spec fn img_title(s: Seq<char>, hi: int, b: int) -> Option<int>
    decreases hi - b,
{
    if b + 1 >= hi {
        None
    } else if s[b] == '"' && s[b + 1] == ')' {
        Some(b)
    } else if s[b] == '\n' {
        None
    } else {
        img_title(s, hi, b + 1)
    }
}

/// The end `q` of an image url and the closing quote of its title, if any.
pub open spec fn img_url(s: Seq<char>, hi: int, q: int) -> Option<(int, Option<int>)>
    decreases hi - q,
{
    if q >= hi {
        None
    } else if spec_is_ws(s[q]) && q + 1 < hi && s[q + 1] == '"' && img_title(s, hi, q + 2) is Some {
        Some((q, Some(img_title(s, hi, q + 2)->0)))
    } else if s[q] == ')' {
        Some((q, None))
    } else if s[q] == '\n' {
        None
    } else {
        img_url(s, hi, q + 1)
    }
}

/// The end `p` of an image's alternative text, then the url's end and title.
pub open spec fn img_text(s: Seq<char>, hi: int, p: int) -> Option<(int, int, Option<int>)>
    decreases hi - p,
{
    if p + 1 >= hi {
        None
    } else if s[p] == ']' && s[p + 1] == '(' && img_url(s, hi, p + 2) is Some {
        let (q, t) = img_url(s, hi, p + 2)->0;
        Some((p, q, t))
    } else if s[p] == '\n' {
        None
    } else {
        img_text(s, hi, p + 1)
    }
}

/// An image `![text](url)` or `![text](url "title")` at `i`.
pub open spec fn image_at(s: Seq<char>, i: int, hi: int) -> Option<(Rec, int, int)> {
    match img_text(s, hi, i + 2) {
        Some((p, q, None)) => Some((Rec::Img(i + 2, p, p + 2, q, None), 0, q + 1 - i)),
        Some((p, q, Some(b))) => Some(
            (Rec::Img(i + 2, p, p + 2, q, Some((q + 2, b))), 0, b + 2 - i),
        ),
        None => None,
    }
}

// -------------------------------------------------------------------- links

/// Whether a `]` comes at or after `j`, before any newline.
pub open spec fn link_gate(s: Seq<char>, hi: int, j: int) -> bool
    decreases hi - j,
{
    if j >= hi {
        false
    } else if s[j] == ']' {
        true
    } else if s[j] == '\n' {
        false
    } else {
        link_gate(s, hi, j + 1)
    }
}

/// The `]` that balances the brackets open at `j` (`level` of them); a
/// backslash hides the character after it.
pub open spec fn link_close(s: Seq<char>, hi: int, j: int, level: int) -> Option<int>
    decreases hi + 2 - j,
{
    if j >= hi {
        None
    } else if s[j] == '\\' {
        link_close(s, hi, j + 2, level)
    } else if s[j] == ']' {
        if level <= 1 {
            Some(j)
        } else {
            link_close(s, hi, j + 1, level - 1)
        }
    } else if s[j] == '[' {
        link_close(s, hi, j + 1, level + 1)
    } else {
        link_close(s, hi, j + 1, level)
    }
}

/// The last `]` at or after `j` and before the next newline.
pub open spec fn last_bracket(s: Seq<char>, hi: int, j: int, best: Option<int>) -> Option<int>
    decreases hi - j,
{
    if j >= hi || s[j] == '\n' {
        best
    } else if s[j] == ']' {
        last_bracket(s, hi, j + 1, Some(j))
    } else {
        last_bracket(s, hi, j + 1, best)
    }
}

/// An explicit reference `[id]` after a link's text, possibly after
/// whitespace: the start of the id and its closing bracket.
pub open spec fn ref_attr(s: Seq<char>, hi: int, a: int) -> Option<(int, int)> {
    let w = skip_ws(s, a, hi);
    if w < hi && s[w] == '[' {
        match last_bracket(s, hi, w + 1, None) {
            Some(l) => Some((w + 1, l)),
            None => None,
        }
    } else {
        None
    }
}

/// The closing quote `b` of a link title, and the end of the link after the
/// `)` that follows it past optional whitespace.
pub open spec fn link_title(s: Seq<char>, hi: int, b: int) -> Option<(int, int)>
    decreases hi - b,
{
    if b >= hi {
        None
    } else if s[b] == '"' && skip_ws(s, b + 1, hi) < hi && s[skip_ws(s, b + 1, hi)] == ')' {
        Some((b, skip_ws(s, b + 1, hi) + 1))
    } else if s[b] == '\n' {
        None
    } else {
        link_title(s, hi, b + 1)
    }
}

/// The end `q` of a link url (the shortest that can be closed), its title if
/// any, and the end of the link.
pub open spec fn link_url(s: Seq<char>, hi: int, q: int) -> Option<(int, Option<(int, int)>, int)>
    decreases hi - q,
{
    if q >= hi {
        None
    } else {
        let g = skip_ws(s, q, hi);
        if g < hi && s[g] == '"' && link_title(s, hi, g + 1) is Some {
            let (b, e) = link_title(s, hi, g + 1)->0;
            Some((q, Some((g + 1, b)), e))
        } else if g < hi && s[g] == ')' {
            Some((q, None, g + 1))
        } else if s[q] == '\n' {
            None
        } else {
            link_url(s, hi, q + 1)
        }
    }
}

/// A link at `i` (where `s[i]` is `[`): balanced text, then an explicit
/// reference, an inline url, or nothing (an implicit reference).
pub open spec fn link_at(s: Seq<char>, i: int, hi: int) -> Option<(Rec, int, int)> {
    if !link_gate(s, hi, i + 1) {
        None
    } else {
        match link_close(s, hi, i + 1, 1) {
            None => None,
            Some(c) => match ref_attr(s, hi, c + 1) {
                Some((ia, l)) => Some((Rec::Ref(i + 1, c, Some((ia, l)), i, l + 1), 0, l + 1 - i)),
                None => if c + 1 < hi && s[c + 1] == '(' && link_url(s, hi, c + 2) is Some {
                    let (q, t, e) = link_url(s, hi, c + 2)->0;
                    Some((Rec::Link(i + 1, c, c + 2, q, t), 0, e - i))
                } else {
                    Some((Rec::Ref(i + 1, c, None, i, c + 1), 0, c + 1 - i))
                },
            },
        }
    }
}

// --------------------------------------------------------------- dispatcher

/// The recognizer that applies at `i`, chosen by the characters there; the
/// result is what was found, the offset at which it starts, and how many
/// characters it consumes from `i`.
pub open spec fn recognize(s: Seq<char>, i: int, hi: int) -> Option<(Rec, int, int)> {
    let c0 = s[i];
    let has1 = i + 1 < hi;
    if c0 == '\\' {
        if has1 && escapable(s[i + 1]) {
            Some((Rec::Lit(s[i + 1]), 0, 2))
        } else {
            None
        }
    } else if c0 == '`' {
        code_at(s, i, hi)
    } else if has1 && ((c0 == '*' && s[i + 1] == '*') || (c0 == '_' && s[i + 1] == '_')) {
        strong_at(s, i, hi)
    } else if c0 == '*' || c0 == '_' {
        emph_at(s, i, hi)
    } else if has1 && c0 == ' ' && s[i + 1] == ' ' && hi == i + 2 {
        Some((Rec::Brk, 0, 2))
    } else if has1 && c0 == '!' && s[i + 1] == '[' {
        image_at(s, i, hi)
    } else if c0 == '[' {
        link_at(s, i, hi)
    } else if has1 && (s[i + 1] == '*' || s[i + 1] == '_') {
        if spec_is_ws(c0) && i + 2 < hi && spec_is_ws(s[i + 2]) {
            Some((Rec::Lit(s[i + 1]), 1, 2))
        } else {
            None
        }
    } else {
        None
    }
}

pub open spec fn range_in(r: (int, int), lo: int, hi: int) -> bool {
    lo <= r.0 <= r.1 <= hi
}

pub open spec fn opt_range_in(r: Option<(int, int)>, lo: int, hi: int) -> bool {
    match r {
        Some(x) => range_in(x, lo, hi),
        None => true,
    }
}

/// The ranges of `rec` lie inside `s[i..i + n]`, and nested content starts
/// after `i`.
pub open spec fn rec_in(rec: Rec, i: int, n: int) -> bool {
    match rec {
        Rec::Lit(_) => true,
        Rec::Brk => true,
        Rec::Code(a, b) => range_in((a, b), i, i + n),
        Rec::Strong(a, b) => range_in((a, b), i + 1, i + n),
        Rec::Emph(a, b) => range_in((a, b), i + 1, i + n),
        Rec::Img(a, b, c, d, t) => range_in((a, b), i, i + n) && range_in((c, d), i, i + n)
            && opt_range_in(t, i, i + n),
        Rec::Link(a, b, c, d, t) => range_in((a, b), i + 1, i + n) && range_in((c, d), i, i + n)
            && opt_range_in(t, i, i + n),
        Rec::Ref(a, b, id, c, d) => range_in((a, b), i + 1, i + n) && opt_range_in(id, i, i + n)
            && range_in((c, d), i, i + n),
    }
}

/// A recognizer's result is well placed in the window.
pub open spec fn found_ok(f: (Rec, int, int), i: int, hi: int) -> bool {
    let (rec, off, n) = f;
    &&& 1 <= n
    &&& i + n <= hi
    &&& 0 <= off <= 1
    &&& off < n
    &&& rec_in(rec, i, n)
}

pub open spec fn sub_opt(s: Seq<char>, r: Option<(int, int)>) -> Option<Seq<char>> {
    match r {
        Some((a, b)) => Some(s.subrange(a, b)),
        None => None,
    }
}

/// The span that `rec` stands for; nested content is scanned again.
pub open spec fn piece_view(s: Seq<char>, rec: Rec, lo: int, hi: int) -> SpanView
    decreases hi - lo, 0int,
{
    match rec {
        Rec::Lit(c) => SpanView::Literal(c),
        Rec::Brk => SpanView::Break,
        Rec::Code(a, b) => SpanView::Code(s.subrange(a, b)),
        Rec::Strong(a, b) => if lo < a <= b <= hi {
            SpanView::Strong(scan(s, a, b, a, a, true))
        } else {
            SpanView::Strong(Seq::empty())
        },
        Rec::Emph(a, b) => if lo < a <= b <= hi {
            SpanView::Emphasis(scan(s, a, b, a, a, true))
        } else {
            SpanView::Emphasis(Seq::empty())
        },
        Rec::Img(a, b, c, d, t) => SpanView::Image(s.subrange(a, b), s.subrange(c, d), sub_opt(s, t)),
        Rec::Link(a, b, c, d, t) => if lo < a <= b <= hi {
            SpanView::Link(scan(s, a, b, a, a, true), trim(s.subrange(c, d)), sub_opt(s, t))
        } else {
            SpanView::Link(Seq::empty(), trim(s.subrange(c, d)), sub_opt(s, t))
        },
        Rec::Ref(a, b, id, c, d) => {
            let idv = match id {
                Some((x, y)) => lower_of(trim(s.subrange(x, y))),
                None => Seq::empty(),
            };
            if lo < a <= b <= hi {
                SpanView::RefLink(scan(s, a, b, a, a, true), idv, s.subrange(c, d))
            } else {
                SpanView::RefLink(Seq::empty(), idv, s.subrange(c, d))
            }
        },
    }
}

/// The text run `s[start..end]` as it is pushed: its leading whitespace is
/// dropped when it comes first.
pub open spec fn text_run(s: Seq<char>, start: int, end: int, lead: bool) -> Seq<SpanView> {
    let t = s.subrange(start, end);
    if t.len() > 0 {
        seq![SpanView::Text(if lead { trim_start(t) } else { t })]
    } else {
        seq![]
    }
}

/// The last text run `s[start..hi]`: its trailing whitespace is dropped too.
pub open spec fn tail_run(s: Seq<char>, start: int, hi: int, lead: bool) -> Seq<SpanView> {
    let t = s.subrange(start, hi);
    if t.len() > 0 {
        seq![SpanView::Text(trim_end(if lead { trim_start(t) } else { t }))]
    } else {
        seq![]
    }
}

/// The spans of the window `s[lo..hi]`, scanned from `i` with the pending
/// text run starting at `start`; `lead` says that nothing was pushed yet.
pub open spec fn scan(s: Seq<char>, lo: int, hi: int, start: int, i: int, lead: bool) -> Seq<SpanView>
    decreases hi - lo, hi - i + 2,
{
    if !(0 <= lo <= start <= i <= hi <= s.len()) {
        Seq::empty()
    } else if i >= hi {
        tail_run(s, start, hi, lead)
    } else {
        match recognize(s, i, hi) {
            Some((rec, off, n)) => if found_ok((rec, off, n), i, hi) {
                text_run(s, start, i + off, lead) + seq![piece_view(s, rec, lo, hi)] + scan(
                    s,
                    lo,
                    hi,
                    i + n,
                    i + n,
                    false,
                )
            } else {
                scan(s, lo, hi, start, i + 1, lead)
            },
            None => scan(s, lo, hi, start, i + 1, lead),
        }
    }
}

/// The spans of a whole string.
pub open spec fn spans_of(s: Seq<char>) -> Seq<SpanView> {
    scan(s, 0, s.len() as int, 0, 0, true)
}

// ============================================================ executable side

/// A recognizer's result in executable form; it mirrors [`Rec`].
#[derive(Clone, Copy)]
pub enum Piece {
    Lit(char),
    Brk,
    Code(usize, usize),
    Strong(usize, usize),
    Emph(usize, usize),
    Img(usize, usize, usize, usize, Option<(usize, usize)>),
    Link(usize, usize, usize, usize, Option<(usize, usize)>),
    Ref(usize, usize, Option<(usize, usize)>, usize, usize),
}

pub open spec fn pair_view(o: Option<(usize, usize)>) -> Option<(int, int)> {
    match o {
        Some((a, b)) => Some((a as int, b as int)),
        None => None,
    }
}

pub open spec fn piece_rec(p: Piece) -> Rec {
    match p {
        Piece::Lit(c) => Rec::Lit(c),
        Piece::Brk => Rec::Brk,
        Piece::Code(a, b) => Rec::Code(a as int, b as int),
        Piece::Strong(a, b) => Rec::Strong(a as int, b as int),
        Piece::Emph(a, b) => Rec::Emph(a as int, b as int),
        Piece::Img(a, b, c, d, t) => Rec::Img(a as int, b as int, c as int, d as int, pair_view(t)),
        Piece::Link(a, b, c, d, t) => Rec::Link(a as int, b as int, c as int, d as int, pair_view(t)),
        Piece::Ref(a, b, id, c, d) => Rec::Ref(a as int, b as int, pair_view(id), c as int, d as int),
    }
}

pub open spec fn found_view(f: Option<(Piece, usize, usize)>) -> Option<(Rec, int, int)> {
    match f {
        Some((p, o, n)) => Some((piece_rec(p), o as int, n as int)),
        None => None,
    }
}

pub open spec fn found_fits(f: Option<(Piece, usize, usize)>, i: int, hi: int) -> bool {
    match f {
        Some((p, o, n)) => found_ok((piece_rec(p), o as int, n as int), i, hi),
        None => true,
    }
}

pub open spec fn opt_int(o: Option<usize>) -> Option<int> {
    match o {
        Some(k) => Some(k as int),
        None => None,
    }
}

fn code_close_in(s: &[char], hi: usize, a: usize, d: usize) -> (r: Option<usize>)
    requires
        hi <= s@.len(),
        a <= hi,
        1 <= d <= 2,
    ensures
        opt_int(r) == code_close(s@, hi as int, a as int, d as int, 1),
        r matches Some(k) ==> 1 <= k && a + k + d <= hi,
{
    let mut k: usize = 1;
    loop
        invariant
            1 <= k <= hi - a + 1,
            hi <= s@.len(),
            a <= hi,
            1 <= d <= 2,
            code_close(s@, hi as int, a as int, d as int, k as int) == code_close(
                s@,
                hi as int,
                a as int,
                d as int,
                1,
            ),
        decreases hi - a + 1 - k,
    {
        if hi - a < d || k > hi - a - d {
            return None;
        }
        if s[a + k - 1] == '\n' {
            return None;
        }
        if s[a + k] == '`' && (d == 1 || s[a + k + 1] == '`') {
            return Some(k);
        }
        k += 1;
    }
}

/// A code span at `i`.
fn code_in(s: &[char], i: usize, hi: usize) -> (r: Option<(Piece, usize, usize)>)
    requires
        i < hi <= s@.len(),
    ensures
        found_view(r) == code_at(s@, i as int, hi as int),
        found_fits(r, i as int, hi as int),
{
    if i + 1 < hi && s[i + 1] == '`' {
        if let Some(k) = code_close_in(s, hi, i + 2, 2) {
            return Some((Piece::Code(i + 2, i + 2 + k), 0, k + 4));
        }
    }
    match code_close_in(s, hi, i + 1, 1) {
        Some(k) => Some((Piece::Code(i + 1, i + 1 + k), 0, k + 2)),
        None => None,
    }
}

fn strong_end_in(s: &[char], hi: usize, e: char, j0: usize) -> (r: Option<usize>)
    requires
        hi <= s@.len(),
        1 <= j0 <= hi,
    ensures
        opt_int(r) == strong_end(s@, hi as int, e, j0 as int, false),
        r matches Some(k) ==> j0 <= k + 1 && k + 2 <= hi,
{
    let mut j = j0;
    let mut first = false;
    loop
        invariant
            hi <= s@.len(),
            1 <= j0 <= j <= hi,
            first ==> j0 + 1 <= j,
            strong_end(s@, hi as int, e, j as int, first) == strong_end(
                s@,
                hi as int,
                e,
                j0 as int,
                false,
            ),
        decreases hi - j,
    {
        if j >= hi {
            return None;
        }
        if s[j] == e {
            if first {
                return Some(j - 1);
            }
            first = true;
            j += 1;
        } else if s[j] == '\\' {
            if hi - j < 2 {
                assert(strong_end(s@, hi as int, e, j + 2, false) is None);
                return None;
            }
            first = false;
            j += 2;
        } else {
            first = false;
            j += 1;
        }
    }
}

/// Strong content delimited by the two characters at `i`.
fn strong_in(s: &[char], i: usize, hi: usize) -> (r: Option<(Piece, usize, usize)>)
    requires
        i + 1 < hi <= s@.len(),
    ensures
        found_view(r) == strong_at(s@, i as int, hi as int),
        found_fits(r, i as int, hi as int),
{
    match strong_end_in(s, hi, s[i], i + 2) {
        Some(end) => if end > i + 2 {
            Some((Piece::Strong(i + 2, end), 0, end + 2 - i))
        } else {
            None
        },
        None => None,
    }
}

fn emph_end_in(s: &[char], hi: usize, e: char, j0: usize) -> (r: Option<usize>)
    requires
        hi <= s@.len(),
        j0 <= hi,
    ensures
        opt_int(r) == emph_end(s@, hi as int, e, j0 as int, false),
        r matches Some(k) ==> j0 <= k < hi,
{
    let mut j = j0;
    let mut prev_ws = false;
    loop
        invariant
            hi <= s@.len(),
            j0 <= j <= hi,
            emph_end(s@, hi as int, e, j as int, prev_ws) == emph_end(
                s@,
                hi as int,
                e,
                j0 as int,
                false,
            ),
        decreases hi - j,
    {
        if j >= hi {
            return None;
        }
        let c = s[j];
        if c == e {
            if !(prev_ws && j + 1 < hi && is_ws(s[j + 1])) {
                return Some(j);
            }
            prev_ws = false;
            j += 1;
        } else if c == '\\' {
            if hi - j < 2 {
                assert(emph_end(s@, hi as int, e, j + 2, false) is None);
                return None;
            }
            prev_ws = false;
            j += 2;
        } else {
            prev_ws = is_ws(c);
            j += 1;
        }
    }
}

/// Emphasis delimited by the character at `i`.
fn emphasis_in(s: &[char], i: usize, hi: usize) -> (r: Option<(Piece, usize, usize)>)
    requires
        i < hi <= s@.len(),
    ensures
        found_view(r) == emph_at(s@, i as int, hi as int),
        found_fits(r, i as int, hi as int),
{
    match emph_end_in(s, hi, s[i], i + 1) {
        Some(end) => if end > i + 1 {
            Some((Piece::Emph(i + 1, end), 0, end + 1 - i))
        } else {
            None
        },
        None => None,
    }
}

fn img_title_in(s: &[char], hi: usize, b0: usize) -> (r: Option<usize>)
    requires
        hi <= s@.len(),
        b0 <= hi,
    ensures
        opt_int(r) == img_title(s@, hi as int, b0 as int),
        r matches Some(b) ==> b0 <= b && b + 1 < hi,
{
    let mut b = b0;
    loop
        invariant
            hi <= s@.len(),
            b0 <= b <= hi,
            img_title(s@, hi as int, b as int) == img_title(s@, hi as int, b0 as int),
        decreases hi - b,
    {
        if hi - b < 2 {
            return None;
        }
        if s[b] == '"' && s[b + 1] == ')' {
            return Some(b);
        }
        if s[b] == '\n' {
            return None;
        }
        b += 1;
    }
}

fn img_url_in(s: &[char], hi: usize, q0: usize) -> (r: Option<(usize, Option<usize>)>)
    requires
        hi <= s@.len(),
        q0 <= hi,
    ensures
        match r {
            Some((q, t)) => img_url(s@, hi as int, q0 as int) == Some((q as int, opt_int(t))),
            None => img_url(s@, hi as int, q0 as int) is None,
        },
        r matches Some((q, t)) ==> q0 <= q < hi && (t matches Some(b) ==> q + 2 <= b && b + 1 < hi),
{
    let mut q = q0;
    loop
        invariant
            hi <= s@.len(),
            q0 <= q <= hi,
            img_url(s@, hi as int, q as int) == img_url(s@, hi as int, q0 as int),
        decreases hi - q,
    {
        if q >= hi {
            return None;
        }
        if is_ws(s[q]) && q + 1 < hi && s[q + 1] == '"' {
            if let Some(b) = img_title_in(s, hi, q + 2) {
                return Some((q, Some(b)));
            }
        }
        if s[q] == ')' {
            return Some((q, None));
        }
        if s[q] == '\n' {
            return None;
        }
        q += 1;
    }
}

fn img_text_in(s: &[char], hi: usize, p0: usize) -> (r: Option<(usize, usize, Option<usize>)>)
    requires
        hi <= s@.len(),
        p0 <= hi,
    ensures
        match r {
            Some((p, q, t)) => img_text(s@, hi as int, p0 as int) == Some(
                (p as int, q as int, opt_int(t)),
            ),
            None => img_text(s@, hi as int, p0 as int) is None,
        },
        r matches Some((p, q, t)) ==> p0 <= p && p + 2 <= q < hi && (t matches Some(b) ==> q + 2
            <= b && b + 1 < hi),
{
    let mut p = p0;
    loop
        invariant
            hi <= s@.len(),
            p0 <= p <= hi,
            img_text(s@, hi as int, p as int) == img_text(s@, hi as int, p0 as int),
        decreases hi - p,
    {
        if hi - p < 2 {
            return None;
        }
        if s[p] == ']' && s[p + 1] == '(' {
            if let Some((q, t)) = img_url_in(s, hi, p + 2) {
                return Some((p, q, t));
            }
        }
        if s[p] == '\n' {
            return None;
        }
        p += 1;
    }
}

/// An image at `i`, where `s[i..i + 2]` is `![`.
fn image_in(s: &[char], i: usize, hi: usize) -> (r: Option<(Piece, usize, usize)>)
    requires
        i + 1 < hi <= s@.len(),
    ensures
        found_view(r) == image_at(s@, i as int, hi as int),
        found_fits(r, i as int, hi as int),
{
    match img_text_in(s, hi, i + 2) {
        Some((p, q, None)) => Some((Piece::Img(i + 2, p, p + 2, q, None), 0, q + 1 - i)),
        Some((p, q, Some(b))) => Some((Piece::Img(i + 2, p, p + 2, q, Some((q + 2, b))), 0, b + 2 - i)),
        None => None,
    }
}

fn link_gate_in(s: &[char], hi: usize, j0: usize) -> (r: bool)
    requires
        hi <= s@.len(),
        j0 <= hi,
    ensures
        r == link_gate(s@, hi as int, j0 as int),
{
    let mut j = j0;
    while j < hi && s[j] != ']' && s[j] != '\n'
        invariant
            hi <= s@.len(),
            j0 <= j <= hi,
            link_gate(s@, hi as int, j as int) == link_gate(s@, hi as int, j0 as int),
        decreases hi - j,
    {
        j += 1;
    }
    j < hi && s[j] == ']'
}

fn link_close_in(s: &[char], hi: usize, j0: usize) -> (r: Option<usize>)
    requires
        hi <= s@.len(),
        1 <= j0 <= hi,
    ensures
        opt_int(r) == link_close(s@, hi as int, j0 as int, 1),
        r matches Some(c) ==> j0 <= c < hi,
{
    let mut j = j0;
    let mut level: usize = 1;
    loop
        invariant
            hi <= s@.len(),
            1 <= j0 <= j <= hi,
            1 <= level <= j - j0 + 1,
            link_close(s@, hi as int, j as int, level as int) == link_close(
                s@,
                hi as int,
                j0 as int,
                1,
            ),
        decreases hi - j,
    {
        if j >= hi {
            return None;
        }
        let c = s[j];
        if c == '\\' {
            if hi - j < 2 {
                assert(link_close(s@, hi as int, j + 2, level as int) is None);
                return None;
            }
            j += 2;
        } else if c == ']' {
            if level <= 1 {
                return Some(j);
            }
            level -= 1;
            j += 1;
        } else if c == '[' {
            level += 1;
            j += 1;
        } else {
            j += 1;
        }
    }
}

fn last_bracket_in(s: &[char], hi: usize, j0: usize) -> (r: Option<usize>)
    requires
        hi <= s@.len(),
        j0 <= hi,
    ensures
        opt_int(r) == last_bracket(s@, hi as int, j0 as int, None),
        r matches Some(l) ==> j0 <= l < hi,
{
    let mut j = j0;
    let mut best: Option<usize> = None;
    while j < hi && s[j] != '\n'
        invariant
            hi <= s@.len(),
            j0 <= j <= hi,
            last_bracket(s@, hi as int, j as int, opt_int(best)) == last_bracket(
                s@,
                hi as int,
                j0 as int,
                None,
            ),
            best matches Some(l) ==> j0 <= l < j,
        decreases hi - j,
    {
        if s[j] == ']' {
            best = Some(j);
        }
        j += 1;
    }
    best
}

fn ref_attr_in(s: &[char], hi: usize, a: usize) -> (r: Option<(usize, usize)>)
    requires
        hi <= s@.len(),
        a <= hi,
    ensures
        pair_view(r) == ref_attr(s@, hi as int, a as int),
        r matches Some((x, l)) ==> a < x <= l < hi,
{
    let w = skip_ws_exec(s, a, hi);
    if w < hi && s[w] == '[' {
        match last_bracket_in(s, hi, w + 1) {
            Some(l) => Some((w + 1, l)),
            None => None,
        }
    } else {
        None
    }
}

fn link_title_in(s: &[char], hi: usize, b0: usize) -> (r: Option<(usize, usize)>)
    requires
        hi <= s@.len(),
        b0 <= hi,
    ensures
        pair_view(r) == link_title(s@, hi as int, b0 as int),
        r matches Some((b, e)) ==> b0 <= b < e <= hi,
{
    let mut b = b0;
    loop
        invariant
            hi <= s@.len(),
            b0 <= b <= hi,
            link_title(s@, hi as int, b as int) == link_title(s@, hi as int, b0 as int),
        decreases hi - b,
    {
        if b >= hi {
            return None;
        }
        if s[b] == '"' {
            let g = skip_ws_exec(s, b + 1, hi);
            if g < hi && s[g] == ')' {
                return Some((b, g + 1));
            }
        }
        if s[b] == '\n' {
            return None;
        }
        b += 1;
    }
}

fn link_url_in(s: &[char], hi: usize, q0: usize) -> (r: Option<(usize, Option<(usize, usize)>, usize)>)
    requires
        hi <= s@.len(),
        q0 <= hi,
    ensures
        match r {
            Some((q, t, e)) => link_url(s@, hi as int, q0 as int) == Some(
                (q as int, pair_view(t), e as int),
            ),
            None => link_url(s@, hi as int, q0 as int) is None,
        },
        r matches Some((q, t, e)) ==> q0 <= q < e <= hi && (t matches Some((x, y)) ==> q < x <= y
            < e),
{
    let mut q = q0;
    loop
        invariant
            hi <= s@.len(),
            q0 <= q <= hi,
            link_url(s@, hi as int, q as int) == link_url(s@, hi as int, q0 as int),
        decreases hi - q,
    {
        if q >= hi {
            return None;
        }
        let g = skip_ws_exec(s, q, hi);
        if g < hi && s[g] == '"' {
            if let Some((b, e)) = link_title_in(s, hi, g + 1) {
                return Some((q, Some((g + 1, b)), e));
            }
        }
        if g < hi && s[g] == ')' {
            return Some((q, None, g + 1));
        }
        if s[q] == '\n' {
            return None;
        }
        q += 1;
    }
}

/// A link at `i`, where `s[i]` is `[`.
fn link_in(s: &[char], i: usize, hi: usize) -> (r: Option<(Piece, usize, usize)>)
    requires
        i < hi <= s@.len(),
    ensures
        found_view(r) == link_at(s@, i as int, hi as int),
        found_fits(r, i as int, hi as int),
{
    if !link_gate_in(s, hi, i + 1) {
        return None;
    }
    match link_close_in(s, hi, i + 1) {
        None => None,
        Some(c) => match ref_attr_in(s, hi, c + 1) {
            Some((ia, l)) => Some((Piece::Ref(i + 1, c, Some((ia, l)), i, l + 1), 0, l + 1 - i)),
            None => {
                if c + 1 < hi && s[c + 1] == '(' {
                    if let Some((q, t, e)) = link_url_in(s, hi, c + 2) {
                        return Some((Piece::Link(i + 1, c, c + 2, q, t), 0, e - i));
                    }
                }
                Some((Piece::Ref(i + 1, c, None, i, c + 1), 0, c + 1 - i))
            },
        },
    }
}

/// The span that starts at `i`, if any: the recognizer is chosen by the
/// characters at `i`.
fn parse_span(s: &[char], i: usize, hi: usize) -> (r: Option<(Piece, usize, usize)>)
    requires
        i < hi <= s@.len(),
    ensures
        found_view(r) == recognize(s@, i as int, hi as int),
        found_fits(r, i as int, hi as int),
{
    let c0 = s[i];
    let has1 = i + 1 < hi;
    if c0 == '\\' {
        if has1 && escapable_char(s[i + 1]) {
            Some((Piece::Lit(s[i + 1]), 0, 2))
        } else {
            None
        }
    } else if c0 == '`' {
        code_in(s, i, hi)
    } else if has1 && ((c0 == '*' && s[i + 1] == '*') || (c0 == '_' && s[i + 1] == '_')) {
        strong_in(s, i, hi)
    } else if c0 == '*' || c0 == '_' {
        emphasis_in(s, i, hi)
    } else if has1 && c0 == ' ' && s[i + 1] == ' ' && hi == i + 2 {
        Some((Piece::Brk, 0, 2))
    } else if has1 && c0 == '!' && s[i + 1] == '[' {
        image_in(s, i, hi)
    } else if c0 == '[' {
        link_in(s, i, hi)
    } else if has1 && (s[i + 1] == '*' || s[i + 1] == '_') {
        if is_ws(c0) && i + 2 < hi && is_ws(s[i + 2]) {
            Some((Piece::Lit(s[i + 1]), 1, 2))
        } else {
            None
        }
    } else {
        None
    }
}

fn escapable_char(c: char) -> (r: bool)
    ensures
        r == escapable(c),
{
    c == '\\' || c == '`' || c == '*' || c == '_' || c == '{' || c == '}' || c == '[' || c == ']'
        || c == '(' || c == ')' || c == '#' || c == '+' || c == '-' || c == '.' || c == '!'
}

fn opt_string(s: &[char], t: Option<(usize, usize)>) -> (r: Option<String>)
    requires
        t matches Some((a, b)) ==> a <= b <= s@.len(),
    ensures
        crate::tree::opt_view(r) == sub_opt(s@, pair_view(t)),
{
    match t {
        Some((a, b)) => Some(string_of(s, a, b)),
        None => None,
    }
}

/// The trimmed text `s[a..b]`, as its start and end.
fn trim_range(s: &[char], a: usize, b: usize) -> (r: (usize, usize))
    requires
        a <= b <= s@.len(),
    ensures
        a <= r.0 <= r.1 <= b,
        s@.subrange(r.0 as int, r.1 as int) == trim(s@.subrange(a as int, b as int)),
{
    let x = skip_ws_exec(s, a, b);
    let y = skip_ws_back_exec(s, x, b);
    (x, y)
}

/// The span that a piece found in `s[lo..hi]` stands for.
fn build(s: &[char], p: Piece, lo: usize, hi: usize) -> (r: Span)
    requires
        lo <= hi <= s@.len(),
        exists|i: int, n: int| lo <= i && #[trigger] rec_in(piece_rec(p), i, n) && i + n <= hi,
    ensures
        span_view(r) == piece_view(s@, piece_rec(p), lo as int, hi as int),
    decreases hi - lo, 0int,
{
    match p {
        Piece::Lit(c) => Span::Literal(c),
        Piece::Brk => Span::Break,
        Piece::Code(a, b) => Span::Code(string_of(s, a, b)),
        Piece::Strong(a, b) => {
            let mut v: Vec<Span> = Vec::new();
            scan_into(s, a, b, &mut v);
            Span::Strong(v)
        },
        Piece::Emph(a, b) => {
            let mut v: Vec<Span> = Vec::new();
            scan_into(s, a, b, &mut v);
            Span::Emphasis(v)
        },
        Piece::Img(a, b, c, d, t) => Span::Image(
            string_of(s, a, b),
            string_of(s, c, d),
            opt_string(s, t),
        ),
        Piece::Link(a, b, c, d, t) => {
            let mut v: Vec<Span> = Vec::new();
            scan_into(s, a, b, &mut v);
            let (x, y) = trim_range(s, c, d);
            Span::Link(v, string_of(s, x, y), opt_string(s, t))
        },
        Piece::Ref(a, b, id, c, d) => {
            let mut v: Vec<Span> = Vec::new();
            scan_into(s, a, b, &mut v);
            let idv = match id {
                Some((x0, y0)) => {
                    let (x, y) = trim_range(s, x0, y0);
                    let raw = string_of(s, x, y);
                    lowercase(raw.as_str())
                },
                None => String::new(),
            };
            Span::RefLink(v, idv, string_of(s, c, d))
        },
    }
}

/// Pushes the text run `s[start..end]`.
fn push_text(s: &[char], start: usize, end: usize, tokens: &mut Vec<Span>)
    requires
        start <= end <= s@.len(),
    ensures
        spans_view(final(tokens)@) == spans_view(old(tokens)@) + text_run(
            s@,
            start as int,
            end as int,
            old(tokens)@.len() == 0,
        ),
        final(tokens)@.len() >= old(tokens)@.len(),
{
    if start < end {
        let a = if tokens.len() == 0 {
            skip_ws_exec(s, start, end)
        } else {
            start
        };
        let t = string_of(s, a, end);
        proof {
            lemma_spans_view_push(tokens@, Span::Text(t));
        }
        tokens.push(Span::Text(t));
    } else {
        assert(text_run(s@, start as int, end as int, old(tokens)@.len() == 0) =~= seq![]);
        assert(spans_view(tokens@) + seq![] =~= spans_view(tokens@));
    }
}

/// Pushes the last text run `s[start..hi]`, trimmed at its end.
fn push_tail(s: &[char], start: usize, hi: usize, tokens: &mut Vec<Span>)
    requires
        start <= hi <= s@.len(),
    ensures
        spans_view(final(tokens)@) == spans_view(old(tokens)@) + tail_run(
            s@,
            start as int,
            hi as int,
            old(tokens)@.len() == 0,
        ),
{
    if start < hi {
        let a = if tokens.len() == 0 {
            skip_ws_exec(s, start, hi)
        } else {
            start
        };
        let b = skip_ws_back_exec(s, a, hi);
        let t = string_of(s, a, b);
        proof {
            lemma_spans_view_push(tokens@, Span::Text(t));
        }
        tokens.push(Span::Text(t));
    } else {
        assert(tail_run(s@, start as int, hi as int, old(tokens)@.len() == 0) =~= seq![]);
        assert(spans_view(tokens@) + seq![] =~= spans_view(tokens@));
    }
}

/// Pushes the spans of the window `s[lo..hi]` onto `tokens`; leading
/// whitespace is dropped when `tokens` is empty, trailing whitespace at the
/// end of the window.
pub fn scan_into(s: &[char], lo: usize, hi: usize, tokens: &mut Vec<Span>)
    requires
        lo <= hi <= s@.len(),
    ensures
        spans_view(final(tokens)@) == spans_view(old(tokens)@) + scan(
            s@,
            lo as int,
            hi as int,
            lo as int,
            lo as int,
            old(tokens)@.len() == 0,
        ),
    decreases hi - lo, 1int,
{
    let mut i = lo;
    let mut start = lo;
    while i < hi
        invariant
            lo <= start <= i <= hi <= s@.len(),
            spans_view(tokens@) + scan(
                s@,
                lo as int,
                hi as int,
                start as int,
                i as int,
                tokens@.len() == 0,
            ) == spans_view(old(tokens)@) + scan(
                s@,
                lo as int,
                hi as int,
                lo as int,
                lo as int,
                old(tokens)@.len() == 0,
            ),
        decreases hi - i,
    {
        match parse_span(s, i, hi) {
            Some((p, off, n)) => {
                let ghost before = tokens@;
                let ghost lead = tokens@.len() == 0;
                push_text(s, start, i + off, tokens);
                let sp = build(s, p, lo, hi);
                proof {
                    lemma_spans_view_push(tokens@, sp);
                }
                tokens.push(sp);
                assert(spans_view(tokens@) =~= spans_view(before) + text_run(
                    s@,
                    start as int,
                    (i + off) as int,
                    lead,
                ) + seq![piece_view(s@, piece_rec(p), lo as int, hi as int)]);
                i += n;
                start = i;
            },
            None => {
                i += 1;
            },
        }
    }
    push_tail(s, start, hi, tokens);
}

/// Parses a line of text into spans.
pub fn parse_spans(text: &str) -> (r: Vec<Span>)
    ensures
        spans_view(r@) == spans_of(text@),
{
    let s = chars_of(text);
    let mut v: Vec<Span> = Vec::new();
    scan_into(s.as_slice(), 0, s.len(), &mut v);
    assert(spans_view(Seq::<Span>::empty()) + spans_of(text@) =~= spans_of(text@));
    v
}

/// Parses a line of text into spans appended to `tokens`; leading whitespace
/// is dropped only when `tokens` is empty.
pub fn parse_spans_with_buffer(text: &str, tokens: &mut Vec<Span>)
    ensures
        spans_view(final(tokens)@) == spans_view(old(tokens)@) + scan(
            text@,
            0,
            text@.len() as int,
            0,
            0,
            old(tokens)@.len() == 0,
        ),
{
    let s = chars_of(text);
    scan_into(s.as_slice(), 0, s.len(), tokens);
}

/// The span and length that a recognizer found at the start of `s`.
pub open spec fn found_span(s: Seq<char>, f: Option<(Rec, int, int)>) -> Option<(SpanView, int)> {
    match f {
        Some((rec, _, n)) => Some((piece_view(s, rec, 0, s.len() as int), n)),
        None => None,
    }
}

pub open spec fn result_view(r: Option<(Span, usize)>) -> Option<(SpanView, int)> {
    match r {
        Some((sp, n)) => Some((span_view(sp), n as int)),
        None => None,
    }
}

/// A found span with its length turned from characters into the UTF-8
/// bytes of the text it covers.
pub open spec fn in_bytes(s: Seq<char>, f: Option<(SpanView, int)>) -> Option<(SpanView, int)> {
    match f {
        Some((v, k)) => Some((v, prefix_bytes(s, k))),
        None => None,
    }
}

fn finish(text: &str, s: &[char], f: Option<(Piece, usize, usize)>) -> (r: Option<(Span, usize)>)
    requires
        s@ == text@,
        found_fits(f, 0, s@.len() as int),
    ensures
        result_view(r) == in_bytes(s@, found_span(s@, found_view(f))),
{
    match f {
        Some((p, _, n)) => Some((build(s, p, 0, s.len()), prefix_bytes_exec(text, s, n))),
        None => None,
    }
}

/// Emphasis at the start of `text`, delimited by its first character (`*`
/// or `_`), and the number of bytes it takes.
pub fn parse_emphasis(text: &str) -> (r: Option<(Span, usize)>)
    requires
        text@.len() > 0,
    ensures
        result_view(r) == in_bytes(text@, found_span(text@, emph_at(text@, 0, text@.len() as int))),
{
    let s = chars_of(text);
    let f = emphasis_in(s.as_slice(), 0, s.len());
    finish(text, s.as_slice(), f)
}

/// Strong content at the start of `text`, delimited by its first two
/// characters (`**` or `__`), and the number of bytes it takes.
pub fn parse_strong(text: &str) -> (r: Option<(Span, usize)>)
    requires
        text@.len() > 0,
    ensures
        result_view(r) == in_bytes(text@, found_span(text@, strong_at(text@, 0, text@.len() as int))),
{
    let s = chars_of(text);
    if s.len() < 2 {
        return None;
    }
    let f = strong_in(s.as_slice(), 0, s.len());
    finish(text, s.as_slice(), f)
}

/// A code span at the start of `text`, and the number of bytes it takes.
pub fn parse_code(text: &str) -> (r: Option<(Span, usize)>)
    ensures
        result_view(r) == if text@.len() > 0 && text@[0] == '`' {
            in_bytes(text@, found_span(text@, code_at(text@, 0, text@.len() as int)))
        } else {
            None
        },
{
    let s = chars_of(text);
    if s.len() == 0 || s[0] != '`' {
        return None;
    }
    let f = code_in(s.as_slice(), 0, s.len());
    finish(text, s.as_slice(), f)
}

/// An image at the start of `text`, and the number of bytes it takes.
pub fn parse_image(text: &str) -> (r: Option<(Span, usize)>)
    ensures
        result_view(r) == if text@.len() > 1 && text@[0] == '!' && text@[1] == '[' {
            in_bytes(text@, found_span(text@, image_at(text@, 0, text@.len() as int)))
        } else {
            None
        },
{
    let s = chars_of(text);
    if s.len() < 2 || s[0] != '!' || s[1] != '[' {
        return None;
    }
    let f = image_in(s.as_slice(), 0, s.len());
    finish(text, s.as_slice(), f)
}

/// A link or reference link at the start of `text`, and the number of
/// bytes it takes.
pub fn parse_link(text: &str) -> (r: Option<(Span, usize)>)
    ensures
        result_view(r) == if text@.len() > 0 && text@[0] == '[' {
            in_bytes(text@, found_span(text@, link_at(text@, 0, text@.len() as int)))
        } else {
            None
        },
{
    let s = chars_of(text);
    if s.len() == 0 || s[0] != '[' {
        return None;
    }
    let f = link_in(s.as_slice(), 0, s.len());
    finish(text, s.as_slice(), f)
}

/// A hard break: `text` is exactly two spaces.
pub fn parse_break(text: &str) -> (r: Option<(Span, usize)>)
    ensures
        result_view(r) == if text@ == seq![' ', ' '] {
            Some((SpanView::Break, 2int))
        } else {
            None
        },
{
    let s = chars_of(text);
    if s.len() == 2 && s[0] == ' ' && s[1] == ' ' {
        assert(s@ =~= seq![' ', ' ']);
        Some((Span::Break, 2))
    } else {
        None
    }
}

} // verus!
