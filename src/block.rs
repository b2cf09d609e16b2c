//! The block level: recognizers over a window of lines, and the dispatcher
//! that tries them in a fixed order and gathers paragraphs.
//!
//! Containers (blockquotes and list items) parse their dedented content
//! again; nesting is bounded by a depth budget, past which a container is no
//! longer recognized and its lines are read as paragraph text.

use vstd::prelude::*;
use crate::inline::{scan, scan_into};
use crate::text::{
    chars_of, is_ws, lower_of, lowercase, skip_ws, skip_ws_exec, spec_is_ws, string_of,
};
use crate::tree::{
    Block, BlockView, ItemView, ListItem, OrderedListType, Span, SpanView, block_view, blocks_view,
    items_view, lemma_blocks_view_len, lemma_blocks_view_push, lemma_items_view_push,
    lemma_spans_view_concat, lemma_spans_view_len, lemma_spans_view_push, opt_view, span_view,
    spans_view, strings_view,
};

verus! {

/// How deeply containers may nest.
pub const MAX_DEPTH: usize = 64;

// ------------------------------------------------------------------- lines

/// A line as `str::lines` hands it out when a newline ended it: without one
/// trailing carriage return.
pub open spec fn strip_cr(l: Seq<char>) -> Seq<char> {
    if l.len() > 0 && l.last() == '\r' {
        l.drop_last()
    } else {
        l
    }
}

/// The lines of `s[start..]`, scanning from `i` (`str::lines`): split at
/// newlines, a final newline ends the last line without opening another.
pub open spec fn lines_from(s: Seq<char>, start: int, i: int) -> Seq<Seq<char>>
    decreases s.len() - i,
{
    if i >= s.len() {
        if start < s.len() {
            seq![s.subrange(start, s.len() as int)]
        } else {
            seq![]
        }
    } else if s[i] == '\n' {
        seq![strip_cr(s.subrange(start, i))] + lines_from(s, i + 1, i + 1)
    } else {
        lines_from(s, start, i + 1)
    }
}

pub open spec fn lines_of(s: Seq<char>) -> Seq<Seq<char>> {
    lines_from(s, 0, 0)
}

/// The spans of a whole line; `lead` says that no span precedes it.
pub open spec fn line_spans(l: Seq<char>, lead: bool) -> Seq<SpanView> {
    scan(l, 0, l.len() as int, 0, 0, lead)
}

/// The spans of `l[a..b]`.
pub open spec fn window_spans(l: Seq<char>, a: int, b: int) -> Seq<SpanView> {
    scan(l, a, b, a, a, true)
}

// ---------------------------------------------------------- horizontal rule

/// Three or more of `c`, and nothing else.
pub open spec fn rule_line(l: Seq<char>, c: char) -> bool {
    l.len() >= 3 && forall|k: int| 0 <= k < l.len() ==> l[k] == c
}

pub open spec fn hr_at(ls: Seq<Seq<char>>, i: int) -> Option<(BlockView, int)> {
    if rule_line(ls[i], '=') || rule_line(ls[i], '-') {
        Some((BlockView::Hr, 1))
    } else {
        None
    }
}

// -------------------------------------------------------------- ATX heading

/// The end of the run of `c` that starts at `k`.
pub open spec fn run_end(l: Seq<char>, k: int, c: char) -> int
    decreases l.len() - k,
{
    if 0 <= k < l.len() && l[k] == c {
        run_end(l, k + 1, c)
    } else {
        k
    }
}

/// `l[t..]` is empty, or whitespace followed by closing hashes and
/// whitespace only.
pub open spec fn closes_heading(l: Seq<char>, t: int) -> bool {
    t == l.len() || (spec_is_ws(l[t]) && forall|k: int| t < k < l.len() ==> l[k] == '#'
        || spec_is_ws(l[k]))
}

/// The end of a heading's text: the first place from `t` where the rest
/// closes the heading.
pub open spec fn heading_end(l: Seq<char>, t: int) -> int
    decreases l.len() - t,
{
    if t >= l.len() || closes_heading(l, t) {
        t
    } else {
        heading_end(l, t + 1)
    }
}

pub open spec fn atx_at(ls: Seq<Seq<char>>, i: int) -> Option<(BlockView, int)> {
    let l = ls[i];
    let h = run_end(l, 0, '#');
    if 1 <= h <= 6 && h < l.len() && spec_is_ws(l[h]) {
        let e = crate::text::skip_ws_back(l, h + 1, heading_end(l, h + 1));
        Some((BlockView::Header(window_spans(l, h + 1, e), h as nat), 1))
    } else {
        None
    }
}

// ----------------------------------------------------------- setext heading

pub open spec fn setext_at(ls: Seq<Seq<char>>, i: int) -> Option<(BlockView, int)> {
    if i + 1 < ls.len() && ls[i].len() > 0 {
        if rule_line(ls[i + 1], '=') {
            Some((BlockView::Header(line_spans(ls[i], true), 1), 2))
        } else if rule_line(ls[i + 1], '-') {
            Some((BlockView::Header(line_spans(ls[i], true), 2), 2))
        } else {
            None
        }
    } else {
        None
    }
}

// --------------------------------------------------------------- code block

pub open spec fn indented(l: Seq<char>) -> bool {
    l.len() >= 4 && l[0] == ' ' && l[1] == ' ' && l[2] == ' ' && l[3] == ' '
}

pub open spec fn tabbed(l: Seq<char>) -> bool {
    l.len() >= 1 && l[0] == '\t'
}

pub open spec fn fence(l: Seq<char>) -> bool {
    l.len() >= 3 && l[0] == '`' && l[1] == '`' && l[2] == '`'
}

/// Whitespace only.
pub open spec fn blank(l: Seq<char>) -> bool {
    forall|k: int| 0 <= k < l.len() ==> spec_is_ws(l[k])
}

/// The state of the code-block scan: content lines, language tag, lines
/// consumed, whether a fence was opened, and whether it was closed.
pub struct CodeScan {
    pub content: Seq<Seq<char>>,
    pub lang: Option<Seq<char>>,
    pub n: int,
    pub opened: bool,
    pub closed: bool,
}

pub open spec fn code_scan(ls: Seq<Seq<char>>, j: int, st: CodeScan) -> CodeScan
    decreases ls.len() - j,
{
    if j < 0 || j >= ls.len() {
        st
    } else {
        let l = ls[j];
        if !st.opened && indented(l) {
            code_scan(
                ls,
                j + 1,
                CodeScan { content: st.content.push(l.subrange(4, l.len() as int)), n: st.n + 1, ..st },
            )
        } else if !st.opened && tabbed(l) {
            let c = if st.n == 0 && blank(l) {
                st.content
            } else {
                st.content.push(l.subrange(1, l.len() as int))
            };
            code_scan(ls, j + 1, CodeScan { content: c, n: st.n + 1, ..st })
        } else if !st.opened && st.n > 0 && blank(l) {
            code_scan(ls, j + 1, CodeScan { content: st.content.push(seq![]), n: st.n + 1, ..st })
        } else if fence(l) {
            if !st.opened {
                code_scan(
                    ls,
                    j + 1,
                    CodeScan {
                        lang: Some(l.subrange(3, l.len() as int)),
                        opened: true,
                        n: st.n + 1,
                        ..st
                    },
                )
            } else {
                CodeScan { n: st.n + 1, closed: true, ..st }
            }
        } else if st.opened {
            code_scan(ls, j + 1, CodeScan { content: st.content.push(l), n: st.n + 1, ..st })
        } else {
            st
        }
    }
}

/// `c` without its leading blank lines.
pub open spec fn drop_blank_front(c: Seq<Seq<char>>) -> Seq<Seq<char>>
    decreases c.len(),
{
    if c.len() > 0 && blank(c[0]) {
        drop_blank_front(c.drop_first())
    } else {
        c
    }
}

/// `c` without its trailing blank lines.
pub open spec fn drop_blank_back(c: Seq<Seq<char>>) -> Seq<Seq<char>>
    decreases c.len(),
{
    if c.len() > 0 && blank(c.last()) {
        drop_blank_back(c.drop_last())
    } else {
        c
    }
}

pub open spec fn code_start() -> CodeScan {
    CodeScan { content: seq![], lang: None, n: 0, opened: false, closed: false }
}

pub open spec fn code_block_at(ls: Seq<Seq<char>>, i: int) -> Option<(BlockView, int)> {
    let st = code_scan(ls, i, code_start());
    if st.n > 0 && (!st.opened || st.closed) {
        Some(
            (
                BlockView::CodeBlock(st.lang, drop_blank_back(drop_blank_front(st.content))),
                st.n,
            ),
        )
    } else {
        None
    }
}

// --------------------------------------------------------------- blockquote

/// The end of a blockquote scanned from `j`: a non-empty line that follows
/// a blank one (see `quote_blank`) ends it unless it starts with `>`.
pub open spec fn quote_end(ls: Seq<Seq<char>>, j: int, prev_blank: bool) -> int
    decreases ls.len() - j,
{
    if j < 0 || j >= ls.len() {
        j
    } else if prev_blank && ls[j].len() > 0 && ls[j][0] != '>' {
        j
    } else {
        quote_end(ls, j + 1, quote_blank(ls[j]))
    }
}

/// A blank line of a blockquote: empty, or `>` followed by whitespace only.
pub open spec fn quote_blank(l: Seq<char>) -> bool {
    l.len() == 0 || (l[0] == '>' && blank(l.subrange(1, l.len() as int)))
}

/// A quoted line without its `>` and one space after it.
pub open spec fn unquote(l: Seq<char>) -> Seq<char> {
    if l.len() > 0 && l[0] == '>' {
        if l.len() > 1 && l[1] == ' ' {
            l.subrange(2, l.len() as int)
        } else {
            l.subrange(1, l.len() as int)
        }
    } else {
        l
    }
}

pub open spec fn quote_lines(ls: Seq<Seq<char>>, i: int, e: int) -> Seq<Seq<char>> {
    Seq::new((e - i) as nat, |k: int| unquote(ls[i + k]))
}

// -------------------------------------------------------------------- lists

pub open spec fn is_num_char(c: char) -> bool {
    ('0' <= c && c <= '9') || c == '.'
}

/// A roman numeral digit.
pub open spec fn is_alpha_marker(c: char) -> bool {
    c == 'i' || c == 'v' || c == 'x' || c == 'l' || c == 'c' || c == 'd' || c == 'm' || c == 'I'
        || c == 'V' || c == 'X' || c == 'L' || c == 'C' || c == 'D' || c == 'M'
}

pub open spec fn is_digit(c: char) -> bool {
    '0' <= c && c <= '9'
}

pub open spec fn is_letter(c: char) -> bool {
    ('a' <= c && c <= 'z') || ('A' <= c && c <= 'Z')
}

/// A roman numeral at `p` followed by `. `.
pub open spec fn roman_marker(l: Seq<char>, p: int) -> bool {
    let r = class_end(l, p, false);
    r > p && r + 1 < l.len() && l[r] == '.' && l[r + 1] == ' '
}

/// The end of the run of characters satisfying the marker class from `k`.
pub open spec fn class_end(l: Seq<char>, k: int, num: bool) -> int
    decreases l.len() - k,
{
    if 0 <= k < l.len() && (if num {
        is_num_char(l[k])
    } else {
        is_alpha_marker(l[k])
    }) {
        class_end(l, k + 1, num)
    } else {
        k
    }
}

/// An unordered item's first line `<spaces><-|+|*> <content>`: its indent
/// and where its content starts.
pub open spec fn bullet_begin(l: Seq<char>) -> Option<(int, int)> {
    let p = run_end(l, 0, ' ');
    if p + 1 < l.len() && (l[p] == '-' || l[p] == '+' || l[p] == '*') && l[p + 1] == ' ' {
        Some((p, p + 2))
    } else {
        None
    }
}

/// An ordered item's first line: spaces, then a marker followed by a space,
/// then the content; the marker is digits (with inner dots, as in `1.2.`)
/// ending with a dot, a roman numeral and a dot, or one letter and a dot.
/// The result is the indent and where the content starts.
pub open spec fn number_begin(l: Seq<char>) -> Option<(int, int)> {
    let p = run_end(l, 0, ' ');
    if p < l.len() && is_digit(l[p]) {
        let r = class_end(l, p, true);
        if r < l.len() && l[r - 1] == '.' && l[r] == ' ' {
            Some((p, r + 1))
        } else {
            None
        }
    } else if p < l.len() && roman_marker(l, p) {
        Some((p, class_end(l, p, false) + 2))
    } else if p + 2 < l.len() && is_letter(l[p]) && l[p + 1] == '.' && l[p + 2] == ' ' {
        Some((p, p + 3))
    } else {
        None
    }
}

/// Where an ordered-list marker starts, its content starts two characters
/// after the dot that ends it.
pub proof fn lemma_number_marker(l: Seq<char>)
    ensures
        number_begin(l) matches Some((p, c)) ==> 0 <= p && p + 2 <= c <= l.len() && l[c - 2]
            == '.' && l[c - 1] == ' ',
{
    let p = run_end(l, 0, ' ');
    lemma_run_end_bounds(l, 0, ' ');
    if p < l.len() && is_digit(l[p]) {
        lemma_class_end_bounds(l, p, true);
    } else if p < l.len() && roman_marker(l, p) {
        lemma_class_end_bounds(l, p, false);
    }
}

pub proof fn lemma_run_end_bounds(l: Seq<char>, k: int, c: char)
    requires
        0 <= k,
    ensures
        k <= run_end(l, k, c),
        k <= l.len() ==> run_end(l, k, c) <= l.len(),
    decreases l.len() - k,
{
    if 0 <= k < l.len() && l[k] == c {
        lemma_run_end_bounds(l, k + 1, c);
    }
}

pub proof fn lemma_class_end_bounds(l: Seq<char>, k: int, num: bool)
    requires
        0 <= k,
    ensures
        k <= class_end(l, k, num),
        k <= l.len() ==> class_end(l, k, num) <= l.len(),
    decreases l.len() - k,
{
    if 0 <= k < l.len() && (if num {
        is_num_char(l[k])
    } else {
        is_alpha_marker(l[k])
    }) {
        lemma_class_end_bounds(l, k + 1, num);
    }
}

pub open spec fn item_begin(l: Seq<char>, ordered: bool) -> Option<(int, int)> {
    if ordered {
        number_begin(l)
    } else {
        bullet_begin(l)
    }
}

pub open spec fn indent_of(b: Option<(int, int)>) -> int {
    match b {
        Some((p, _)) => p,
        None => 0,
    }
}

pub open spec fn content_of(b: Option<(int, int)>) -> int {
    match b {
        Some((_, c)) => c,
        None => 0,
    }
}

/// A continuation line without up to four leading spaces.
pub open spec fn dedent(l: Seq<char>) -> Seq<char> {
    let p = run_end(l, 0, ' ');
    let k = if p < 4 {
        p
    } else {
        4
    };
    l.subrange(k, l.len() as int)
}

/// The end of the item whose first line has indent `indent`, scanned from
/// `j`; whether the line before that end was blank; and whether a blank line
/// inside the item was followed by more of it (`gap`), which makes the list
/// loose.
pub open spec fn item_end(ls: Seq<Seq<char>>, j: int, indent: int, prev_blank: bool, gap: bool, ordered: bool) -> (int, bool, bool)
    decreases ls.len() - j,
{
    if j < 0 || j >= ls.len() {
        (j, prev_blank, gap)
    } else if prev_blank && !(ls[j].len() > 0 && ls[j][0] == ' ') {
        (j, prev_blank, gap)
    } else if item_begin(ls[j], ordered) is Some && (indent_of(item_begin(ls[j], ordered)) < 2
        || indent_of(item_begin(ls[j], ordered)) <= indent) {
        (j, prev_blank, gap)
    } else {
        item_end(ls, j + 1, indent, ls[j].len() == 0, gap || prev_blank, ordered)
    }
}

/// The items of a list from line `j`, as line ranges, the end of the list,
/// and whether it is loose: a blank line separated two items, or a blank
/// line inside an item was followed by an indented continuation.
pub open spec fn list_scan(ls: Seq<Seq<char>>, j: int, prev_blank: bool, loose: bool, ordered: bool) -> (int, bool, Seq<(int, int)>)
    decreases ls.len() - j,
{
    if j < 0 || j >= ls.len() || item_begin(ls[j], ordered) is None {
        (j, loose, seq![])
    } else {
        let (e, pb, gap) = item_end(
            ls,
            j + 1,
            indent_of(item_begin(ls[j], ordered)),
            false,
            false,
            ordered,
        );
        if e <= j || e > ls.len() {
            (j, loose, seq![])
        } else {
            let (end, l2, rest) = list_scan(ls, e, pb, loose || prev_blank || gap, ordered);
            (end, l2, seq![(j, e)] + rest)
        }
    }
}

/// The raw lines of an item: its first line's content, then its
/// continuation lines dedented.
pub open spec fn item_raw(ls: Seq<Seq<char>>, j: int, e: int, ordered: bool) -> Seq<Seq<char>> {
    Seq::new(
        (e - j) as nat,
        |k: int|
            if k == 0 {
                ls[j].subrange(content_of(item_begin(ls[j], ordered)), ls[j].len() as int)
            } else {
                dedent(ls[j + k])
            },
    )
}

/// The lines of an item's text, as its raw lines joined by newlines and
/// split again: a final empty line is dropped, and every other line loses a
/// carriage return at its end.
pub open spec fn item_lines(raw: Seq<Seq<char>>) -> Seq<Seq<char>> {
    if raw.len() == 0 {
        seq![]
    } else {
        let front = Seq::new((raw.len() - 1) as nat, |k: int| strip_cr(raw[k]));
        if raw.last().len() == 0 {
            front
        } else {
            front.push(raw.last())
        }
    }
}

/// The numbering style named by the first character of the first marker.
pub open spec fn list_type(l: Seq<char>, p: int) -> OrderedListType {
    let c = l[p];
    if is_digit(c) {
        OrderedListType::Numeric
    } else if roman_marker(l, p) && (class_end(l, p, false) > p + 1 || c == 'i' || c == 'I') {
        if 'a' <= c && c <= 'z' {
            OrderedListType::LowercaseRoman
        } else {
            OrderedListType::UppercaseRoman
        }
    } else if 'a' <= c && c <= 'z' {
        OrderedListType::Lowercase
    } else {
        OrderedListType::Uppercase
    }
}

/// An item whose content parsed to `bl`: a tight item that is one paragraph
/// is simple; an empty one is left out.
pub open spec fn make_item(bl: Seq<BlockView>, loose: bool) -> Seq<ItemView> {
    if bl.len() == 0 {
        seq![]
    } else if !loose && bl.len() == 1 && bl[0] is Paragraph {
        seq![ItemView::Simple(bl[0]->Paragraph_0)]
    } else {
        seq![ItemView::Paragraph(bl)]
    }
}

// -------------------------------------------------------- link references

/// The first `[` or `]` at or after `k`, or the end.
pub open spec fn bracket_stop(l: Seq<char>, k: int) -> int
    decreases l.len() - k,
{
    if 0 <= k < l.len() && l[k] != '[' && l[k] != ']' {
        bracket_stop(l, k + 1)
    } else {
        k
    }
}

/// The end of the run of non-whitespace characters from `k`.
pub open spec fn word_end(l: Seq<char>, k: int) -> int
    decreases l.len() - k,
{
    if 0 <= k < l.len() && !spec_is_ws(l[k]) {
        word_end(l, k + 1)
    } else {
        k
    }
}

/// The last `c` in `l[k + 1..e]`.
pub open spec fn last_before(l: Seq<char>, e: int, k: int, c: char) -> Option<int>
    decreases e - k,
{
    if e - 1 <= k || e > l.len() {
        None
    } else if l[e - 1] == c {
        Some(e - 1)
    } else {
        last_before(l, e - 1, k, c)
    }
}

/// The first `c` after `k`.
pub open spec fn first_of(l: Seq<char>, k: int, c: char) -> Option<int>
    decreases l.len() - k,
{
    if k < 0 || k + 1 >= l.len() {
        None
    } else if l[k + 1] == c {
        Some(k + 1)
    } else {
        first_of(l, k + 1, c)
    }
}

/// A title after the url that ends at `u`: whitespace, then `'title'` or
/// `"title"` (to the last quote) or `(title)` (to the first parenthesis).
pub open spec fn ref_title(l: Seq<char>, u: int) -> Option<Seq<char>> {
    let w = skip_ws(l, u, l.len() as int);
    if w > u && w < l.len() {
        if l[w] == '\'' || l[w] == '"' {
            match last_before(l, l.len() as int, w, l[w]) {
                Some(e) => Some(l.subrange(w + 1, e)),
                None => None,
            }
        } else if l[w] == '(' {
            match first_of(l, w, ')') {
                Some(e) => Some(l.subrange(w + 1, e)),
                None => None,
            }
        } else {
            None
        }
    } else {
        None
    }
}

/// The id range of `[id]:` at the start of a line, after optional
/// whitespace.
pub open spec fn ref_label(l: Seq<char>) -> Option<(int, int)> {
    let w = skip_ws(l, 0, l.len() as int);
    let b = bracket_stop(l, w + 1);
    if w < l.len() && l[w] == '[' && b > w + 1 && b + 1 < l.len() && l[b] == ']' && l[b + 1]
        == ':' {
        Some((w + 1, b))
    } else {
        None
    }
}

pub open spec fn link_ref_at(ls: Seq<Seq<char>>, i: int) -> Option<(BlockView, int)> {
    let l = ls[i];
    match ref_label(l) {
        None => None,
        Some((a, b)) => {
            let id = lower_of(l.subrange(a, b));
            let u = skip_ws(l, b + 2, l.len() as int);
            if u < l.len() {
                let ue = word_end(l, u);
                Some((BlockView::LinkReference(id, l.subrange(u, ue), ref_title(l, ue)), 1))
            } else if i + 1 < ls.len() {
                let l2 = ls[i + 1];
                let u2 = skip_ws(l2, 0, l2.len() as int);
                if u2 < l2.len() {
                    let ue2 = word_end(l2, u2);
                    Some(
                        (
                            BlockView::LinkReference(id, l2.subrange(u2, ue2), ref_title(l2, ue2)),
                            2,
                        ),
                    )
                } else {
                    None
                }
            } else {
                None
            }
        },
    }
}

// --------------------------------------------------- dispatcher, containers

pub open spec fn quote_at(ls: Seq<Seq<char>>, i: int, depth: nat) -> Option<(BlockView, int)>
    decreases depth, 1nat, 0nat,
{
    if depth > 0 && 0 <= i < ls.len() && ls[i].len() > 0 && ls[i][0] == '>' {
        let e = quote_end(ls, i, false);
        if e > i {
            Some(
                (
                    BlockView::Blockquote(
                        blocks_from(quote_lines(ls, i, e), 0, seq![], (depth - 1) as nat),
                    ),
                    e - i,
                ),
            )
        } else {
            None
        }
    } else {
        None
    }
}

/// The items of a list, built from the item ranges `items[k..]`.
pub open spec fn list_items(ls: Seq<Seq<char>>, items: Seq<(int, int)>, k: int, loose: bool, ordered: bool, depth: nat) -> Seq<ItemView>
    decreases depth, 0nat, items.len() - k,
{
    if depth == 0 || k < 0 || k >= items.len() {
        seq![]
    } else {
        let (j, e) = items[k];
        let bl = blocks_from(item_lines(item_raw(ls, j, e, ordered)), 0, seq![], (depth - 1) as nat);
        make_item(bl, loose) + list_items(ls, items, k + 1, loose, ordered, depth)
    }
}

pub open spec fn list_at(ls: Seq<Seq<char>>, i: int, ordered: bool, depth: nat) -> Option<(BlockView, int)>
    decreases depth, 1nat, 0nat,
{
    if depth > 0 && 0 <= i < ls.len() && item_begin(ls[i], ordered) is Some {
        let (end, loose, items) = list_scan(ls, i, false, false, ordered);
        let its = list_items(ls, items, 0, loose, ordered, depth);
        if end > i {
            if ordered {
                let p = indent_of(item_begin(ls[i], true));
                Some((BlockView::OrderedList(its, list_type(ls[i], p)), end - i))
            } else {
                Some((BlockView::UnorderedList(its), end - i))
            }
        } else {
            None
        }
    } else {
        None
    }
}

/// The block that starts at line `i`, if any, and how many lines it takes:
/// the first recognizer that matches, in a fixed order.
pub open spec fn block_at(ls: Seq<Seq<char>>, i: int, depth: nat) -> Option<(BlockView, int)>
    decreases depth, 2nat, 0nat,
{
    if !(0 <= i < ls.len()) {
        None
    } else if hr_at(ls, i) is Some {
        hr_at(ls, i)
    } else if atx_at(ls, i) is Some {
        atx_at(ls, i)
    } else if code_block_at(ls, i) is Some {
        code_block_at(ls, i)
    } else if quote_at(ls, i, depth) is Some {
        quote_at(ls, i, depth)
    } else if list_at(ls, i, false, depth) is Some {
        list_at(ls, i, false, depth)
    } else if list_at(ls, i, true, depth) is Some {
        list_at(ls, i, true, depth)
    } else if link_ref_at(ls, i) is Some {
        link_ref_at(ls, i)
    } else {
        setext_at(ls, i)
    }
}

/// The paragraph `buf`, if it holds anything.
pub open spec fn flush(buf: Seq<SpanView>) -> Seq<BlockView> {
    if buf.len() > 0 {
        seq![BlockView::Paragraph(buf)]
    } else {
        seq![]
    }
}

/// `buf` with the spans of a paragraph line added; a newline joins them to
/// what came before unless that ends with a hard break.
pub open spec fn join_line(buf: Seq<SpanView>, l: Seq<char>) -> Seq<SpanView> {
    let new = line_spans(l, buf.len() == 0);
    if buf.len() > 0 && buf.last() != SpanView::Break && new.len() > 0 {
        buf + seq![SpanView::Text(seq!['\n'])] + new
    } else {
        buf + new
    }
}

/// The blocks of the lines `ls[i..]`, with the pending paragraph `buf`.
pub open spec fn blocks_from(ls: Seq<Seq<char>>, i: int, buf: Seq<SpanView>, depth: nat) -> Seq<BlockView>
    decreases depth, 3nat, ls.len() - i,
{
    if i < 0 || i >= ls.len() {
        flush(buf)
    } else {
        match block_at(ls, i, depth) {
            Some((b, n)) => if 1 <= n <= ls.len() - i {
                flush(buf) + seq![b] + blocks_from(ls, i + n, seq![], depth)
            } else {
                seq![]
            },
            None => if ls[i].len() == 0 && buf.len() > 0 {
                flush(buf) + blocks_from(ls, i + 1, join_line(seq![], ls[i]), depth)
            } else {
                blocks_from(ls, i + 1, join_line(buf, ls[i]), depth)
            },
        }
    }
}

/// The blocks of a list of lines.
pub open spec fn blocks_of(ls: Seq<Seq<char>>) -> Seq<BlockView> {
    blocks_from(ls, 0, seq![], MAX_DEPTH as nat)
}

/// The document that a text parses to.
pub open spec fn document_of(s: Seq<char>) -> Seq<BlockView> {
    blocks_of(lines_of(s))
}

// ============================================================ executable side

pub open spec fn lines_view(ls: Seq<Vec<char>>) -> Seq<Seq<char>> {
    Seq::new(ls.len(), |k: int| ls[k]@)
}

pub open spec fn found_block(r: Option<(Block, usize)>) -> Option<(BlockView, int)> {
    match r {
        Some((b, n)) => Some((block_view(b), n as int)),
        None => None,
    }
}

/// The spans of `l[a..b]`.
fn spans_in(l: &[char], a: usize, b: usize) -> (r: Vec<Span>)
    requires
        a <= b <= l@.len(),
    ensures
        spans_view(r@) == window_spans(l@, a as int, b as int),
{
    let mut v: Vec<Span> = Vec::new();
    scan_into(l, a, b, &mut v);
    assert(spans_view(Seq::<Span>::empty()) + window_spans(l@, a as int, b as int) =~= window_spans(
        l@,
        a as int,
        b as int,
    ));
    v
}

/// The characters `l[a..b]`.
pub(crate) fn copy_range(l: &[char], a: usize, b: usize) -> (r: Vec<char>)
    requires
        a <= b <= l@.len(),
    ensures
        r@ == l@.subrange(a as int, b as int),
{
    let mut v: Vec<char> = Vec::new();
    let mut k = a;
    while k < b
        invariant
            a <= k <= b <= l@.len(),
            v@ == l@.subrange(a as int, k as int),
        decreases b - k,
    {
        v.push(l[k]);
        k += 1;
        assert(v@ =~= l@.subrange(a as int, k as int));
    }
    v
}

/// The characters `l[a..]`.
fn copy_from(l: &[char], a: usize) -> (r: Vec<char>)
    requires
        a <= l@.len(),
    ensures
        r@ == l@.subrange(a as int, l@.len() as int),
{
    copy_range(l, a, l.len())
}

fn rule_in(l: &[char], c: char) -> (r: bool)
    ensures
        r == rule_line(l@, c),
{
    if l.len() < 3 {
        return false;
    }
    let mut k: usize = 0;
    while k < l.len()
        invariant
            k <= l@.len(),
            forall|m: int| 0 <= m < k ==> l@[m] == c,
        decreases l@.len() - k,
    {
        if l[k] != c {
            return false;
        }
        k += 1;
    }
    true
}

/// A horizontal rule: a line of three or more `=` or `-`.
fn hr_in(ls: &[Vec<char>], i: usize) -> (r: Option<(Block, usize)>)
    requires
        i < ls@.len(),
    ensures
        found_block(r) == hr_at(lines_view(ls@), i as int),
        r matches Some((_, n)) ==> 1 <= n <= ls@.len() - i,
{
    if rule_in(ls[i].as_slice(), '=') || rule_in(ls[i].as_slice(), '-') {
        Some((Block::Hr, 1))
    } else {
        None
    }
}

fn run_end_in(l: &[char], k0: usize, c: char) -> (r: usize)
    requires
        k0 <= l@.len(),
    ensures
        r == run_end(l@, k0 as int, c),
        k0 <= r <= l@.len(),
{
    let mut k = k0;
    while k < l.len() && l[k] == c
        invariant
            k0 <= k <= l@.len(),
            run_end(l@, k as int, c) == run_end(l@, k0 as int, c),
        decreases l@.len() - k,
    {
        k += 1;
    }
    k
}

fn closes_in(l: &[char], t: usize) -> (r: bool)
    requires
        t <= l@.len(),
    ensures
        r == closes_heading(l@, t as int),
{
    if t == l.len() {
        return true;
    }
    if !is_ws(l[t]) {
        return false;
    }
    let mut k = t + 1;
    while k < l.len()
        invariant
            t < k <= l@.len(),
            forall|m: int| t < m < k ==> l@[m] == '#' || spec_is_ws(l@[m]),
        decreases l@.len() - k,
    {
        if l[k] != '#' && !is_ws(l[k]) {
            return false;
        }
        k += 1;
    }
    true
}

/// An ATX heading: one to six `#`, whitespace, then the text; closing
/// hashes and the whitespace around them are dropped.
fn atx_in(ls: &[Vec<char>], i: usize) -> (r: Option<(Block, usize)>)
    requires
        i < ls@.len(),
    ensures
        found_block(r) == atx_at(lines_view(ls@), i as int),
        r matches Some((_, n)) ==> 1 <= n <= ls@.len() - i,
{
    let l = ls[i].as_slice();
    let h = run_end_in(l, 0, '#');
    if 1 <= h && h <= 6 && h < l.len() && is_ws(l[h]) {
        let mut t = h + 1;
        while t < l.len() && !closes_in(l, t)
            invariant
                h + 1 <= t <= l@.len(),
                heading_end(l@, t as int) == heading_end(l@, (h + 1) as int),
            decreases l@.len() - t,
        {
            t += 1;
        }
        let e = crate::text::skip_ws_back_exec(l, h + 1, t);
        let spans = spans_in(l, h + 1, e);
        Some((Block::Header(spans, h), 1))
    } else {
        None
    }
}

/// A setext heading: a non-empty line underlined by `=` (level 1) or `-`
/// (level 2).
fn setext_in(ls: &[Vec<char>], i: usize) -> (r: Option<(Block, usize)>)
    requires
        i < ls@.len(),
    ensures
        found_block(r) == setext_at(lines_view(ls@), i as int),
        r matches Some((_, n)) ==> 1 <= n <= ls@.len() - i,
{
    if ls.len() - i > 1 && ls[i].len() > 0 {
        let level: usize = if rule_in(ls[i + 1].as_slice(), '=') {
            1
        } else if rule_in(ls[i + 1].as_slice(), '-') {
            2
        } else {
            return None;
        };
        let spans = spans_in(ls[i].as_slice(), 0, ls[i].len());
        Some((Block::Header(spans, level), 2))
    } else {
        None
    }
}

fn blank_in(l: &[char], a: usize) -> (r: bool)
    requires
        a <= l@.len(),
    ensures
        r == blank(l@.subrange(a as int, l@.len() as int)),
{
    let ghost t = l@.subrange(a as int, l@.len() as int);
    let mut k = a;
    while k < l.len()
        invariant
            a <= k <= l@.len(),
            t == l@.subrange(a as int, l@.len() as int),
            forall|m: int| 0 <= m < k - a ==> spec_is_ws(#[trigger] t[m]),
        decreases l@.len() - k,
    {
        if !is_ws(l[k]) {
            assert(!spec_is_ws(t[k - a]));
            return false;
        }
        k += 1;
    }
    true
}

proof fn lemma_strings_push(v: Seq<String>, x: String)
    ensures
        strings_view(v.push(x)) == strings_view(v).push(x@),
{
    assert(strings_view(v.push(x)) =~= strings_view(v).push(x@));
}

pub open spec fn pieces_view(ls: Seq<Vec<char>>, c: Seq<(usize, usize)>) -> Seq<Seq<char>> {
    Seq::new(c.len(), |k: int| ls[c[k].0 as int]@.subrange(c[k].1 as int, ls[c[k].0 as int]@.len() as int))
}

pub open spec fn pieces_ok(ls: Seq<Vec<char>>, c: Seq<(usize, usize)>) -> bool {
    forall|k: int| 0 <= k < c.len() ==> (#[trigger] c[k]).0 < ls.len() && c[k].1 <= ls[c[k].0 as int]@.len()
}

proof fn lemma_pieces_push(ls: Seq<Vec<char>>, c: Seq<(usize, usize)>, x: (usize, usize))
    requires
        x.0 < ls.len(),
    ensures
        pieces_view(ls, c.push(x)) == pieces_view(ls, c).push(
            ls[x.0 as int]@.subrange(x.1 as int, ls[x.0 as int]@.len() as int),
        ),
{
    assert(pieces_view(ls, c.push(x)) =~= pieces_view(ls, c).push(
        ls[x.0 as int]@.subrange(x.1 as int, ls[x.0 as int]@.len() as int),
    ));
}

/// An indented code block (lines starting with four spaces or a tab, with
/// blank lines between them) or a fenced one (between two lines starting with three backticks); a fence
/// that is never closed is no code block.
fn code_block_in(ls: &[Vec<char>], i: usize) -> (r: Option<(Block, usize)>)
    requires
        i < ls@.len(),
    ensures
        found_block(r) == code_block_at(lines_view(ls@), i as int),
        r matches Some((_, n)) ==> 1 <= n <= ls@.len() - i,
{
    let ghost lv = lines_view(ls@);
    let mut content: Vec<(usize, usize)> = Vec::new();
    let mut lang: Option<usize> = None;
    let mut n: usize = 0;
    let mut opened = false;
    let mut closed = false;
    let mut j = i;
    let mut done = false;
    assert(pieces_view(ls@, content@) =~= seq![]);
    while j < ls.len() && !done
        invariant
            i <= j <= ls@.len(),
            lv == lines_view(ls@),
            n == j - i,
            pieces_ok(ls@, content@),
            lang matches Some(f) ==> f < ls@.len() && lv[f as int].len() >= 3,
            opened == (lang is Some),
            closed ==> done,
            ({
                let cur = CodeScan {
                    content: pieces_view(ls@, content@),
                    lang: match lang {
                        Some(f) => Some(lv[f as int].subrange(3, lv[f as int].len() as int)),
                        None => None,
                    },
                    n: n as int,
                    opened,
                    closed,
                };
                (if done {
                    cur
                } else {
                    code_scan(lv, j as int, cur)
                }) == code_scan(lv, i as int, code_start())
            }),
        decreases ls@.len() - j + (if done {
            0int
        } else {
            1int
        }),
    {
        let l = ls[j].as_slice();
        let ind = l.len() >= 4 && l[0] == ' ' && l[1] == ' ' && l[2] == ' ' && l[3] == ' ';
        let tab = l.len() >= 1 && l[0] == '\t';
        let fen = l.len() >= 3 && l[0] == '`' && l[1] == '`' && l[2] == '`';
        if !opened && ind {
            proof {
                lemma_pieces_push(ls@, content@, (j, 4));
            }
            content.push((j, 4));
        } else if !opened && tab {
            if !(n == 0 && blank_in(l, 0)) {
                proof {
                    lemma_pieces_push(ls@, content@, (j, 1));
                }
                content.push((j, 1));
            } else {
                assert(l@.subrange(0, l@.len() as int) =~= l@);
            }
        } else if !opened && n > 0 && blank_in(l, 0) {
            proof {
                assert(l@.subrange(0, l@.len() as int) =~= l@);
                lemma_pieces_push(ls@, content@, (j, l.len()));
                assert(lv[j as int].subrange(l@.len() as int, l@.len() as int) =~= seq![]);
            }
            content.push((j, l.len()));
        } else if fen {
            if !opened {
                lang = Some(j);
                opened = true;
            } else {
                closed = true;
                done = true;
            }
        } else if opened {
            proof {
                lemma_pieces_push(ls@, content@, (j, 0));
                assert(lv[j as int].subrange(0, lv[j as int].len() as int) =~= lv[j as int]);
            }
            content.push((j, 0));
        } else {
            done = true;
        }
        if !done || closed {
            n += 1;
            j += 1;
        }
    }
    let ghost st = code_scan(lv, i as int, code_start());
    if !(n > 0 && (!opened || closed)) {
        return None;
    }
    // drop blank lines at both ends
    let ghost cv = pieces_view(ls@, content@);
    assert(cv.subrange(0, cv.len() as int) =~= cv);
    let mut f: usize = 0;
    while f < content.len() && blank_in(ls[content[f].0].as_slice(), content[f].1)
        invariant
            f <= content@.len(),
            pieces_ok(ls@, content@),
            cv == pieces_view(ls@, content@),
            drop_blank_front(cv.subrange(f as int, cv.len() as int)) == drop_blank_front(cv),
        decreases content@.len() - f,
    {
        assert(cv.subrange(f as int, cv.len() as int).drop_first() =~= cv.subrange(
            f + 1,
            cv.len() as int,
        ));
        f += 1;
    }
    let mut e: usize = content.len();
    while e > f && blank_in(ls[content[e - 1].0].as_slice(), content[e - 1].1)
        invariant
            f <= e <= content@.len(),
            pieces_ok(ls@, content@),
            cv == pieces_view(ls@, content@),
            drop_blank_back(cv.subrange(f as int, e as int)) == drop_blank_back(
                drop_blank_front(cv),
            ),
        decreases e,
    {
        assert(cv.subrange(f as int, e as int).drop_last() =~= cv.subrange(f as int, e - 1));
        e -= 1;
    }
    let mut out: Vec<String> = Vec::new();
    let mut k = f;
    while k < e
        invariant
            f <= k <= e <= content@.len(),
            pieces_ok(ls@, content@),
            cv == pieces_view(ls@, content@),
            strings_view(out@) == cv.subrange(f as int, k as int),
        decreases e - k,
    {
        let (x, a) = content[k];
        let st = string_of(ls[x].as_slice(), a, ls[x].len());
        assert(content@[k as int] == (x, a));
        assert(cv[k as int] == st@);
        proof {
            lemma_strings_push(out@, st);
        }
        out.push(st);
        k += 1;
        assert(strings_view(out@) =~= cv.subrange(f as int, k as int));
    }
    proof {
        assert(drop_blank_back(cv.subrange(f as int, e as int)) == cv.subrange(f as int, e as int));
    }
    let lang_s = match lang {
        Some(x) => Some(string_of(ls[x].as_slice(), 3, ls[x].len())),
        None => None,
    };
    Some((Block::CodeBlock(lang_s, out), n))
}

fn bracket_stop_in(l: &[char], k0: usize) -> (r: usize)
    requires
        k0 <= l@.len(),
    ensures
        r == bracket_stop(l@, k0 as int),
        k0 <= r <= l@.len(),
{
    let mut k = k0;
    while k < l.len() && l[k] != '[' && l[k] != ']'
        invariant
            k0 <= k <= l@.len(),
            bracket_stop(l@, k as int) == bracket_stop(l@, k0 as int),
        decreases l@.len() - k,
    {
        k += 1;
    }
    k
}

pub(crate) fn word_end_in(l: &[char], k0: usize) -> (r: usize)
    requires
        k0 <= l@.len(),
    ensures
        r == word_end(l@, k0 as int),
        k0 <= r <= l@.len(),
{
    let mut k = k0;
    while k < l.len() && !is_ws(l[k])
        invariant
            k0 <= k <= l@.len(),
            word_end(l@, k as int) == word_end(l@, k0 as int),
        decreases l@.len() - k,
    {
        k += 1;
    }
    k
}

fn ref_title_in(l: &[char], u: usize) -> (r: Option<String>)
    requires
        u <= l@.len(),
    ensures
        opt_view(r) == ref_title(l@, u as int),
{
    let w = skip_ws_exec(l, u, l.len());
    if w > u && w < l.len() {
        let q = l[w];
        if q == '\'' || q == '"' {
            let mut e = l.len();
            while e - 1 > w && l[e - 1] != q
                invariant
                    w < e <= l@.len(),
                    last_before(l@, e as int, w as int, q) == last_before(
                        l@,
                        l@.len() as int,
                        w as int,
                        q,
                    ),
                decreases e,
            {
                e -= 1;
            }
            if e - 1 > w {
                Some(string_of(l, w + 1, e - 1))
            } else {
                None
            }
        } else if q == '(' {
            let mut k = w;
            while l.len() - k > 1 && l[k + 1] != ')'
                invariant
                    w <= k < l@.len(),
                    first_of(l@, k as int, ')') == first_of(l@, w as int, ')'),
                decreases l@.len() - k,
            {
                k += 1;
            }
            if l.len() - k > 1 {
                Some(string_of(l, w + 1, k + 1))
            } else {
                None
            }
        } else {
            None
        }
    } else {
        None
    }
}

/// A link reference definition `[id]: url "title"`, on one line or with the
/// url and title on the next.
fn link_ref_in(ls: &[Vec<char>], i: usize) -> (r: Option<(Block, usize)>)
    requires
        i < ls@.len(),
    ensures
        found_block(r) == link_ref_at(lines_view(ls@), i as int),
        r matches Some((_, n)) ==> 1 <= n <= ls@.len() - i,
{
    let l = ls[i].as_slice();
    let w = skip_ws_exec(l, 0, l.len());
    if !(w < l.len() && l[w] == '[') {
        return None;
    }
    let b = bracket_stop_in(l, w + 1);
    if !(b > w + 1 && b < l.len() && l.len() - b > 1 && l[b] == ']' && l[b + 1] == ':') {
        return None;
    }
    let raw_id = string_of(l, w + 1, b);
    let id = lowercase(raw_id.as_str());
    let u = skip_ws_exec(l, b + 2, l.len());
    if u < l.len() {
        let ue = word_end_in(l, u);
        let url = string_of(l, u, ue);
        let title = ref_title_in(l, ue);
        Some((Block::LinkReference(id, url, title), 1))
    } else if ls.len() - i > 1 {
        let l2 = ls[i + 1].as_slice();
        let u2 = skip_ws_exec(l2, 0, l2.len());
        if u2 < l2.len() {
            let ue2 = word_end_in(l2, u2);
            let url = string_of(l2, u2, ue2);
            let title = ref_title_in(l2, ue2);
            Some((Block::LinkReference(id, url, title), 2))
        } else {
            None
        }
    } else {
        None
    }
}

pub(crate) proof fn lemma_lines_push(v: Seq<Vec<char>>, x: Vec<char>)
    ensures
        lines_view(v.push(x)) == lines_view(v).push(x@),
{
    assert(lines_view(v.push(x)) =~= lines_view(v).push(x@));
}

fn unquote_in(l: &[char]) -> (r: Vec<char>)
    ensures
        r@ == unquote(l@),
{
    if l.len() > 0 && l[0] == '>' {
        if l.len() > 1 && l[1] == ' ' {
            copy_from(l, 2)
        } else {
            copy_from(l, 1)
        }
    } else {
        let v = copy_from(l, 0);
        assert(l@.subrange(0, l@.len() as int) =~= l@);
        v
    }
}

/// A blockquote: lines starting with `>`, with lazy continuation lines,
/// until a line after a blank one does not start with `>`.
fn quote_in(ls: &[Vec<char>], i: usize, depth: usize) -> (r: Option<(Block, usize)>)
    requires
        i < ls@.len(),
    ensures
        found_block(r) == quote_at(lines_view(ls@), i as int, depth as nat),
        r matches Some((_, n)) ==> 1 <= n <= ls@.len() - i,
    decreases depth, 1usize,
{
    let ghost lv = lines_view(ls@);
    if !(depth > 0 && ls[i].len() > 0 && ls[i][0] == '>') {
        return None;
    }
    let mut j = i;
    let mut prev = false;
    while j < ls.len() && !(prev && ls[j].len() > 0 && ls[j][0] != '>')
        invariant
            i <= j <= ls@.len(),
            lv == lines_view(ls@),
            j == i ==> !prev,
            quote_end(lv, j as int, prev) == quote_end(lv, i as int, false),
        decreases ls@.len() - j,
    {
        let l = ls[j].as_slice();
        prev = l.len() == 0 || (l[0] == '>' && blank_in(l, 1));
        j += 1;
    }
    let mut content: Vec<Vec<char>> = Vec::new();
    let mut k = i;
    while k < j
        invariant
            i <= k <= j <= ls@.len(),
            lv == lines_view(ls@),
            lines_view(content@) == quote_lines(lv, i as int, k as int),
        decreases j - k,
    {
        let u = unquote_in(ls[k].as_slice());
        proof {
            lemma_lines_push(content@, u);
        }
        content.push(u);
        k += 1;
        assert(lines_view(content@) =~= quote_lines(lv, i as int, k as int));
    }
    let blocks = blocks_in(content.as_slice(), depth - 1);
    Some((Block::Blockquote(blocks), j - i))
}

fn is_roman_char(c: char) -> (r: bool)
    ensures
        r == is_alpha_marker(c),
{
    c == 'i' || c == 'v' || c == 'x' || c == 'l' || c == 'c' || c == 'd' || c == 'm' || c == 'I'
        || c == 'V' || c == 'X' || c == 'L' || c == 'C' || c == 'D' || c == 'M'
}

fn roman_marker_in(l: &[char], p: usize) -> (r: Option<usize>)
    requires
        p <= l@.len(),
    ensures
        roman_marker(l@, p as int) <==> r is Some,
        r matches Some(e) ==> e == class_end(l@, p as int, false) && e + 1 < l@.len(),
{
    let e = class_end_in(l, p, false);
    if e > p && e < l.len() && l.len() - e > 1 && l[e] == '.' && l[e + 1] == ' ' {
        Some(e)
    } else {
        None
    }
}

fn in_class(c: char, num: bool) -> (r: bool)
    ensures
        r == (if num {
            is_num_char(c)
        } else {
            is_alpha_marker(c)
        }),
{
    if num {
        ('0' <= c && c <= '9') || c == '.'
    } else {
        is_roman_char(c)
    }
}

fn class_end_in(l: &[char], k0: usize, num: bool) -> (r: usize)
    requires
        k0 <= l@.len(),
    ensures
        r == class_end(l@, k0 as int, num),
        k0 <= r <= l@.len(),
{
    let mut k = k0;
    while k < l.len() && in_class(l[k], num)
        invariant
            k0 <= k <= l@.len(),
            class_end(l@, k as int, num) == class_end(l@, k0 as int, num),
        decreases l@.len() - k,
    {
        k += 1;
    }
    k
}

pub(crate) fn item_begin_in(l: &[char], ordered: bool) -> (r: Option<(usize, usize)>)
    ensures
        crate::inline::pair_view(r) == item_begin(l@, ordered),
        r matches Some((p, c)) ==> p < c <= l@.len(),
{
    let p = run_end_in(l, 0, ' ');
    if !ordered {
        if p < l.len() && l.len() - p > 1 && (l[p] == '-' || l[p] == '+' || l[p] == '*') && l[p
            + 1] == ' ' {
            Some((p, p + 2))
        } else {
            None
        }
    } else if p < l.len() && '0' <= l[p] && l[p] <= '9' {
        assert(class_end(l@, p as int, true) == class_end(l@, p + 1, true));
        let r = class_end_in(l, p + 1, true);
        if r < l.len() && l[r - 1] == '.' && l[r] == ' ' {
            Some((p, r + 1))
        } else {
            None
        }
    } else {
        match roman_marker_in(l, p) {
            Some(e) => Some((p, e + 2)),
            None => {
                if p < l.len() && l.len() - p > 2 && (('a' <= l[p] && l[p] <= 'z') || ('A' <= l[p]
                    && l[p] <= 'Z')) && l[p + 1] == '.' && l[p + 2] == ' ' {
                    Some((p, p + 3))
                } else {
                    None
                }
            },
        }
    }
}

fn item_end_in(ls: &[Vec<char>], j0: usize, indent: usize, ordered: bool) -> (r: (usize, bool, bool))
    requires
        j0 <= ls@.len(),
    ensures
        (r.0 as int, r.1, r.2) == item_end(lines_view(ls@), j0 as int, indent as int, false, false, ordered),
        j0 <= r.0 <= ls@.len(),
{
    let ghost lv = lines_view(ls@);
    let mut j = j0;
    let mut prev = false;
    let mut gap = false;
    while j < ls.len()
        invariant
            j0 <= j <= ls@.len(),
            lv == lines_view(ls@),
            item_end(lv, j as int, indent as int, prev, gap, ordered) == item_end(
                lv,
                j0 as int,
                indent as int,
                false,
                false,
                ordered,
            ),
        ensures
            j0 <= j <= ls@.len(),
            item_end(lv, j as int, indent as int, prev, gap, ordered) == (j as int, prev, gap),
            item_end(lv, j as int, indent as int, prev, gap, ordered) == item_end(
                lv,
                j0 as int,
                indent as int,
                false,
                false,
                ordered,
            ),
        decreases ls@.len() - j,
    {
        let l = ls[j].as_slice();
        if prev && !(l.len() > 0 && l[0] == ' ') {
            break;
        }
        match item_begin_in(l, ordered) {
            Some((ind, _)) => {
                if ind < 2 || ind <= indent {
                    break;
                }
            },
            None => {},
        }
        gap = gap || prev;
        prev = l.len() == 0;
        j += 1;
    }
    (j, prev, gap)
}

fn dedent_in(l: &[char]) -> (r: Vec<char>)
    ensures
        r@ == dedent(l@),
{
    let p = run_end_in(l, 0, ' ');
    let k = if p < 4 {
        p
    } else {
        4
    };
    copy_from(l, k)
}

pub open spec fn ranges_view(v: Seq<(usize, usize)>) -> Seq<(int, int)> {
    Seq::new(v.len(), |k: int| (v[k].0 as int, v[k].1 as int))
}

/// The lines of the item `ls[a..e]`.
fn item_lines_in(ls: &[Vec<char>], a: usize, e: usize, ordered: bool) -> (r: Vec<Vec<char>>)
    requires
        a < e <= ls@.len(),
        item_begin(ls@[a as int]@, ordered) is Some,
    ensures
        lines_view(r@) == item_lines(item_raw(lines_view(ls@), a as int, e as int, ordered)),
{
    let ghost lv = lines_view(ls@);
    let ghost raw = item_raw(lv, a as int, e as int, ordered);
    let c = match item_begin_in(ls[a].as_slice(), ordered) {
        Some((_, c)) => c,
        None => 0,
    };
    let cnt = e - a;
    let mut out: Vec<Vec<char>> = Vec::new();
    let mut k: usize = 0;
    while k < cnt
        invariant
            a < e <= ls@.len(),
            cnt == e - a,
            k <= cnt,
            lv == lines_view(ls@),
            raw == item_raw(lv, a as int, e as int, ordered),
            c == content_of(item_begin(lv[a as int], ordered)),
            k < cnt ==> lines_view(out@) == Seq::new(k as nat, |m: int| strip_cr(raw[m])),
            k == cnt ==> lines_view(out@) == item_lines(raw),
        decreases cnt - k,
    {
        let mut rk = if k == 0 {
            copy_from(ls[a].as_slice(), c)
        } else {
            dedent_in(ls[a + k].as_slice())
        };
        assert(rk@ == raw[k as int]);
        if k + 1 < cnt {
            if rk.len() > 0 && rk[rk.len() - 1] == '\r' {
                rk.pop();
            }
            assert(rk@ =~= strip_cr(raw[k as int]));
            proof {
                lemma_lines_push(out@, rk);
            }
            out.push(rk);
            assert(lines_view(out@) =~= Seq::new((k + 1) as nat, |m: int| strip_cr(raw[m])));
        } else {
            if rk.len() > 0 {
                proof {
                    lemma_lines_push(out@, rk);
                }
                out.push(rk);
            }
            assert(lines_view(out@) =~= item_lines(raw));
        }
        k += 1;
    }
    out
}

/// Appends the item whose content parsed to `bl`.
fn push_item(items: &mut Vec<ListItem>, bl: Vec<Block>, loose: bool)
    ensures
        items_view(final(items)@) == items_view(old(items)@) + make_item(blocks_view(bl@), loose),
{
    proof {
        lemma_blocks_view_len(bl@);
    }
    let mut bl = bl;
    if bl.len() == 0 {
        assert(items_view(items@) + seq![] =~= items_view(items@));
    } else if !loose && bl.len() == 1 {
        let ghost bv = blocks_view(bl@);
        match bl.pop() {
            Some(Block::Paragraph(sp)) => {
                proof {
                    lemma_items_view_push(items@, ListItem::Simple(sp));
                }
                items.push(ListItem::Simple(sp));
            },
            Some(other) => {
                let mut v: Vec<Block> = Vec::new();
                proof {
                    lemma_blocks_view_push(v@, other);
                    assert(blocks_view(v@.push(other)) =~= bv);
                }
                v.push(other);
                proof {
                    lemma_items_view_push(items@, ListItem::Paragraph(v));
                }
                items.push(ListItem::Paragraph(v));
            },
            None => {},
        }
    } else {
        proof {
            lemma_items_view_push(items@, ListItem::Paragraph(bl));
        }
        items.push(ListItem::Paragraph(bl));
    }
}

fn list_type_of(l: &[char], p: usize) -> (r: OrderedListType)
    requires
        p < l@.len(),
    ensures
        r == list_type(l@, p as int),
{
    let c = l[p];
    if '0' <= c && c <= '9' {
        return OrderedListType::Numeric;
    }
    let roman = match roman_marker_in(l, p) {
        Some(e) => e > p + 1 || c == 'i' || c == 'I',
        None => false,
    };
    if roman {
        if 'a' <= c && c <= 'z' {
            OrderedListType::LowercaseRoman
        } else {
            OrderedListType::UppercaseRoman
        }
    } else if 'a' <= c && c <= 'z' {
        OrderedListType::Lowercase
    } else {
        OrderedListType::Uppercase
    }
}

/// An unordered (`ordered == false`) or ordered list starting at line `i`.
fn list_in(ls: &[Vec<char>], i: usize, ordered: bool, depth: usize) -> (r: Option<(Block, usize)>)
    requires
        i < ls@.len(),
    ensures
        found_block(r) == list_at(lines_view(ls@), i as int, ordered, depth as nat),
        r matches Some((_, n)) ==> 1 <= n <= ls@.len() - i,
    decreases depth, 1usize,
{
    let ghost lv = lines_view(ls@);
    if depth == 0 {
        return None;
    }
    let p0 = match item_begin_in(ls[i].as_slice(), ordered) {
        Some((p, _)) => p,
        None => {
            return None;
        },
    };
    let ghost full = list_scan(lv, i as int, false, false, ordered);
    let mut ranges: Vec<(usize, usize)> = Vec::new();
    let mut j = i;
    let mut pb = false;
    let mut loose = false;
    while j < ls.len()
        invariant
            i <= j <= ls@.len(),
            i < ls@.len(),
            lv == lines_view(ls@),
            j == i ==> ranges@.len() == 0 && !pb && !loose,
            j > i ==> ranges@.len() > 0,
            forall|k: int|
                0 <= k < ranges@.len() ==> (#[trigger] ranges@[k]).0 < ranges@[k].1 <= ls@.len()
                    && item_begin(lv[ranges@[k].0 as int], ordered) is Some,
            ({
                let (e1, l1, it1) = list_scan(lv, j as int, pb, loose, ordered);
                full == (e1, l1, ranges_view(ranges@) + it1)
            }),
            j == i ==> item_begin(lv[i as int], ordered) is Some,
        ensures
            i < j <= ls@.len(),
            forall|k: int|
                0 <= k < ranges@.len() ==> (#[trigger] ranges@[k]).0 < ranges@[k].1 <= ls@.len()
                    && item_begin(lv[ranges@[k].0 as int], ordered) is Some,
            full == (j as int, loose, ranges_view(ranges@) + seq![]),
        decreases ls@.len() - j,
    {
        let ind = match item_begin_in(ls[j].as_slice(), ordered) {
            Some((p, _)) => p,
            None => {
                assert(list_scan(lv, j as int, pb, loose, ordered) == (j as int, loose, Seq::<(int, int)>::empty()));
                break;
            },
        };
        let (e, pb2, gap) = item_end_in(ls, j + 1, ind, ordered);
        let ghost old_ranges = ranges@;
        ranges.push((j, e));
        proof {
            let (e1, l1, it1) = list_scan(lv, e as int, pb2, loose || pb || gap, ordered);
            assert(ranges_view(ranges@) + it1 =~= ranges_view(old_ranges) + (seq![(j as int, e as int)] + it1));
        }
        loose = loose || pb || gap;
        pb = pb2;
        j = e;
    }
    let ghost (end, lz, its) = full;
    assert(ranges_view(ranges@) + seq![] =~= ranges_view(ranges@));
    let ghost rv = ranges_view(ranges@);
    let mut items: Vec<ListItem> = Vec::new();
    let mut k: usize = 0;
    while k < ranges.len()
        invariant
            k <= ranges@.len(),
            depth > 0,
            lv == lines_view(ls@),
            rv == ranges_view(ranges@),
            forall|m: int|
                0 <= m < ranges@.len() ==> (#[trigger] ranges@[m]).0 < ranges@[m].1 <= ls@.len()
                    && item_begin(lv[ranges@[m].0 as int], ordered) is Some,
            items_view(items@) + list_items(lv, rv, k as int, loose, ordered, depth as nat)
                == list_items(lv, rv, 0, loose, ordered, depth as nat),
        decreases ranges@.len() - k,
    {
        let (a, e) = ranges[k];
        let lines = item_lines_in(ls, a, e, ordered);
        let bl = blocks_in(lines.as_slice(), depth - 1);
        let ghost before = items@;
        push_item(&mut items, bl, loose);
        k += 1;
        assert(items_view(items@) + list_items(lv, rv, k as int, loose, ordered, depth as nat)
            =~= items_view(before) + list_items(lv, rv, (k - 1) as int, loose, ordered, depth as nat));
    }
    assert(items_view(items@) =~= list_items(lv, rv, 0, loose, ordered, depth as nat));
    if ordered {
        let t = list_type_of(ls[i].as_slice(), p0);
        Some((Block::OrderedList(items, t), j - i))
    } else {
        Some((Block::UnorderedList(items), j - i))
    }
}

/// The block that starts at line `i`: the first of the recognizers that
/// matches, in their fixed order.
fn block_in(ls: &[Vec<char>], i: usize, depth: usize) -> (r: Option<(Block, usize)>)
    requires
        i < ls@.len(),
    ensures
        found_block(r) == block_at(lines_view(ls@), i as int, depth as nat),
        r matches Some((_, n)) ==> 1 <= n <= ls@.len() - i,
    decreases depth, 2usize,
{
    let r = hr_in(ls, i);
    if r.is_some() {
        return r;
    }
    let r = atx_in(ls, i);
    if r.is_some() {
        return r;
    }
    let r = code_block_in(ls, i);
    if r.is_some() {
        return r;
    }
    let r = quote_in(ls, i, depth);
    if r.is_some() {
        return r;
    }
    let r = list_in(ls, i, false, depth);
    if r.is_some() {
        return r;
    }
    let r = list_in(ls, i, true, depth);
    if r.is_some() {
        return r;
    }
    let r = link_ref_in(ls, i);
    if r.is_some() {
        return r;
    }
    setext_in(ls, i)
}

proof fn lemma_split_view(v: Seq<Span>, k: int)
    requires
        0 <= k <= v.len(),
    ensures
        spans_view(v) == spans_view(v.subrange(0, k)) + spans_view(v.subrange(k, v.len() as int)),
{
    lemma_spans_view_concat(v.subrange(0, k), v.subrange(k, v.len() as int));
    assert(v.subrange(0, k) + v.subrange(k, v.len() as int) =~= v);
}

fn is_break(sp: &Span) -> (r: bool)
    ensures
        r == (span_view(*sp) == SpanView::Break),
{
    match sp {
        Span::Break => true,
        _ => false,
    }
}

/// Adds the spans of the paragraph line `l` to `t`, as `join_line` says.
fn join_line_in(t: &mut Vec<Span>, l: &[char])
    ensures
        spans_view(final(t)@) == join_line(spans_view(old(t)@), l@),
{
    let ghost buf = spans_view(t@);
    proof {
        lemma_spans_view_len(t@);
    }
    let k = t.len();
    scan_into(l, 0, l.len(), t);
    let ghost new = line_spans(l@, k == 0);
    let ghost mid = t@;
    proof {
        lemma_spans_view_len(mid);
        lemma_split_view(mid, k as int);
        let sv0 = spans_view(mid.subrange(0, k as int));
        let sv1 = spans_view(mid.subrange(k as int, mid.len() as int));
        lemma_spans_view_len(mid.subrange(0, k as int));
        assert((sv0 + sv1).subrange(0, k as int) =~= sv0);
        assert((sv0 + sv1).subrange(k as int, (sv0 + sv1).len() as int) =~= sv1);
        assert((buf + new).subrange(0, k as int) =~= buf);
        assert((buf + new).subrange(k as int, (buf + new).len() as int) =~= new);
        assert(sv0 == buf);
        assert(sv1 == new);
    }
    if k > 0 && t.len() > k && !is_break(&t[k - 1]) {
        proof {
            reveal_strlit("\n");
            assert(spans_view(mid.subrange(0, k as int))[k - 1] == span_view(mid[k - 1])) by {
                lemma_spans_view_len(mid.subrange(0, k as int));
            }
        }
        let nl = "\n".to_owned();
        proof {
            reveal_strlit("\n");
            assert(nl@ =~= seq!['\n']);
        }
        let x = Span::Text(nl);
        t.insert(k, x);
        proof {
            assert(t@ =~= (mid.subrange(0, k as int) + seq![x]) + mid.subrange(
                k as int,
                mid.len() as int,
            ));
            lemma_spans_view_concat(mid.subrange(0, k as int) + seq![x], mid.subrange(k as int, mid.len() as int));
            lemma_spans_view_concat(mid.subrange(0, k as int), seq![x]);
            lemma_spans_view_push(Seq::<Span>::empty(), x);
            assert(seq![x] =~= Seq::<Span>::empty().push(x));
            assert(spans_view(Seq::<Span>::empty()) =~= Seq::<SpanView>::empty());
            assert(spans_view(seq![x]) =~= seq![SpanView::Text(seq!['\n'])]);
        }
    } else {
        proof {
            if k > 0 && mid.len() > k {
                assert(spans_view(mid.subrange(0, k as int))[k - 1] == span_view(mid[k - 1])) by {
                    lemma_spans_view_len(mid.subrange(0, k as int));
                }
            }
        }
    }
}

/// The blocks of the lines `ls`, with containers nested at most `depth`
/// deep.
pub fn blocks_in(ls: &[Vec<char>], depth: usize) -> (r: Vec<Block>)
    ensures
        blocks_view(r@) == blocks_from(lines_view(ls@), 0, seq![], depth as nat),
    decreases depth, 3usize,
{
    let ghost lv = lines_view(ls@);
    let mut t: Vec<Span> = Vec::new();
    let mut blocks: Vec<Block> = Vec::new();
    let mut i: usize = 0;
    assert(spans_view(t@) =~= seq![]);
    assert(blocks_view(blocks@) + blocks_from(lv, 0, seq![], depth as nat) =~= blocks_from(
        lv,
        0,
        seq![],
        depth as nat,
    ));
    while i < ls.len()
        invariant
            i <= ls@.len(),
            lv == lines_view(ls@),
            blocks_view(blocks@) + blocks_from(lv, i as int, spans_view(t@), depth as nat)
                == blocks_from(lv, 0, seq![], depth as nat),
        decreases ls@.len() - i,
    {
        proof {
            lemma_spans_view_len(t@);
        }
        let ghost before = blocks@;
        let ghost buf = spans_view(t@);
        match block_in(ls, i, depth) {
            Some((b, n)) => {
                if t.len() > 0 {
                    proof {
                        lemma_blocks_view_push(blocks@, Block::Paragraph(t));
                    }
                    blocks.push(Block::Paragraph(t));
                    t = Vec::new();
                }
                proof {
                    lemma_blocks_view_push(blocks@, b);
                }
                blocks.push(b);
                assert(blocks_view(blocks@) =~= blocks_view(before) + flush(buf) + seq![
                    block_view(b),
                ]);
                assert(spans_view(t@) =~= seq![]);
                i += n;
            },
            None => {
                if ls[i].len() == 0 && t.len() > 0 {
                    proof {
                        lemma_blocks_view_push(blocks@, Block::Paragraph(t));
                    }
                    blocks.push(Block::Paragraph(t));
                    t = Vec::new();
                    assert(spans_view(t@) =~= seq![]);
                    assert(blocks_view(blocks@) =~= blocks_view(before) + flush(buf));
                } else {
                    assert(blocks_view(blocks@) =~= blocks_view(before));
                }
                join_line_in(&mut t, ls[i].as_slice());
                i += 1;
            },
        }
    }
    proof {
        lemma_spans_view_len(t@);
    }
    let ghost before = blocks@;
    if t.len() > 0 {
        proof {
            lemma_blocks_view_push(blocks@, Block::Paragraph(t));
        }
        blocks.push(Block::Paragraph(t));
        assert(blocks_view(blocks@) =~= blocks_view(before) + flush(spans_view(t@)));
    } else {
        assert(blocks_view(blocks@) =~= blocks_view(before) + flush(spans_view(t@)));
    }
    blocks
}

/// The lines of `s`, as `str::lines` splits them.
pub(crate) fn lines_in(s: &[char]) -> (r: Vec<Vec<char>>)
    ensures
        lines_view(r@) == lines_of(s@),
{
    let mut out: Vec<Vec<char>> = Vec::new();
    let mut start: usize = 0;
    let mut i: usize = 0;
    assert(lines_view(out@) + lines_from(s@, 0, 0) =~= lines_of(s@));
    while i < s.len()
        invariant
            start <= i <= s@.len(),
            lines_view(out@) + lines_from(s@, start as int, i as int) == lines_of(s@),
        decreases s@.len() - i,
    {
        if s[i] == '\n' {
            let mut l = copy_range(s, start, i);
            if l.len() > 0 && l[l.len() - 1] == '\r' {
                l.pop();
            }
            assert(l@ =~= strip_cr(s@.subrange(start as int, i as int)));
            let ghost before = out@;
            proof {
                lemma_lines_push(out@, l);
            }
            out.push(l);
            assert(lines_view(out@) + lines_from(s@, (i + 1) as int, (i + 1) as int) =~= lines_view(
                before,
            ) + lines_from(s@, start as int, i as int));
            start = i + 1;
        }
        i += 1;
    }
    if start < s.len() {
        let l = copy_range(s, start, s.len());
        proof {
            lemma_lines_push(out@, l);
        }
        out.push(l);
    }
    assert(lines_view(out@) =~= lines_of(s@));
    out
}

pub open spec fn strs_view(v: Seq<&str>) -> Seq<Seq<char>> {
    Seq::new(v.len(), |k: int| v[k]@)
}

pub(crate) fn to_lines(lines: &[&str]) -> (r: Vec<Vec<char>>)
    ensures
        lines_view(r@) == strs_view(lines@),
        r@.len() == lines@.len(),
{
    let mut out: Vec<Vec<char>> = Vec::new();
    let mut k: usize = 0;
    while k < lines.len()
        invariant
            k <= lines@.len(),
            lines_view(out@) == strs_view(lines@.subrange(0, k as int)),
            out@.len() == k,
        decreases lines@.len() - k,
    {
        let l = chars_of(lines[k]);
        proof {
            lemma_lines_push(out@, l);
        }
        out.push(l);
        k += 1;
        assert(lines_view(out@) =~= strs_view(lines@.subrange(0, k as int)));
    }
    assert(lines@.subrange(0, lines@.len() as int) =~= lines@);
    out
}

/// Parses a Markdown text into its blocks.
pub fn parse_blocks(md: &str) -> (r: Vec<Block>)
    ensures
        blocks_view(r@) == document_of(md@),
{
    let s = chars_of(md);
    let ls = lines_in(s.as_slice());
    blocks_in(ls.as_slice(), MAX_DEPTH)
}

/// Parses lines of Markdown into blocks.
pub fn parse_blocks_from_lines(lines: &[&str]) -> (r: Vec<Block>)
    ensures
        blocks_view(r@) == blocks_of(strs_view(lines@)),
{
    let ls = to_lines(lines);
    blocks_in(ls.as_slice(), MAX_DEPTH)
}

/// A horizontal rule at the first line.
pub fn parse_hr(lines: &[&str]) -> (r: Option<(Block, usize)>)
    requires
        lines@.len() > 0,
    ensures
        found_block(r) == hr_at(strs_view(lines@), 0),
{
    let ls = to_lines(lines);
    hr_in(ls.as_slice(), 0)
}

/// An ATX heading at the first line.
pub fn parse_atx_header(lines: &[&str]) -> (r: Option<(Block, usize)>)
    requires
        lines@.len() > 0,
    ensures
        found_block(r) == atx_at(strs_view(lines@), 0),
{
    let ls = to_lines(lines);
    atx_in(ls.as_slice(), 0)
}

/// A setext heading at the first two lines.
pub fn parse_setext_header(lines: &[&str]) -> (r: Option<(Block, usize)>)
    requires
        lines@.len() > 0,
    ensures
        found_block(r) == setext_at(strs_view(lines@), 0),
{
    let ls = to_lines(lines);
    setext_in(ls.as_slice(), 0)
}

/// A code block from the first line.
pub fn parse_code_block(lines: &[&str]) -> (r: Option<(Block, usize)>)
    requires
        lines@.len() > 0,
    ensures
        found_block(r) == code_block_at(strs_view(lines@), 0),
{
    let ls = to_lines(lines);
    code_block_in(ls.as_slice(), 0)
}

/// A blockquote from the first line.
pub fn parse_blockquote(lines: &[&str]) -> (r: Option<(Block, usize)>)
    requires
        lines@.len() > 0,
    ensures
        found_block(r) == quote_at(strs_view(lines@), 0, MAX_DEPTH as nat),
{
    let ls = to_lines(lines);
    quote_in(ls.as_slice(), 0, MAX_DEPTH)
}

/// An unordered list from the first line.
pub fn parse_unordered_list(lines: &[&str]) -> (r: Option<(Block, usize)>)
    requires
        lines@.len() > 0,
    ensures
        found_block(r) == list_at(strs_view(lines@), 0, false, MAX_DEPTH as nat),
{
    let ls = to_lines(lines);
    list_in(ls.as_slice(), 0, false, MAX_DEPTH)
}

/// An ordered list from the first line.
pub fn parse_ordered_list(lines: &[&str]) -> (r: Option<(Block, usize)>)
    requires
        lines@.len() > 0,
    ensures
        found_block(r) == list_at(strs_view(lines@), 0, true, MAX_DEPTH as nat),
{
    let ls = to_lines(lines);
    list_in(ls.as_slice(), 0, true, MAX_DEPTH)
}

/// A link reference definition at the first line (or the first two).
pub fn parse_link_reference(lines: &[&str]) -> (r: Option<(Block, usize)>)
    requires
        lines@.len() > 0,
    ensures
        found_block(r) == link_ref_at(strs_view(lines@), 0),
{
    let ls = to_lines(lines);
    link_ref_in(ls.as_slice(), 0)
}

} // verus!
