//! Raw HTML blocks: a block-level tag at the very start of the first line,
//! up to the end tag that balances it (same-name tags nest); comments count
//! as a tag of their own, and `<hr>` and `<br>` stand alone.

use vstd::prelude::*;
use crate::block::{lines_view, strs_view};
use crate::text::{chars_of, prefix_bytes, prefix_bytes_exec, is_ws, skip_ws, skip_ws_back_exec, skip_ws_exec, spec_is_ws, string_of, trim_end};
use crate::tree::{Block, BlockView, block_view};

verus! {

/// `pat` occurs in `l` at `k`.
pub open spec fn occurs_at(l: Seq<char>, k: int, pat: Seq<char>) -> bool {
    0 <= k && k + pat.len() <= l.len() && l.subrange(k, k + pat.len()) == pat
}

/// The first occurrence of `pat` in `l` at or after `k`.
pub open spec fn find_from(l: Seq<char>, k: int, pat: Seq<char>) -> Option<int>
    decreases l.len() - k,
{
    if k < 0 || k >= l.len() || k + pat.len() > l.len() {
        None
    } else if occurs_at(l, k, pat) {
        Some(k)
    } else {
        find_from(l, k + 1, pat)
    }
}

/// The first whitespace character of `l[k..e]`, or `e`.
pub open spec fn ws_from(l: Seq<char>, k: int, e: int) -> int
    decreases e - k,
{
    if k < e && !spec_is_ws(l[k]) {
        ws_from(l, k + 1, e)
    } else {
        k
    }
}

/// The first tag in `l[off..]`: a comment opening anywhere, else a comment
/// closing, else the first `<...>`; its name and where it starts and ends.
/// The name of `<...>` is its first word without the `<`, or all that lies
/// between `<` and `>` when it is one word.
pub open spec fn tag_at(l: Seq<char>, off: int) -> Option<(Seq<char>, int, int)> {
    match find_from(l, off, "<!--"@) {
        Some(h) => Some(("!--"@, h, h + 4)),
        None => match find_from(l, off, "-->"@) {
            Some(h) => Some(("/!--"@, h, h + 3)),
            None => match find_from(l, off, seq!['<']) {
                None => None,
                Some(h) => match find_from(l, h, seq!['>']) {
                    None => None,
                    Some(g) => {
                        let w = ws_from(l, h, g + 1);
                        let end = if skip_ws(l, w, g + 1) < g + 1 {
                            w
                        } else {
                            g
                        };
                        Some((l.subrange(h + 1, end), h, g + 1))
                    },
                },
            },
        },
    }
}

pub open spec fn special_tag(t: Seq<char>) -> bool {
    t == "hr"@ || t == "hr/"@ || t == "br"@ || t == "br/"@
}

/// The tags that open a raw HTML block.
pub open spec fn block_tag(t: Seq<char>) -> bool {
    ||| t == "p"@ || t == "div"@ || t == "h1"@ || t == "h2"@ || t == "h3"@ || t == "h4"@
    ||| t == "h5"@ || t == "h6"@ || t == "blockquote"@ || t == "pre"@ || t == "table"@
    ||| t == "dl"@ || t == "ol"@ || t == "ul"@ || t == "script"@ || t == "noscript"@
    ||| t == "form"@ || t == "fieldset"@ || t == "iframe"@ || t == "math"@ || t == "ins"@
    ||| t == "del"@ || special_tag(t) || t == "!--"@
}

/// What one line decides.
pub enum LineEnd {
    /// The block goes on, with this open tag and nesting.
    Open(Seq<char>, int),
    /// The block ends with this line.
    Accept,
    /// There is no block.
    Reject,
}

/// The tags of the line `l` from `off`, with the block's open tag (empty
/// while none) and nesting; `first` says that `l` is the first line.
pub open spec fn html_line(l: Seq<char>, off: int, first: bool, open: Seq<char>, nest: int) -> LineEnd
    decreases l.len() - off,
{
    match tag_at(l, off) {
        None => LineEnd::Open(open, nest),
        Some((tag, h, t)) => if t <= off || t > l.len() {
            LineEnd::Reject
        } else {
            let (o2, n2, fin) = if open.len() > 0 {
                if tag == open {
                    (open, nest + 1, None)
                } else if tag.len() > 0 && tag[0] == '/' && tag.drop_first() == open {
                    if nest > 0 {
                        (open, nest - 1, None)
                    } else if t == l.len() {
                        (open, nest, Some(LineEnd::Accept))
                    } else {
                        (open, nest, Some(LineEnd::Reject))
                    }
                } else {
                    (open, nest, None)
                }
            } else if first && h == 0 && block_tag(tag) {
                if special_tag(tag) {
                    (open, nest, Some(LineEnd::Accept))
                } else {
                    (tag, nest, None)
                }
            } else {
                (open, nest, Some(LineEnd::Reject))
            };
            match fin {
                Some(e) => e,
                None => if t >= l.len() {
                    LineEnd::Open(o2, n2)
                } else {
                    html_line(l, t, first, o2, n2)
                },
            }
        },
    }
}

/// The number of lines of the block whose first line is `ls[i]`, scanning
/// from `ls[j]`.
pub open spec fn html_from(ls: Seq<Seq<char>>, i: int, j: int, open: Seq<char>, nest: int) -> Option<int>
    decreases ls.len() - j,
{
    if j < 0 || j >= ls.len() {
        None
    } else {
        match html_line(trim_end(ls[j]), 0, j == i, open, nest) {
            LineEnd::Accept => Some(j - i + 1),
            LineEnd::Reject => None,
            LineEnd::Open(o, n) => html_from(ls, i, j + 1, o, n),
        }
    }
}

/// The block's text: each of its lines without trailing whitespace, and a
/// newline after each.
pub open spec fn html_text(ls: Seq<Seq<char>>, i: int, n: int) -> Seq<char>
    decreases n,
{
    if n <= 0 {
        seq![]
    } else {
        html_text(ls, i, n - 1) + trim_end(ls[i + n - 1]) + seq!['\n']
    }
}

pub open spec fn html_block_at(ls: Seq<Seq<char>>, i: int) -> Option<(BlockView, int)> {
    match html_from(ls, i, i, seq![], 0) {
        Some(n) => Some((BlockView::Raw(html_text(ls, i, n)), n)),
        None => None,
    }
}

// ============================================================ executable side

fn occurs_in(l: &[char], k: usize, pat: &[char]) -> (r: bool)
    requires
        k + pat@.len() <= l@.len(),
    ensures
        r == occurs_at(l@, k as int, pat@),
{
    let mut m: usize = 0;
    let n = l.len();
    while m < pat.len()
        invariant
            m <= pat@.len(),
            n == l@.len(),
            k + pat@.len() <= l@.len(),
            forall|x: int| 0 <= x < m ==> l@[k + x] == pat@[x],
        decreases pat@.len() - m,
    {
        if l[k + m] != pat[m] {
            assert(l@.subrange(k as int, k + pat@.len())[m as int] != pat@[m as int]);
            return false;
        }
        m += 1;
    }
    assert(l@.subrange(k as int, k + pat@.len()) =~= pat@);
    true
}

fn find_from_in(l: &[char], k0: usize, pat: &[char]) -> (r: Option<usize>)
    requires
        k0 <= l@.len(),
    ensures
        crate::inline::opt_int(r) == find_from(l@, k0 as int, pat@),
        r matches Some(h) ==> k0 <= h && h + pat@.len() <= l@.len() && occurs_at(l@, h as int, pat@),
{
    let mut k = k0;
    while k < l.len() && pat.len() <= l.len() - k
        invariant
            k0 <= k <= l@.len(),
            find_from(l@, k as int, pat@) == find_from(l@, k0 as int, pat@),
        decreases l@.len() - k,
    {
        if occurs_in(l, k, pat) {
            return Some(k);
        }
        k += 1;
    }
    None
}

fn ws_from_in(l: &[char], k0: usize, e: usize) -> (r: usize)
    requires
        k0 <= e <= l@.len(),
    ensures
        r == ws_from(l@, k0 as int, e as int),
        k0 <= r <= e,
{
    let mut k = k0;
    while k < e && !is_ws(l[k])
        invariant
            k0 <= k <= e <= l@.len(),
            ws_from(l@, k as int, e as int) == ws_from(l@, k0 as int, e as int),
        decreases e - k,
    {
        k += 1;
    }
    k
}

fn lit(s: &str) -> (r: Vec<char>)
    ensures
        r@ == s@,
{
    chars_of(s)
}

/// The first tag in `l[off..]`, its name and where it starts and ends.
fn find_tag_in(l: &[char], off: usize) -> (r: Option<(Vec<char>, usize, usize)>)
    requires
        off <= l@.len(),
    ensures
        match r {
            Some((t, h, e)) => tag_at(l@, off as int) == Some((t@, h as int, e as int)) && off
                <= h < e <= l@.len(),
            None => tag_at(l@, off as int) is None,
        },
{
    let len = l.len();
    proof {
        reveal_strlit("<!--");
        reveal_strlit("-->");
    }
    let open_c = lit("<!--");
    assert(open_c@.len() == 4);
    assert(len == l@.len());
    if let Some(h) = find_from_in(l, off, open_c.as_slice()) {
        return Some((lit("!--"), h, h + 4));
    }
    let close_c = lit("-->");
    assert(close_c@.len() == 3);
    if let Some(h) = find_from_in(l, off, close_c.as_slice()) {
        return Some((lit("/!--"), h, h + 3));
    }
    let mut lt: Vec<char> = Vec::new();
    lt.push('<');
    let mut gt: Vec<char> = Vec::new();
    gt.push('>');
    assert(lt@ =~= seq!['<']);
    assert(gt@ =~= seq!['>']);
    match find_from_in(l, off, lt.as_slice()) {
        None => None,
        Some(h) => match find_from_in(l, h, gt.as_slice()) {
            None => None,
            Some(g) => {
                assert(l@[h as int] == '<') by {
                    assert(l@.subrange(h as int, h + 1)[0] == '<');
                }
                assert(l@[g as int] == '>') by {
                    assert(l@.subrange(g as int, g + 1)[0] == '>');
                }
                assert(!spec_is_ws(l@[h as int]));
                assert(ws_from(l@, h as int, g + 1) == ws_from(l@, h + 1, g + 1));
                let w = ws_from_in(l, h + 1, g + 1);
                let end = if skip_ws_exec(l, w, g + 1) < g + 1 {
                    w
                } else {
                    g
                };
                let name = crate::block::copy_range(l, h + 1, end);
                Some((name, h, g + 1))
            },
        },
    }
}

fn eq_lit(t: &[char], s: &str) -> (r: bool)
    ensures
        r == (t@ == s@),
{
    let c = chars_of(s);
    if t.len() != c.len() {
        return false;
    }
    let mut k: usize = 0;
    while k < t.len()
        invariant
            k <= t@.len() == c@.len(),
            c@ == s@,
            forall|m: int| 0 <= m < k ==> t@[m] == c@[m],
        decreases t@.len() - k,
    {
        if t[k] != c[k] {
            assert(t@[k as int] != c@[k as int]);
            return false;
        }
        k += 1;
    }
    assert(t@ =~= c@);
    true
}

fn is_special(t: &[char]) -> (r: bool)
    ensures
        r == special_tag(t@),
{
    eq_lit(t, "hr") || eq_lit(t, "hr/") || eq_lit(t, "br") || eq_lit(t, "br/")
}

fn is_block_tag(t: &[char]) -> (r: bool)
    ensures
        r == block_tag(t@),
{
    eq_lit(t, "p") || eq_lit(t, "div") || eq_lit(t, "h1") || eq_lit(t, "h2") || eq_lit(t, "h3")
        || eq_lit(t, "h4") || eq_lit(t, "h5") || eq_lit(t, "h6") || eq_lit(t, "blockquote")
        || eq_lit(t, "pre") || eq_lit(t, "table") || eq_lit(t, "dl") || eq_lit(t, "ol") || eq_lit(
        t,
        "ul",
    ) || eq_lit(t, "script") || eq_lit(t, "noscript") || eq_lit(t, "form") || eq_lit(t, "fieldset")
        || eq_lit(t, "iframe") || eq_lit(t, "math") || eq_lit(t, "ins") || eq_lit(t, "del")
        || is_special(t) || eq_lit(t, "!--")
}

fn same(a: &[char], b: &[char]) -> (r: bool)
    ensures
        r == (a@ == b@),
{
    if a.len() != b.len() {
        return false;
    }
    let mut k: usize = 0;
    while k < a.len()
        invariant
            k <= a@.len() == b@.len(),
            forall|m: int| 0 <= m < k ==> a@[m] == b@[m],
        decreases a@.len() - k,
    {
        if a[k] != b[k] {
            assert(a@[k as int] != b@[k as int]);
            return false;
        }
        k += 1;
    }
    assert(a@ =~= b@);
    true
}

/// `t` is `/` followed by `open`.
fn closes(t: &[char], open: &[char]) -> (r: bool)
    ensures
        r == (t@.len() > 0 && t@[0] == '/' && t@.drop_first() == open@),
{
    if t.len() == 0 || t[0] != '/' || t.len() - 1 != open.len() {
        return false;
    }
    let mut k: usize = 0;
    while k < open.len()
        invariant
            k <= open@.len(),
            t@.len() == open@.len() + 1,
            forall|m: int| 0 <= m < k ==> t@[m + 1] == open@[m],
        decreases open@.len() - k,
    {
        if t[k + 1] != open[k] {
            assert(t@.drop_first()[k as int] != open@[k as int]);
            return false;
        }
        k += 1;
    }
    assert(t@.drop_first() =~= open@);
    true
}

pub open spec fn line_code(e: LineEnd, open: Seq<char>, nest: int, code: u8) -> bool {
    match e {
        LineEnd::Open(o, n) => code == 0 && o == open && n == nest,
        LineEnd::Accept => code == 1,
        LineEnd::Reject => code == 2,
    }
}

/// Runs the tags of one line: 0 when the block goes on, 1 when it ends with
/// this line, 2 when there is no block; with the open tag and nesting after
/// the line.
fn line_in(l: &[char], first: bool, open0: Vec<char>, nest0: u128) -> (r: (u8, Vec<char>, u128))
    requires
        nest0 as int + l@.len() <= u128::MAX,
    ensures
        line_code(html_line(l@, 0, first, open0@, nest0 as int), (r.1)@, (r.2) as int, r.0),
        (r.2) as int <= nest0 as int + l@.len(),
{
    let ghost start = html_line(l@, 0, first, open0@, nest0 as int);
    let mut open = open0;
    let mut nest = nest0;
    let mut off: usize = 0;
    let len = l.len();
    loop
        invariant
            len == l@.len(),
            off <= l@.len(),
            nest as int <= nest0 as int + off,
            nest0 as int + l@.len() <= u128::MAX,
            html_line(l@, off as int, first, open@, nest as int) == start,
            start == html_line(l@, 0, first, open0@, nest0 as int),
        decreases l@.len() - off,
    {
        match find_tag_in(l, off) {
            None => {
                return (0, open, nest);
            },
            Some((tag, h, t)) => {
                if open.len() > 0 {
                    if same(tag.as_slice(), open.as_slice()) {
                        nest = nest + 1;
                    } else if closes(tag.as_slice(), open.as_slice()) {
                        if nest > 0 {
                            nest = nest - 1;
                        } else if t == l.len() {
                            return (1, open, nest);
                        } else {
                            return (2, open, nest);
                        }
                    }
                } else if first && h == 0 && is_block_tag(tag.as_slice()) {
                    if is_special(tag.as_slice()) {
                        return (1, open, nest);
                    } else {
                        open = tag;
                    }
                } else {
                    return (2, open, nest);
                }
                if t >= l.len() {
                    return (0, open, nest);
                }
                off = t;
            },
        }
    }
}

/// A raw HTML block at the first line.
pub fn parse_html_block(lines: &[&str]) -> (r: Option<(Block, usize)>)
    ensures
        match r {
            Some((b, n)) => html_block_at(strs_view(lines@), 0) == Some((block_view(b), n as int)),
            None => html_block_at(strs_view(lines@), 0) is None,
        },
{
    let ls = crate::block::to_lines(lines);
    let ghost lv = lines_view(ls@);
    let mut open: Vec<char> = Vec::new();
    let mut nest: u128 = 0;
    let mut j: usize = 0;
    let mut text: Vec<char> = Vec::new();
    while j < ls.len()
        invariant
            j <= ls@.len(),
            lv == lines_view(ls@),
            lv == strs_view(lines@),
            nest as int <= j * (usize::MAX as int),
            html_from(lv, 0, j as int, open@, nest as int) == html_from(lv, 0, 0, seq![], 0),
            text@ == html_text(lv, 0, j as int),
        decreases ls@.len() - j,
    {
        let b = skip_ws_back_exec(ls[j].as_slice(), 0, ls[j].len());
        assert(ls@[j as int]@.subrange(0, ls@[j as int]@.len() as int) =~= ls@[j as int]@);
        let l = crate::block::copy_range(ls[j].as_slice(), 0, b);
        assert(l@ == trim_end(lv[j as int]));
        assert(nest as int + l@.len() <= u128::MAX) by (nonlinear_arith)
            requires
                nest as int <= j * (usize::MAX as int),
                l@.len() <= usize::MAX,
                j < usize::MAX,
                usize::MAX <= 0xffff_ffff_ffff_ffff,
        ;
        let (code, o2, n2) = line_in(l.as_slice(), j == 0, open, nest);
        open = o2;
        nest = n2;
        crate::html::push_chars(&mut text, l.as_slice(), 0, l.len());
        text.push('\n');
        assert(l@.subrange(0, l@.len() as int) =~= l@);
        assert(text@ =~= html_text(lv, 0, (j + 1) as int));
        if code == 1 {
            let s = string_of(text.as_slice(), 0, text.len());
            assert(text@.subrange(0, text@.len() as int) =~= text@);
            return Some((Block::Raw(s), j + 1));
        } else if code == 2 {
            return None;
        }
        assert(nest as int <= (j + 1) * (usize::MAX as int)) by (nonlinear_arith)
            requires
                nest as int <= j * (usize::MAX as int) + l@.len(),
                l@.len() <= usize::MAX,
        ;
        j += 1;
    }
    None
}

pub open spec fn tag_in_bytes(l: Seq<char>, f: Option<(Seq<char>, int, int)>) -> Option<(Seq<char>, int, int)> {
    match f {
        Some((t, h, e)) => Some((t, prefix_bytes(l, h), prefix_bytes(l, e))),
        None => None,
    }
}

pub open spec fn tag_view(r: Option<(String, usize, usize)>) -> Option<(Seq<char>, int, int)> {
    match r {
        Some((t, h, e)) => Some((t@, h as int, e as int)),
        None => None,
    }
}

/// The first tag in `line`, its name, and the byte offsets where it starts
/// and ends.
pub fn find_tag(line: &str) -> (r: Option<(String, usize, usize)>)
    ensures
        tag_view(r) == tag_in_bytes(line@, tag_at(line@, 0)),
{
    let l = chars_of(line);
    match find_tag_in(l.as_slice(), 0) {
        Some((t, h, e)) => {
            let s = string_of(t.as_slice(), 0, t.len());
            assert(t@.subrange(0, t@.len() as int) =~= t@);
            let hb = prefix_bytes_exec(line, l.as_slice(), h);
            let eb = prefix_bytes_exec(line, l.as_slice(), e);
            Some((s, hb, eb))
        },
        None => None,
    }
}

} // verus!
