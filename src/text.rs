//! Character-level helpers shared by the block and inline parsers.

use vstd::prelude::*;
use vstd::std_specs::iter::IteratorSpec;
use vstd::utf8::{encode_scalar, encode_utf8};

verus! {

/// Unicode `White_Space`: the characters that `char::is_whitespace` accepts.
pub open spec fn spec_is_ws(c: char) -> bool {
    ||| ('\u{9}' <= c && c <= '\u{d}')
    ||| c == ' '
    ||| c == '\u{85}'
    ||| c == '\u{a0}'
    ||| c == '\u{1680}'
    ||| ('\u{2000}' <= c && c <= '\u{200a}')
    ||| c == '\u{2028}'
    ||| c == '\u{2029}'
    ||| c == '\u{202f}'
    ||| c == '\u{205f}'
    ||| c == '\u{3000}'
}

pub fn is_ws(c: char) -> (r: bool)
    ensures
        r == spec_is_ws(c),
{
    ('\u{9}' <= c && c <= '\u{d}') || c == ' ' || c == '\u{85}' || c == '\u{a0}' || c
        == '\u{1680}' || ('\u{2000}' <= c && c <= '\u{200a}') || c == '\u{2028}' || c
        == '\u{2029}' || c == '\u{202f}' || c == '\u{205f}' || c == '\u{3000}'
}

/// `s` with its leading whitespace removed (`str::trim_start`).
pub open spec fn trim_start(s: Seq<char>) -> Seq<char>
    decreases s.len(),
{
    if s.len() > 0 && spec_is_ws(s[0]) {
        trim_start(s.drop_first())
    } else {
        s
    }
}

/// `s` with its trailing whitespace removed (`str::trim_end`).
pub open spec fn trim_end(s: Seq<char>) -> Seq<char>
    decreases s.len(),
{
    if s.len() > 0 && spec_is_ws(s.last()) {
        trim_end(s.drop_last())
    } else {
        s
    }
}

/// `s` with whitespace removed at both ends (`str::trim`).
pub open spec fn trim(s: Seq<char>) -> Seq<char> {
    trim_end(trim_start(s))
}

/// The index of the first character of `s[lo..hi]` that is not whitespace,
/// or `hi`.
pub open spec fn skip_ws(s: Seq<char>, lo: int, hi: int) -> int
    decreases hi - lo,
{
    if lo < hi && spec_is_ws(s[lo]) {
        skip_ws(s, lo + 1, hi)
    } else {
        lo
    }
}

/// The end of `s[lo..hi]` once its trailing whitespace is dropped.
pub open spec fn skip_ws_back(s: Seq<char>, lo: int, hi: int) -> int
    decreases hi - lo,
{
    if lo < hi && spec_is_ws(s[hi - 1]) {
        skip_ws_back(s, lo, hi - 1)
    } else {
        hi
    }
}

pub proof fn lemma_skip_ws(s: Seq<char>, lo: int, hi: int)
    requires
        0 <= lo <= hi <= s.len(),
    ensures
        lo <= skip_ws(s, lo, hi) <= hi,
        trim_start(s.subrange(lo, hi)) == s.subrange(skip_ws(s, lo, hi), hi),
    decreases hi - lo,
{
    if lo < hi && spec_is_ws(s[lo]) {
        lemma_skip_ws(s, lo + 1, hi);
        assert(s.subrange(lo, hi).drop_first() =~= s.subrange(lo + 1, hi));
    }
}

pub proof fn lemma_skip_ws_back(s: Seq<char>, lo: int, hi: int)
    requires
        0 <= lo <= hi <= s.len(),
    ensures
        lo <= skip_ws_back(s, lo, hi) <= hi,
        trim_end(s.subrange(lo, hi)) == s.subrange(lo, skip_ws_back(s, lo, hi)),
    decreases hi - lo,
{
    if lo < hi && spec_is_ws(s[hi - 1]) {
        lemma_skip_ws_back(s, lo, hi - 1);
        assert(s.subrange(lo, hi).drop_last() =~= s.subrange(lo, hi - 1));
    }
}

/// The first index at or after `lo` and before `hi` that is not whitespace,
/// or `hi`.
pub fn skip_ws_exec(s: &[char], lo: usize, hi: usize) -> (r: usize)
    requires
        lo <= hi <= s@.len(),
    ensures
        r == skip_ws(s@, lo as int, hi as int),
        lo <= r <= hi,
        trim_start(s@.subrange(lo as int, hi as int)) == s@.subrange(r as int, hi as int),
{
    proof {
        lemma_skip_ws(s@, lo as int, hi as int);
    }
    let mut i = lo;
    while i < hi && is_ws(s[i])
        invariant
            lo <= i <= hi <= s@.len(),
            skip_ws(s@, i as int, hi as int) == skip_ws(s@, lo as int, hi as int),
        decreases hi - i,
    {
        i += 1;
    }
    i
}

/// The end of `s[lo..hi]` without its trailing whitespace.
pub fn skip_ws_back_exec(s: &[char], lo: usize, hi: usize) -> (r: usize)
    requires
        lo <= hi <= s@.len(),
    ensures
        r == skip_ws_back(s@, lo as int, hi as int),
        lo <= r <= hi,
        trim_end(s@.subrange(lo as int, hi as int)) == s@.subrange(lo as int, r as int),
{
    proof {
        lemma_skip_ws_back(s@, lo as int, hi as int);
    }
    let mut j = hi;
    while lo < j && is_ws(s[j - 1])
        invariant
            lo <= j <= hi <= s@.len(),
            skip_ws_back(s@, lo as int, j as int) == skip_ws_back(s@, lo as int, hi as int),
        decreases j - lo,
    {
        j -= 1;
    }
    j
}

/// The name for what `str::to_lowercase` returns.
pub uninterp spec fn lower_of(s: Seq<char>) -> Seq<char>;

/// Relies on `str::to_lowercase`: the result depends on the characters alone.
#[verifier::external_body]
pub(crate) fn lowercase(s: &str) -> (r: String)
    ensures
        r@ == lower_of(s@),
{
    s.to_lowercase()
}

/// The number of UTF-8 bytes of `s[0..k]`.
pub open spec fn prefix_bytes(s: Seq<char>, k: int) -> int {
    encode_utf8(s.subrange(0, k)).len() as int
}

pub proof fn lemma_utf8_concat_len(a: Seq<char>, b: Seq<char>)
    ensures
        encode_utf8(a + b).len() == encode_utf8(a).len() + encode_utf8(b).len(),
    decreases a.len(),
{
    if a.len() == 0 {
        assert(a + b =~= b);
    } else {
        lemma_utf8_concat_len(a.drop_first(), b);
        assert((a + b).drop_first() =~= a.drop_first() + b);
        assert((a + b)[0] == a[0]);
    }
}

/// The number of bytes of `c` in UTF-8.
fn char_width(c: char) -> (w: usize)
    ensures
        w == encode_scalar(c as u32).len(),
{
    broadcast use vstd::utf8::char_is_scalar;

    let v = c as u32;
    if v <= 0x7f {
        1
    } else if v <= 0x7ff {
        2
    } else if v <= 0xffff {
        3
    } else {
        4
    }
}

/// The number of UTF-8 bytes of the first `k` characters of `text`, whose
/// characters are `s`.
pub fn prefix_bytes_exec(text: &str, s: &[char], k: usize) -> (r: usize)
    requires
        s@ == text@,
        k <= s@.len(),
    ensures
        r == prefix_bytes(s@, k as int),
{
    let total = text.as_bytes().len();
    assert(encode_utf8(s@).len() == total);
    let mut n: usize = 0;
    let mut j: usize = 0;
    while j < k
        invariant
            j <= k <= s@.len(),
            total == encode_utf8(s@).len(),
            n == prefix_bytes(s@, j as int),
        decreases k - j,
    {
        proof {
            lemma_utf8_concat_len(s@.subrange(0, j as int), seq![s@[j as int]]);
            assert(s@.subrange(0, j as int) + seq![s@[j as int]] =~= s@.subrange(0, j + 1));
            assert(seq![s@[j as int]].drop_first() =~= Seq::<char>::empty());
            assert(encode_utf8(Seq::<char>::empty()) =~= Seq::<u8>::empty());
            assert(encode_utf8(seq![s@[j as int]]) =~= encode_scalar(s@[j as int] as u32) + encode_utf8(
                Seq::<char>::empty(),
            ));
            lemma_utf8_concat_len(s@.subrange(0, j + 1), s@.subrange(j + 1, s@.len() as int));
            assert(s@.subrange(0, j + 1) + s@.subrange(j + 1, s@.len() as int) =~= s@);
        }
        n = n + char_width(s[j]);
        j += 1;
    }
    n
}

/// The characters of a string slice, in order.
pub fn chars_of(s: &str) -> (r: Vec<char>)
    ensures
        r@ == s@,
{
    broadcast use vstd::string::group_string_axioms;

    let mut v: Vec<char> = Vec::new();
    let mut it = s.chars();
    loop
        invariant
            v@ + it.remaining() == s@,
            it.decrease() is Some,
        ensures
            v@ == s@,
        decreases it.decrease()->0,
    {
        match it.next() {
            Some(c) => {
                v.push(c);
            },
            None => {
                assert(v@ + it.remaining() =~= v@);
                break;
            },
        }
    }
    v
}

/// Relies on `String::push`: appends one character at the end.
#[verifier::external_body]
fn push_char(s: &mut String, c: char)
    ensures
        final(s)@ == old(s)@.push(c),
{
    s.push(c);
}

/// The string made of the characters `v[lo..hi]`.
pub fn string_of(v: &[char], lo: usize, hi: usize) -> (r: String)
    requires
        lo <= hi <= v@.len(),
    ensures
        r@ == v@.subrange(lo as int, hi as int),
{
    let mut s = String::new();
    let mut i = lo;
    while i < hi
        invariant
            lo <= i <= hi <= v@.len(),
            s@ == v@.subrange(lo as int, i as int),
        decreases hi - i,
    {
        push_char(&mut s, v[i]);
        i += 1;
        assert(s@ =~= v@.subrange(lo as int, i as int));
    }
    s
}

} // verus!
