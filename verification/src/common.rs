//! Recognizers shared by the sample and comment grammars: tokens, runs of
//! horizontal whitespace, line terminators, blank lines, and literal
//! matching.
//!
//! Every recognizer takes the whole input together with a starting
//! position (an index into the input's character sequence) and, on
//! success, reports the recognized value together with the position of the
//! first unconsumed character.

use vstd::prelude::*;

verus! {

/// Character class of a token's first character: `[A-Za-z_:]`.
pub open spec fn is_token_head_char(c: char) -> bool {
    ('a' <= c && c <= 'z') || ('A' <= c && c <= 'Z') || c == '_' || c == ':'
}

/// Character class of a decimal digit: `[0-9]`.
pub open spec fn is_digit_char(c: char) -> bool {
    '0' <= c && c <= '9'
}

/// Character class of a token's later characters: `[A-Za-z0-9_:]`.
pub open spec fn is_token_tail_char(c: char) -> bool {
    is_token_head_char(c) || is_digit_char(c)
}

/// Horizontal whitespace: a space or a tab.
pub open spec fn is_hspace_char(c: char) -> bool {
    c == ' ' || c == '\t'
}

/// True when the head character class accepts `x`, that is, when a token
/// may begin with `x`.
pub fn is_simple(x: char) -> (r: bool)
    ensures
        r == is_token_head_char(x),
{
    ('a' <= x && x <= 'z') || ('A' <= x && x <= 'Z') || x == '_' || x == ':'
}

fn is_token_tail(x: char) -> (r: bool)
    ensures
        r == is_token_tail_char(x),
{
    is_simple(x) || ('0' <= x && x <= '9')
}

/// End of the run of token tail characters that starts at `p`: the first
/// position at or after `p` whose character is outside the class, or the
/// end of the input.
pub open spec fn token_run_end(s: Seq<char>, p: int) -> int
    decreases s.len() - p,
{
    if p < s.len() && 0 <= p && is_token_tail_char(s[p]) {
        token_run_end(s, p + 1)
    } else {
        p
    }
}

pub proof fn lemma_token_run_end(s: Seq<char>, p: int)
    requires
        0 <= p <= s.len(),
    ensures
        p <= token_run_end(s, p) <= s.len(),
        forall|k: int| p <= k < token_run_end(s, p) ==> is_token_tail_char(s[k]),
        token_run_end(s, p) == s.len() || !is_token_tail_char(s[token_run_end(s, p)]),
    decreases s.len() - p,
{
    if p < s.len() && is_token_tail_char(s[p]) {
        lemma_token_run_end(s, p + 1);
    }
}

/// End of the run of horizontal whitespace that starts at `p`.
pub open spec fn hspace_run_end(s: Seq<char>, p: int) -> int
    decreases s.len() - p,
{
    if p < s.len() && 0 <= p && is_hspace_char(s[p]) {
        hspace_run_end(s, p + 1)
    } else {
        p
    }
}

pub proof fn lemma_hspace_run_end(s: Seq<char>, p: int)
    requires
        0 <= p <= s.len(),
    ensures
        p <= hspace_run_end(s, p) <= s.len(),
        forall|k: int| p <= k < hspace_run_end(s, p) ==> is_hspace_char(s[k]),
        hspace_run_end(s, p) == s.len() || !is_hspace_char(s[hspace_run_end(s, p)]),
    decreases s.len() - p,
{
    if p < s.len() && is_hspace_char(s[p]) {
        lemma_hspace_run_end(s, p + 1);
    }
}

/// A line terminator at `p`: a bare line feed, or a carriage return
/// followed by a line feed. Yields the position after it.
pub open spec fn spec_line_ending(s: Seq<char>, p: int) -> Option<int> {
    if 0 <= p < s.len() && s[p] == '\n' {
        Some(p + 1)
    } else if 0 <= p && p + 1 < s.len() && s[p] == '\r' && s[p + 1] == '\n' {
        Some(p + 2)
    } else {
        None
    }
}

/// A blank line at `p`: horizontal whitespace only, then a line
/// terminator.
pub open spec fn spec_empty_line(s: Seq<char>, p: int) -> Option<int> {
    spec_line_ending(s, hspace_run_end(s, p))
}

/// The token grammar: consumes the longest prefix matching
/// `[A-Za-z_:][A-Za-z0-9_:]*` and yields it; fails without consuming
/// anything when the first character is not in the head class.
pub open spec fn spec_token(s: Seq<char>, p: int) -> Option<(Seq<char>, int)> {
    if 0 <= p < s.len() && is_token_head_char(s[p]) {
        let e = token_run_end(s, p + 1);
        Some((s.subrange(p, e), e))
    } else {
        None
    }
}

/// Recognizes one token starting at `pos`. On success the result holds
/// the token's text and the position just past it; the consumed prefix is
/// maximal, so the next character (if any) is outside the tail class.
pub fn token_parser(i: &str, pos: usize) -> (r: Option<(String, usize)>)
    requires
        pos <= i@.len(),
    ensures
        r is Some <==> spec_token(i@, pos as int) is Some,
        r matches Some((tok, end)) ==> {
            &&& spec_token(i@, pos as int) == Some((tok@, end as int))
            &&& pos < end <= i@.len()
            &&& tok@ == i@.subrange(pos as int, end as int)
            &&& is_token_head_char(i@[pos as int])
            &&& forall|k: int| pos < k < end ==> is_token_tail_char(i@[k])
            &&& end == i@.len() || !is_token_tail_char(i@[end as int])
        },
{
    let len = i.unicode_len();
    if pos >= len || !is_simple(i.get_char(pos)) {
        return None;
    }
    let mut j: usize = pos + 1;
    while j < len && is_token_tail(i.get_char(j))
        invariant
            pos + 1 <= j <= len,
            len == i@.len(),
            token_run_end(i@, pos + 1) == token_run_end(i@, j as int),
        decreases len - j,
    {
        j += 1;
    }
    proof {
        lemma_token_run_end(i@, pos + 1);
    }
    let tok = String::from_str(i.substring_char(pos, j));
    Some((tok, j))
}

/// Advances over the run of horizontal whitespace that starts at `pos`
/// and reports where it ends.
pub(crate) fn hspace_end(i: &str, pos: usize) -> (e: usize)
    requires
        pos <= i@.len(),
    ensures
        e == hspace_run_end(i@, pos as int),
        pos <= e <= i@.len(),
{
    let len = i.unicode_len();
    let mut j: usize = pos;
    while j < len && (i.get_char(j) == ' ' || i.get_char(j) == '\t')
        invariant
            pos <= j <= len,
            len == i@.len(),
            hspace_run_end(i@, pos as int) == hspace_run_end(i@, j as int),
        decreases len - j,
    {
        j += 1;
    }
    proof {
        lemma_hspace_run_end(i@, pos as int);
    }
    j
}

/// Recognizes a line terminator at `pos`: `"\n"` or `"\r\n"`.
pub(crate) fn line_ending_parser(i: &str, pos: usize) -> (r: Option<usize>)
    requires
        pos <= i@.len(),
    ensures
        r is Some <==> spec_line_ending(i@, pos as int) is Some,
        r matches Some(e) ==> spec_line_ending(i@, pos as int) == Some(e as int) && pos < e
            <= i@.len(),
{
    let len = i.unicode_len();
    if pos < len && i.get_char(pos) == '\n' {
        Some(pos + 1)
    } else if pos < len && pos + 1 < len && i.get_char(pos) == '\r' && i.get_char(pos + 1) == '\n' {
        Some(pos + 2)
    } else {
        None
    }
}

/// Recognizes a blank line at `pos`: horizontal whitespace only, closed by
/// a line terminator. Yields the position after the terminator.
pub fn empty_line_parser(i: &str, pos: usize) -> (r: Option<usize>)
    requires
        pos <= i@.len(),
    ensures
        r is Some <==> spec_empty_line(i@, pos as int) is Some,
        r matches Some(e) ==> spec_empty_line(i@, pos as int) == Some(e as int) && pos < e
            <= i@.len(),
{
    let ws = hspace_end(i, pos);
    line_ending_parser(i, ws)
}

/// Character-wise equality of two string slices.
pub(crate) fn str_eq(a: &str, b: &str) -> (r: bool)
    ensures
        r == (a@ == b@),
{
    let alen = a.unicode_len();
    let blen = b.unicode_len();
    if alen != blen {
        proof {
            assert(a@ != b@);
        }
        return false;
    }
    let mut k: usize = 0;
    while k < alen
        invariant
            0 <= k <= alen,
            alen == a@.len(),
            alen == b@.len(),
            forall|m: int| 0 <= m < k ==> a@[m] == b@[m],
        decreases alen - k,
    {
        if a.get_char(k) != b.get_char(k) {
            return false;
        }
        k += 1;
    }
    proof {
        assert(a@ =~= b@);
    }
    true
}

/// True when the characters of `w` stand at position `p` of `s`.
pub open spec fn spec_match_lit(s: Seq<char>, p: int, w: Seq<char>) -> bool {
    0 <= p && p + w.len() <= s.len() && s.subrange(p, p + w.len()) == w
}

/// Compares the characters at `pos` with the whole of `w`.
pub(crate) fn match_lit(i: &str, pos: usize, w: &str) -> (r: bool)
    requires
        pos <= i@.len(),
    ensures
        r == spec_match_lit(i@, pos as int, w@),
{
    let len = i.unicode_len();
    let wlen = w.unicode_len();
    if wlen > len - pos {
        proof {
            assert(!spec_match_lit(i@, pos as int, w@));
        }
        return false;
    }
    let mut k: usize = 0;
    while k < wlen
        invariant
            0 <= k <= wlen,
            wlen == w@.len(),
            len == i@.len(),
            pos + wlen <= len,
            forall|m: int| 0 <= m < k ==> i@[pos + m] == w@[m],
        decreases wlen - k,
    {
        if i.get_char(pos + k) != w.get_char(k) {
            proof {
                assert(i@.subrange(pos as int, pos + w@.len())[k as int] != w@[k as int]);
            }
            return false;
        }
        k += 1;
    }
    proof {
        assert(i@.subrange(pos as int, pos + w@.len()) =~= w@);
    }
    true
}

} // verus!
