//! The comment grammar: `# TYPE` declarations, `# HELP` declarations, and
//! generic comments, tried in that order.

use vstd::prelude::*;

use crate::common::{
    hspace_end, hspace_run_end, match_lit, spec_match_lit, spec_token, token_parser,
};
use crate::types::MetricType;

verus! {

/// The three comment shapes. A type declaration carries the metric name
/// and the declared type; a help declaration carries the free text; any
/// other comment is discarded.
#[derive(Debug, PartialEq)]
pub enum CommentType {
    Type(String, MetricType),
    Help(String),
    Other,
}

/// Mathematical model of a `CommentType`.
pub enum CommentV {
    Type(Seq<char>, MetricType),
    Help(Seq<char>),
    Other,
}

impl View for CommentType {
    type V = CommentV;

    open spec fn view(&self) -> CommentV {
        match self {
            CommentType::Type(name, t) => CommentV::Type(name@, *t),
            CommentType::Help(text) => CommentV::Help(text@),
            CommentType::Other => CommentV::Other,
        }
    }
}

/// End of the run of characters other than a line feed or a carriage
/// return that starts at `p`: the free text of a comment line.
pub open spec fn line_text_end(s: Seq<char>, p: int) -> int
    decreases s.len() - p,
{
    if p < s.len() && 0 <= p && s[p] != '\n' && s[p] != '\r' {
        line_text_end(s, p + 1)
    } else {
        p
    }
}

pub proof fn lemma_line_text_end(s: Seq<char>, p: int)
    requires
        0 <= p <= s.len(),
    ensures
        p <= line_text_end(s, p) <= s.len(),
        forall|k: int| p <= k < line_text_end(s, p) ==> s[k] != '\n' && s[k] != '\r',
        line_text_end(s, p) == s.len() || s[line_text_end(s, p)] == '\n' || s[line_text_end(s, p)]
            == '\r',
    decreases s.len() - p,
{
    if p < s.len() && s[p] != '\n' && s[p] != '\r' {
        lemma_line_text_end(s, p + 1);
    }
}

pub(crate) fn text_end(i: &str, pos: usize) -> (e: usize)
    requires
        pos <= i@.len(),
    ensures
        e == line_text_end(i@, pos as int),
        pos <= e <= i@.len(),
{
    let len = i.unicode_len();
    let mut j: usize = pos;
    while j < len && i.get_char(j) != '\n' && i.get_char(j) != '\r'
        invariant
            pos <= j <= len,
            len == i@.len(),
            line_text_end(i@, pos as int) == line_text_end(i@, j as int),
        decreases len - j,
    {
        j += 1;
    }
    proof {
        lemma_line_text_end(i@, pos as int);
    }
    j
}

/// One of the five type keywords standing at `p`, matched by priority as
/// a prefix.
pub open spec fn spec_type_keyword(s: Seq<char>, p: int) -> Option<(MetricType, int)> {
    if spec_match_lit(s, p, "counter"@) {
        Some((MetricType::Counter, p + 7))
    } else if spec_match_lit(s, p, "gauge"@) {
        Some((MetricType::Gauge, p + 5))
    } else if spec_match_lit(s, p, "histogram"@) {
        Some((MetricType::Histogram, p + 9))
    } else if spec_match_lit(s, p, "untyped"@) {
        Some((MetricType::Untyped, p + 7))
    } else if spec_match_lit(s, p, "summary"@) {
        Some((MetricType::Summary, p + 7))
    } else {
        None
    }
}

fn type_keyword_parser(i: &str, pos: usize) -> (r: Option<(MetricType, usize)>)
    requires
        pos <= i@.len(),
    ensures
        r is Some <==> spec_type_keyword(i@, pos as int) is Some,
        r matches Some((t, e)) ==> spec_type_keyword(i@, pos as int) == Some((t, e as int)) && pos
            < e <= i@.len(),
{
    let len = i.unicode_len();
    proof {
        reveal_strlit("counter");
        reveal_strlit("gauge");
        reveal_strlit("histogram");
        reveal_strlit("untyped");
        reveal_strlit("summary");
    }
    if match_lit(i, pos, "counter") {
        Some((MetricType::Counter, pos + 7))
    } else if match_lit(i, pos, "gauge") {
        Some((MetricType::Gauge, pos + 5))
    } else if match_lit(i, pos, "histogram") {
        Some((MetricType::Histogram, pos + 9))
    } else if match_lit(i, pos, "untyped") {
        Some((MetricType::Untyped, pos + 7))
    } else if match_lit(i, pos, "summary") {
        Some((MetricType::Summary, pos + 7))
    } else {
        None
    }
}

/// The type-declaration grammar: `#`, whitespace, `TYPE`, whitespace, the
/// metric name, an optional whitespace-led keyword, optional trailing
/// whitespace, and a bare line feed. A trailing word other than the five
/// keywords fails the line.
pub open spec fn spec_type_decl(s: Seq<char>, p: int) -> Option<((Seq<char>, MetricType), int)> {
    if 0 <= p < s.len() && s[p] == '#' {
        let h1 = hspace_run_end(s, p + 1);
        if h1 > p + 1 && spec_match_lit(s, h1, "TYPE"@) {
            let h2 = hspace_run_end(s, h1 + 4);
            if h2 > h1 + 4 {
                match spec_token(s, h2) {
                    Some((name, q)) => {
                        let h3 = hspace_run_end(s, q);
                        if h3 > q && spec_type_keyword(s, h3) is Some {
                            match spec_type_keyword(s, h3) {
                                Some((t, q2)) => {
                                    let h4 = hspace_run_end(s, q2);
                                    if 0 <= h4 < s.len() && s[h4] == '\n' {
                                        Some(((name, t), h4 + 1))
                                    } else {
                                        None
                                    }
                                },
                                None => None,
                            }
                        } else {
                            let h4 = hspace_run_end(s, q);
                            if 0 <= h4 < s.len() && s[h4] == '\n' {
                                Some(((name, MetricType::Untyped), h4 + 1))
                            } else {
                                None
                            }
                        }
                    },
                    None => None,
                }
            } else {
                None
            }
        } else {
            None
        }
    } else {
        None
    }
}

/// Recognizes one type-declaration line at `pos`.
pub fn type_parser(i: &str, pos: usize) -> (r: Option<((String, MetricType), usize)>)
    requires
        pos <= i@.len(),
    ensures
        r is Some <==> spec_type_decl(i@, pos as int) is Some,
        r matches Some((decl, e)) ==> spec_type_decl(i@, pos as int) == Some(
            ((decl.0@, decl.1), e as int),
        ) && pos < e <= i@.len(),
{
    let len = i.unicode_len();
    proof {
        reveal_strlit("TYPE");
    }
    if pos >= len || i.get_char(pos) != '#' {
        return None;
    }
    let h1 = hspace_end(i, pos + 1);
    if h1 == pos + 1 || !match_lit(i, h1, "TYPE") {
        return None;
    }
    let h2 = hspace_end(i, h1 + 4);
    if h2 == h1 + 4 {
        return None;
    }
    let (name, q) = match token_parser(i, h2) {
        None => {
            return None;
        },
        Some(x) => x,
    };
    let h3 = hspace_end(i, q);
    if h3 > q {
        match type_keyword_parser(i, h3) {
            Some((t, q2)) => {
                let h4 = hspace_end(i, q2);
                if h4 < len && i.get_char(h4) == '\n' {
                    return Some(((name, t), h4 + 1));
                } else {
                    return None;
                }
            },
            None => {},
        }
    }
    let h4 = hspace_end(i, q);
    if h4 < len && i.get_char(h4) == '\n' {
        Some(((name, MetricType::Untyped), h4 + 1))
    } else {
        None
    }
}

/// The help-declaration grammar: `#`, whitespace, `HELP`, whitespace, and
/// the free text to the end of the line, closed by a bare line feed.
pub open spec fn spec_help(s: Seq<char>, p: int) -> Option<(Seq<char>, int)> {
    if 0 <= p < s.len() && s[p] == '#' {
        let h1 = hspace_run_end(s, p + 1);
        if h1 > p + 1 && spec_match_lit(s, h1, "HELP"@) {
            let h2 = hspace_run_end(s, h1 + 4);
            if h2 > h1 + 4 {
                let e = line_text_end(s, h2);
                if 0 <= e < s.len() && s[e] == '\n' {
                    Some((s.subrange(h2, e), e + 1))
                } else {
                    None
                }
            } else {
                None
            }
        } else {
            None
        }
    } else {
        None
    }
}

/// Recognizes one help-declaration line at `pos`.
pub fn help_parser(i: &str, pos: usize) -> (r: Option<(String, usize)>)
    requires
        pos <= i@.len(),
    ensures
        r is Some <==> spec_help(i@, pos as int) is Some,
        r matches Some((text, e)) ==> spec_help(i@, pos as int) == Some((text@, e as int)) && pos
            < e <= i@.len(),
{
    let len = i.unicode_len();
    proof {
        reveal_strlit("HELP");
    }
    if pos >= len || i.get_char(pos) != '#' {
        return None;
    }
    let h1 = hspace_end(i, pos + 1);
    if h1 == pos + 1 || !match_lit(i, h1, "HELP") {
        return None;
    }
    let h2 = hspace_end(i, h1 + 4);
    if h2 == h1 + 4 {
        return None;
    }
    let e = text_end(i, h2);
    if e < len && i.get_char(e) == '\n' {
        let text = String::from_str(i.substring_char(h2, e));
        Some((text, e + 1))
    } else {
        None
    }
}

/// The generic-comment grammar: `#`, then any text free of line breaks,
/// closed by a bare line feed; its content is discarded.
pub open spec fn spec_other_comment(s: Seq<char>, p: int) -> Option<int> {
    if 0 <= p < s.len() && s[p] == '#' {
        let e = line_text_end(s, p + 1);
        if 0 <= e < s.len() && s[e] == '\n' {
            Some(e + 1)
        } else {
            None
        }
    } else {
        None
    }
}

/// Recognizes one generic comment line at `pos`.
pub fn other_comment_parser(i: &str, pos: usize) -> (r: Option<usize>)
    requires
        pos <= i@.len(),
    ensures
        r is Some <==> spec_other_comment(i@, pos as int) is Some,
        r matches Some(e) ==> spec_other_comment(i@, pos as int) == Some(e as int) && pos < e
            <= i@.len(),
{
    let len = i.unicode_len();
    if pos >= len || i.get_char(pos) != '#' {
        return None;
    }
    let e = text_end(i, pos + 1);
    if e < len && i.get_char(e) == '\n' {
        Some(e + 1)
    } else {
        None
    }
}

/// The comment grammar: a type declaration, else a help declaration, else
/// a generic comment. The two specific shapes take priority so that a
/// line beginning `# TYPE` or `# HELP` is never classified as generic.
pub open spec fn spec_comment(s: Seq<char>, p: int) -> Option<(CommentV, int)> {
    match spec_type_decl(s, p) {
        Some((decl, e)) => Some((CommentV::Type(decl.0, decl.1), e)),
        None => match spec_help(s, p) {
            Some((text, e)) => Some((CommentV::Help(text), e)),
            None => match spec_other_comment(s, p) {
                Some(e) => Some((CommentV::Other, e)),
                None => None,
            },
        },
    }
}

/// Recognizes one comment line at `pos` and classifies it.
pub fn comment_parser(i: &str, pos: usize) -> (r: Option<(CommentType, usize)>)
    requires
        pos <= i@.len(),
    ensures
        r is Some <==> spec_comment(i@, pos as int) is Some,
        r matches Some((c, e)) ==> spec_comment(i@, pos as int) == Some((c@, e as int)) && pos < e
            <= i@.len(),
{
    match type_parser(i, pos) {
        Some((decl, e)) => {
            let (name, t) = decl;
            return Some((CommentType::Type(name, t), e));
        },
        None => {},
    }
    match help_parser(i, pos) {
        Some((text, e)) => {
            return Some((CommentType::Help(text), e));
        },
        None => {},
    }
    match other_comment_parser(i, pos) {
        Some(e) => Some((CommentType::Other, e)),
        None => None,
    }
}

} // verus!
