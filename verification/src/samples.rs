//! The sample grammar: timestamps, values, quoted label values, label
//! blocks, and whole sample lines.

use vstd::prelude::*;

use crate::common::{
    hspace_end, hspace_run_end, is_digit_char, line_ending_parser, match_lit, spec_line_ending,
    spec_match_lit, spec_token, token_parser,
};
use crate::types::{
    fold_pairs, label_insert, labels_wf, LabelSeq, Labels, Value, ValueV,
};

verus! {

/// End of the run of characters other than a space or a line feed that
/// starts at `p`: the run over which a value or timestamp literal is
/// taken.
pub open spec fn nonspace_run_end(s: Seq<char>, p: int) -> int
    decreases s.len() - p,
{
    if p < s.len() && 0 <= p && s[p] != '\n' && s[p] != ' ' {
        nonspace_run_end(s, p + 1)
    } else {
        p
    }
}

pub proof fn lemma_nonspace_run_end(s: Seq<char>, p: int)
    requires
        0 <= p <= s.len(),
    ensures
        p <= nonspace_run_end(s, p) <= s.len(),
        forall|k: int| p <= k < nonspace_run_end(s, p) ==> s[k] != '\n' && s[k] != ' ',
        nonspace_run_end(s, p) == s.len() || s[nonspace_run_end(s, p)] == '\n'
            || s[nonspace_run_end(s, p)] == ' ',
    decreases s.len() - p,
{
    if p < s.len() && s[p] != '\n' && s[p] != ' ' {
        lemma_nonspace_run_end(s, p + 1);
    }
}

pub(crate) fn nonspace_end(i: &str, pos: usize) -> (e: usize)
    requires
        pos <= i@.len(),
    ensures
        e == nonspace_run_end(i@, pos as int),
        pos <= e <= i@.len(),
{
    let len = i.unicode_len();
    let mut j: usize = pos;
    while j < len && i.get_char(j) != '\n' && i.get_char(j) != ' '
        invariant
            pos <= j <= len,
            len == i@.len(),
            nonspace_run_end(i@, pos as int) == nonspace_run_end(i@, j as int),
        decreases len - j,
    {
        j += 1;
    }
    proof {
        lemma_nonspace_run_end(i@, pos as int);
    }
    j
}

/// The numeric value of a run of decimal digits.
pub open spec fn digits_val(s: Seq<char>) -> int
    decreases s.len(),
{
    if s.len() == 0 {
        0
    } else {
        digits_val(s.drop_last()) * 10 + (s.last() as u32 - '0' as u32)
    }
}

pub open spec fn all_digits(s: Seq<char>) -> bool {
    forall|k: int| 0 <= k < s.len() ==> is_digit_char(s[k])
}

proof fn lemma_digits_val_nonneg(s: Seq<char>)
    requires
        all_digits(s),
    ensures
        digits_val(s) >= 0,
    decreases s.len(),
{
    if s.len() > 0 {
        assert(all_digits(s.drop_last()));
        lemma_digits_val_nonneg(s.drop_last());
    }
}

/// Appending digits never lowers the value.
proof fn lemma_digits_val_extend(s: Seq<char>, k: int)
    requires
        0 <= k <= s.len(),
        digits_val(s.subrange(0, k)) >= 0,
        forall|m: int| k <= m < s.len() ==> is_digit_char(s[m]),
    ensures
        digits_val(s) >= digits_val(s.subrange(0, k)),
    decreases s.len() - k,
{
    if k == s.len() {
        assert(s.subrange(0, k) =~= s);
    } else {
        let t = s.subrange(0, k + 1);
        assert(t.drop_last() =~= s.subrange(0, k));
        assert(t.last() == s[k]);
        assert(is_digit_char(s[k]));
        assert(digits_val(t) == digits_val(s.subrange(0, k)) * 10 + (s[k] as u32 - '0' as u32));
        assert(digits_val(t) >= digits_val(s.subrange(0, k)));
        lemma_digits_val_extend(s, k + 1);
    }
}

/// A signed decimal integer literal in the 64-bit signed range: an
/// optional sign, then one or more digits.
pub open spec fn spec_int_literal(s: Seq<char>) -> Option<int> {
    let neg = s.len() > 0 && s[0] == '-';
    let ds = if s.len() > 0 && (s[0] == '+' || s[0] == '-') {
        s.drop_first()
    } else {
        s
    };
    if ds.len() > 0 && all_digits(ds) {
        let v: int = if neg {
            -digits_val(ds)
        } else {
            digits_val(ds)
        };
        if i64::MIN <= v <= i64::MAX {
            Some(v)
        } else {
            None
        }
    } else {
        None
    }
}

/// The timestamp grammar: the run of non-space, non-line-feed characters
/// starting at `p`, which must be a signed decimal integer in range.
pub open spec fn spec_timestamp(s: Seq<char>, p: int) -> Option<(int, int)> {
    let e = nonspace_run_end(s, p);
    if e > p {
        match spec_int_literal(s.subrange(p, e)) {
            Some(v) => Some((v, e)),
            None => None,
        }
    } else {
        None
    }
}

/// Recognizes a timestamp at `pos`: fails when the run is empty, is not
/// all digits after an optional sign, or does not fit a signed 64-bit
/// integer.
pub fn timestamp_parser(i: &str, pos: usize) -> (r: Option<(i64, usize)>)
    requires
        pos <= i@.len(),
    ensures
        r is Some <==> spec_timestamp(i@, pos as int) is Some,
        r matches Some((v, e)) ==> spec_timestamp(i@, pos as int) == Some((v as int, e as int))
            && pos < e <= i@.len(),
{
    let e = nonspace_end(i, pos);
    if e == pos {
        return None;
    }
    let ghost t = i@.subrange(pos as int, e as int);
    let c0 = i.get_char(pos);
    let neg = c0 == '-';
    let start = if c0 == '-' || c0 == '+' {
        pos + 1
    } else {
        pos
    };
    let ghost ds = i@.subrange(start as int, e as int);
    proof {
        if start > pos {
            assert(ds =~= t.drop_first());
        } else {
            assert(ds =~= t);
        }
    }
    if start == e {
        proof {
            assert(ds.len() == 0);
        }
        return None;
    }
    let bound: u64 = if neg {
        9223372036854775808u64
    } else {
        9223372036854775807u64
    };
    let mut acc: u64 = 0;
    let mut j: usize = start;
    proof {
        assert(i@.subrange(start as int, start as int) =~= Seq::<char>::empty());
    }
    while j < e
        invariant
            start <= j <= e <= i@.len(),
            pos <= start,
            t == i@.subrange(pos as int, e as int),
            ds == i@.subrange(start as int, e as int),
            e == nonspace_run_end(i@, pos as int),
            e > pos,
            start == e ==> false,
            ds.len() > 0,
            start > pos ==> ds == t.drop_first(),
            start == pos ==> ds == t,
            start > pos ==> (i@[pos as int] == '+' || i@[pos as int] == '-'),
            start == pos ==> !(i@[pos as int] == '+' || i@[pos as int] == '-'),
            neg == (i@[pos as int] == '-'),
            bound == if neg {
                9223372036854775808u64
            } else {
                9223372036854775807u64
            },
            forall|m: int| start <= m < j ==> is_digit_char(i@[m]),
            acc == digits_val(i@.subrange(start as int, j as int)),
            acc <= bound,
        decreases e - j,
    {
        let c = i.get_char(j);
        if !('0' <= c && c <= '9') {
            proof {
                assert(ds[j - start] == i@[j as int]);
                assert(!all_digits(ds));
            }
            return None;
        }
        let d: u64 = (c as u32 - 48) as u64;
        let mut overflowed = false;
        let mut newacc: u64 = 0;
        match acc.checked_mul(10) {
            Some(x) => match x.checked_add(d) {
                Some(y) => {
                    newacc = y;
                },
                None => {
                    overflowed = true;
                },
            },
            None => {
                overflowed = true;
            },
        }
        proof {
            assert(i@.subrange(start as int, j + 1).drop_last() =~= i@.subrange(
                start as int,
                j as int,
            ));
            assert(digits_val(i@.subrange(start as int, j + 1)) == acc * 10 + d);
        }
        if overflowed || newacc > bound {
            proof {
                if all_digits(ds) {
                    lemma_digits_val_nonneg(i@.subrange(start as int, j + 1));
                    assert(ds.subrange(0, j + 1 - start) =~= i@.subrange(start as int, j + 1));
                    lemma_digits_val_extend(ds, j + 1 - start);
                    assert(digits_val(ds) > bound);
                }
            }
            return None;
        }
        acc = newacc;
        j += 1;
    }
    proof {
        assert(i@.subrange(start as int, j as int) =~= ds);
        assert(acc == digits_val(ds));
        assert(all_digits(ds));
    }
    let v: i64 = if neg {
        if acc == 9223372036854775808u64 {
            i64::MIN
        } else {
            -(acc as i64)
        }
    } else {
        acc as i64
    };
    Some((v, e))
}

/// End of the run of decimal digits that starts at `p`.
pub open spec fn digits_run_end(s: Seq<char>, p: int) -> int
    decreases s.len() - p,
{
    if p < s.len() && 0 <= p && is_digit_char(s[p]) {
        digits_run_end(s, p + 1)
    } else {
        p
    }
}

proof fn lemma_digits_run_end(s: Seq<char>, p: int)
    requires
        0 <= p <= s.len(),
    ensures
        p <= digits_run_end(s, p) <= s.len(),
    decreases s.len() - p,
{
    if p < s.len() && is_digit_char(s[p]) {
        lemma_digits_run_end(s, p + 1);
    }
}

fn digits_end(t: &str, pos: usize) -> (e: usize)
    requires
        pos <= t@.len(),
    ensures
        e == digits_run_end(t@, pos as int),
        pos <= e <= t@.len(),
{
    let len = t.unicode_len();
    let mut j: usize = pos;
    while j < len && '0' <= t.get_char(j) && t.get_char(j) <= '9'
        invariant
            pos <= j <= len,
            len == t@.len(),
            digits_run_end(t@, pos as int) == digits_run_end(t@, j as int),
        decreases len - j,
    {
        j += 1;
    }
    proof {
        lemma_digits_run_end(t@, pos as int);
    }
    j
}

/// A well-formed exponent part standing at `p` and reaching the end of
/// `t`: nothing at all, or `e`/`E`, an optional sign, and one or more
/// digits.
pub open spec fn float_exp_ok(t: Seq<char>, p: int) -> bool {
    if p == t.len() {
        true
    } else if 0 <= p < t.len() && (t[p] == 'e' || t[p] == 'E') {
        let q = if p + 1 < t.len() && (t[p + 1] == '+' || t[p + 1] == '-') {
            p + 2
        } else {
            p + 1
        };
        let d = digits_run_end(t, q);
        d > q && d == t.len()
    } else {
        false
    }
}

/// A floating-point literal: an optional sign; then either digits with an
/// optional fractional part, or a fractional part alone; then an optional
/// exponent.
pub open spec fn is_float_literal(t: Seq<char>) -> bool {
    let p0: int = if t.len() > 0 && (t[0] == '+' || t[0] == '-') {
        1
    } else {
        0
    };
    let d1 = digits_run_end(t, p0);
    if d1 > p0 {
        let p1 = if d1 < t.len() && t[d1] == '.' {
            digits_run_end(t, d1 + 1)
        } else {
            d1
        };
        float_exp_ok(t, p1)
    } else if p0 < t.len() && t[p0] == '.' {
        let d2 = digits_run_end(t, p0 + 1);
        d2 > p0 + 1 && float_exp_ok(t, d2)
    } else {
        false
    }
}

fn float_exp_check(t: &str, pos: usize) -> (r: bool)
    requires
        pos <= t@.len(),
    ensures
        r == float_exp_ok(t@, pos as int),
{
    let len = t.unicode_len();
    if pos == len {
        return true;
    }
    let c = t.get_char(pos);
    if c != 'e' && c != 'E' {
        return false;
    }
    let q = if pos + 1 < len && (t.get_char(pos + 1) == '+' || t.get_char(pos + 1) == '-') {
        pos + 2
    } else {
        pos + 1
    };
    let d = digits_end(t, q);
    d > q && d == len
}

fn float_literal_check(t: &str) -> (r: bool)
    ensures
        r == is_float_literal(t@),
{
    let len = t.unicode_len();
    let p0 = if len > 0 && (t.get_char(0) == '+' || t.get_char(0) == '-') {
        1
    } else {
        0
    };
    let d1 = digits_end(t, p0);
    if d1 > p0 {
        let p1 = if d1 < len && t.get_char(d1) == '.' {
            digits_end(t, d1 + 1)
        } else {
            d1
        };
        float_exp_check(t, p1)
    } else if p0 < len && t.get_char(p0) == '.' {
        let d2 = digits_end(t, p0 + 1);
        d2 > p0 + 1 && float_exp_check(t, d2)
    } else {
        false
    }
}

/// The value grammar: the literals `NaN`, `+Inf` and `-Inf` take
/// priority; anything else is the run of non-space, non-line-feed
/// characters, which must be a floating-point literal and is kept as its
/// text.
pub open spec fn spec_value(s: Seq<char>, p: int) -> Option<(ValueV, int)> {
    if spec_match_lit(s, p, seq!['N', 'a', 'N']) {
        Some((ValueV::Nan, p + 3))
    } else if spec_match_lit(s, p, seq!['+', 'I', 'n', 'f']) {
        Some((ValueV::PosInf, p + 4))
    } else if spec_match_lit(s, p, seq!['-', 'I', 'n', 'f']) {
        Some((ValueV::NegInf, p + 4))
    } else {
        let e = nonspace_run_end(s, p);
        if e > p && is_float_literal(s.subrange(p, e)) {
            Some((ValueV::Finite(s.subrange(p, e)), e))
        } else {
            None
        }
    }
}

/// Recognizes one value at `pos`.
pub fn value_parser(i: &str, pos: usize) -> (r: Option<(Value, usize)>)
    requires
        pos <= i@.len(),
    ensures
        r is Some <==> spec_value(i@, pos as int) is Some,
        r matches Some((v, e)) ==> spec_value(i@, pos as int) == Some((v@, e as int)) && pos < e
            <= i@.len(),
{
    let len = i.unicode_len();
    proof {
        reveal_strlit("NaN");
        reveal_strlit("+Inf");
        reveal_strlit("-Inf");
        assert("NaN"@ =~= seq!['N', 'a', 'N']);
        assert("+Inf"@ =~= seq!['+', 'I', 'n', 'f']);
        assert("-Inf"@ =~= seq!['-', 'I', 'n', 'f']);
    }
    if pos >= len {
        return None;
    }
    if match_lit(i, pos, "NaN") {
        return Some((Value::Nan, pos + 3));
    }
    if match_lit(i, pos, "+Inf") {
        return Some((Value::PosInf, pos + 4));
    }
    if match_lit(i, pos, "-Inf") {
        return Some((Value::NegInf, pos + 4));
    }
    let e = nonspace_end(i, pos);
    if e == pos {
        return None;
    }
    let lit = i.substring_char(pos, e);
    if float_literal_check(lit) {
        Some((Value::Finite(String::from_str(lit)), e))
    } else {
        None
    }
}

/// The escape class inside a quoted label value: `\n`, `\"`, `\\`.
pub open spec fn esc_ok(c: char) -> bool {
    c == 'n' || c == '"' || c == '\\'
}

/// What an escape sequence stands for.
pub open spec fn esc_char(c: char) -> char {
    if c == 'n' {
        '\n'
    } else {
        c
    }
}

/// Position of the closing quote of a quoted string whose body starts at
/// `p`: the scan passes over escape sequences and ordinary characters and
/// fails on a raw line feed, a lone backslash, an unknown escape, or a
/// missing closing quote.
pub open spec fn body_end(s: Seq<char>, p: int) -> Option<int>
    decreases s.len() - p,
{
    if !(0 <= p < s.len()) {
        None
    } else if s[p] == '"' {
        Some(p)
    } else if s[p] == '\n' {
        None
    } else if s[p] == '\\' {
        if p + 2 <= s.len() && esc_ok(s[p + 1]) {
            body_end(s, p + 2)
        } else {
            None
        }
    } else {
        body_end(s, p + 1)
    }
}

pub proof fn lemma_body_end(s: Seq<char>, p: int)
    requires
        0 <= p,
    ensures
        body_end(s, p) matches Some(q) ==> p <= q < s.len() && s[q] == '"',
    decreases s.len() - p,
{
    if 0 <= p < s.len() {
        if s[p] == '\\' {
            if p + 2 <= s.len() && esc_ok(s[p + 1]) {
                lemma_body_end(s, p + 2);
            }
        } else if s[p] != '"' && s[p] != '\n' {
            lemma_body_end(s, p + 1);
        }
    }
}

/// The unescaped content of the region `[p, q)`.
pub open spec fn unescaped(s: Seq<char>, p: int, q: int) -> Seq<char>
    decreases q - p,
{
    if p < 0 || p >= q {
        Seq::empty()
    } else if s[p] == '\\' && p + 1 < q {
        seq![esc_char(s[p + 1])] + unescaped(s, p + 2, q)
    } else {
        seq![s[p]] + unescaped(s, p + 1, q)
    }
}

/// The quoted-string grammar for a label value: a double quote, a body of
/// ordinary characters and the three escapes, and a closing double quote;
/// yields the unescaped content.
pub open spec fn spec_tag_value(s: Seq<char>, p: int) -> Option<(Seq<char>, int)> {
    if 0 <= p < s.len() && s[p] == '"' {
        match body_end(s, p + 1) {
            Some(q) => Some((unescaped(s, p + 1, q), q + 1)),
            None => None,
        }
    } else {
        None
    }
}

/// Recognizes one quoted label value at `pos` and yields its unescaped
/// content.
pub fn tag_value_parser(i: &str, pos: usize) -> (r: Option<(String, usize)>)
    requires
        pos <= i@.len(),
    ensures
        r is Some <==> spec_tag_value(i@, pos as int) is Some,
        r matches Some((v, e)) ==> spec_tag_value(i@, pos as int) == Some((v@, e as int)) && pos
            < e <= i@.len(),
{
    let len = i.unicode_len();
    if pos >= len || i.get_char(pos) != '"' {
        return None;
    }
    let mut acc = String::new();
    let mut j: usize = pos + 1;
    proof {
        reveal_strlit("\n");
        reveal_strlit("\"");
        reveal_strlit("\\");
    }
    loop
        invariant
            pos + 1 <= j <= len,
            len == i@.len(),
            pos < len && i@[pos as int] == '"',
            body_end(i@, pos + 1) == body_end(i@, j as int),
            forall|q: int|
                body_end(i@, j as int) == Some(q) ==> unescaped(i@, pos + 1, q) == acc@ + unescaped(
                    i@,
                    j as int,
                    q,
                ),
        decreases len - j,
    {
        if j >= len {
            return None;
        }
        let c = i.get_char(j);
        if c == '"' {
            proof {
                assert(body_end(i@, j as int) == Some(j as int));
                assert(unescaped(i@, j as int, j as int) =~= Seq::<char>::empty());
                assert(acc@ + unescaped(i@, j as int, j as int) =~= acc@);
            }
            return Some((acc, j + 1));
        }
        if c == '\n' {
            return None;
        }
        if c == '\\' {
            if j + 1 >= len {
                return None;
            }
            let ghost acc0 = acc@;
            let c2 = i.get_char(j + 1);
            if c2 == 'n' {
                acc.append("\n");
            } else if c2 == '"' {
                acc.append("\"");
            } else if c2 == '\\' {
                acc.append("\\");
            } else {
                return None;
            }
            proof {
                reveal_strlit("\n");
                reveal_strlit("\"");
                reveal_strlit("\\");
                assert(acc@ =~= acc0 + seq![esc_char(i@[j + 1])]);
                assert(body_end(i@, j as int) == body_end(i@, j + 2));
                lemma_body_end(i@, j + 2);
                assert forall|q: int| body_end(i@, j + 2) == Some(q) implies unescaped(
                    i@,
                    pos + 1,
                    q,
                ) == acc@ + unescaped(i@, j + 2, q) by {
                    assert(q >= j + 2);
                    assert(unescaped(i@, j as int, q) == seq![esc_char(i@[j + 1])] + unescaped(
                        i@,
                        j + 2,
                        q,
                    ));
                    assert(unescaped(i@, pos + 1, q) =~= (acc0 + seq![esc_char(i@[j + 1])])
                        + unescaped(i@, j + 2, q));
                }
            }
            j += 2;
        } else {
            let ghost acc0 = acc@;
            let one = i.substring_char(j, j + 1);
            proof {
                assert(one@ =~= seq![i@[j as int]]);
            }
            acc.append(one);
            proof {
                assert(acc@ =~= acc0 + seq![i@[j as int]]);
                assert(body_end(i@, j as int) == body_end(i@, j + 1));
                lemma_body_end(i@, j + 1);
                assert forall|q: int| body_end(i@, j + 1) == Some(q) implies unescaped(
                    i@,
                    pos + 1,
                    q,
                ) == acc@ + unescaped(i@, j + 1, q) by {
                    assert(q >= j + 1);
                    assert(unescaped(i@, j as int, q) == seq![i@[j as int]] + unescaped(
                        i@,
                        j + 1,
                        q,
                    ));
                    assert(unescaped(i@, pos + 1, q) =~= (acc0 + seq![i@[j as int]]) + unescaped(
                        i@,
                        j + 1,
                        q,
                    ));
                }
            }
            j += 1;
        }
    }
}

/// One `name="value"` pair.
pub open spec fn spec_pair(s: Seq<char>, p: int) -> Option<((Seq<char>, Seq<char>), int)> {
    match spec_token(s, p) {
        Some((k, q1)) => {
            if 0 <= q1 < s.len() && s[q1] == '=' {
                match spec_tag_value(s, q1 + 1) {
                    Some((v, q2)) => Some(((k, v), q2)),
                    None => None,
                }
            } else {
                None
            }
        },
        None => None,
    }
}

pub proof fn lemma_spec_pair_bounds(s: Seq<char>, p: int)
    requires
        0 <= p <= s.len(),
    ensures
        spec_pair(s, p) matches Some((pr, q)) ==> p < q <= s.len(),
{
    if spec_pair(s, p) is Some {
        let (k, q1) = spec_token(s, p).unwrap();
        crate::common::lemma_token_run_end(s, p + 1);
        lemma_body_end(s, q1 + 2);
    }
}

/// The pairs that follow the first one: each introduced by a comma. The
/// scan stops before a comma that no well-formed pair follows.
pub open spec fn spec_pairs_rest(s: Seq<char>, p: int) -> (LabelSeq, int)
    decreases s.len() - p,
{
    if 0 <= p < s.len() && s[p] == ',' {
        match spec_pair(s, p + 1) {
            Some((pr, q)) => {
                if p + 1 < q <= s.len() {
                    let rest = spec_pairs_rest(s, q);
                    (seq![pr] + rest.0, rest.1)
                } else {
                    (Seq::empty(), p)
                }
            },
            None => (Seq::empty(), p),
        }
    } else {
        (Seq::empty(), p)
    }
}

/// The possibly empty comma-separated pair list inside a label block.
pub open spec fn spec_pair_list(s: Seq<char>, p: int) -> (LabelSeq, int) {
    match spec_pair(s, p) {
        Some((pr, q)) => {
            if p < q <= s.len() {
                let rest = spec_pairs_rest(s, q);
                (seq![pr] + rest.0, rest.1)
            } else {
        (seq![pr], q)
            }
        },
        None => (Seq::empty(), p),
    }
}

/// The label-block grammar: a block is `{`, a pair list, one tolerated
/// trailing comma, and `}`; its pairs are folded into a label set, later
/// pairs winning. Absence of a well-formed block consumes nothing and
/// yields the empty label set — it is the caller's following grammar
/// that then rejects a malformed block.
pub open spec fn spec_labels(s: Seq<char>, p: int) -> (LabelSeq, int) {
    if 0 <= p < s.len() && s[p] == '{' {
        let lst = spec_pair_list(s, p + 1);
        let q = lst.1;
        let q2 = if 0 <= q < s.len() && s[q] == ',' {
            q + 1
        } else {
            q
        };
        if 0 <= q2 < s.len() && s[q2] == '}' {
            (fold_pairs(lst.0), q2 + 1)
        } else {
            (Seq::empty(), p)
        }
    } else {
        (Seq::empty(), p)
    }
}

/// Recognizes one `name="value"` pair at `pos`.
pub(crate) fn pair_parser(i: &str, pos: usize) -> (r: Option<((String, String), usize)>)
    requires
        pos <= i@.len(),
    ensures
        r is Some <==> spec_pair(i@, pos as int) is Some,
        r matches Some((pr, e)) ==> spec_pair(i@, pos as int) == Some(((pr.0@, pr.1@), e as int))
            && pos < e <= i@.len(),
{
    let len = i.unicode_len();
    match token_parser(i, pos) {
        None => None,
        Some((k, q1)) => {
            if q1 < len && i.get_char(q1) == '=' {
                match tag_value_parser(i, q1 + 1) {
                    Some((v, q2)) => Some(((k, v), q2)),
                    None => None,
                }
            } else {
                None
            }
        },
    }
}

/// Recognizes the optional label block at `pos`. Absence of a
/// well-formed block consumes nothing and yields the empty label set.
pub fn labels_parser(i: &str, pos: usize) -> (r: (Labels, usize))
    requires
        pos <= i@.len(),
    ensures
        spec_labels(i@, pos as int) == (r.0@, r.1 as int),
        pos <= r.1 <= i@.len(),
        labels_wf(r.0@),
{
    let len = i.unicode_len();
    if pos >= len || i.get_char(pos) != '{' {
        let ls = Labels::new();
        return (ls, pos);
    }
    let mut ls = Labels::new();
    let ghost s = i@;
    let ghost mut collected: LabelSeq = Seq::empty();
    let mut q: usize;
    match pair_parser(i, pos + 1) {
        None => {
            q = pos + 1;
        },
        Some((pr, q1)) => {
            let (k, v) = pr;
            let ghost kv = k@;
            let ghost vv = v@;
            ls.insert(k, v);
            proof {
                collected = seq![(kv, vv)];
                assert(seq![(kv, vv)].drop_last() =~= Seq::<(Seq<char>, Seq<char>)>::empty());
                assert(fold_pairs(Seq::<(Seq<char>, Seq<char>)>::empty())
                    =~= Seq::<(Seq<char>, Seq<char>)>::empty());
                assert(fold_pairs(collected) == label_insert(
                    Seq::<(Seq<char>, Seq<char>)>::empty(),
                    kv,
                    vv,
                ));
                assert(ls@ == fold_pairs(collected));
            }
            q = q1;
            loop
                invariant
                    pos < q <= len,
                    len == s.len(),
                    s == i@,
                    pos < s.len() && s[pos as int] == '{',
                    labels_wf(ls@),
                    ls@ == fold_pairs(collected),
                    spec_pair_list(s, pos + 1).0 == collected + spec_pairs_rest(s, q as int).0,
                    spec_pair_list(s, pos + 1).1 == spec_pairs_rest(s, q as int).1,
                ensures
                    pos < q <= len,
                    labels_wf(ls@),
                    ls@ == fold_pairs(collected),
                    spec_pair_list(s, pos + 1).0 == collected,
                    spec_pair_list(s, pos + 1).1 == q as int,
                decreases len - q,
            {
                if q >= len || i.get_char(q) != ',' {
                    proof {
                        assert(spec_pairs_rest(s, q as int).0 =~= Seq::<(Seq<char>,
                            Seq<char>)>::empty());
                        assert(collected + spec_pairs_rest(s, q as int).0 =~= collected);
                    }
                    break ;
                }
                match pair_parser(i, q + 1) {
                    None => {
                        proof {
                            assert(spec_pairs_rest(s, q as int).0 =~= Seq::<(Seq<char>,
                                Seq<char>)>::empty());
                            assert(collected + spec_pairs_rest(s, q as int).0 =~= collected);
                        }
                        break ;
                    },
                    Some((pr2, q2)) => {
                        let (k2, v2) = pr2;
                        let ghost kv2 = k2@;
                        let ghost vv2 = v2@;
                        proof {
                            lemma_spec_pair_bounds(s, q + 1);
                        }
                        ls.insert(k2, v2);
                        proof {
                            let c0 = collected;
                            collected = collected.push((kv2, vv2));
                            assert(collected.drop_last() =~= c0);
                            assert(ls@ == fold_pairs(collected));
                            let rest2 = spec_pairs_rest(s, q2 as int);
                            assert(spec_pairs_rest(s, q as int).0 =~= seq![(kv2, vv2)] + rest2.0);
                            assert(c0 + (seq![(kv2, vv2)] + rest2.0) =~= collected + rest2.0);
                        }
                        q = q2;
                    },
                }
            }
        },
    }
    proof {
        assert(spec_pair_list(s, pos + 1).0 == collected);
        assert(spec_pair_list(s, pos + 1).1 == q as int);
    }
    let q2 = if q < len && i.get_char(q) == ',' {
        q + 1
    } else {
        q
    };
    if q2 < len && i.get_char(q2) == '}' {
        (ls, q2 + 1)
    } else {
        (Labels::new(), pos)
    }
}

/// Builds a label set from name/value pairs, later pairs winning; the
/// counterpart of a label block written out as a list.
pub fn vec_to_hashmap(vec: Vec<(&str, &str)>) -> (r: Labels)
    ensures
        r@ == fold_pairs(Seq::new(vec@.len() as nat, |k: int| (vec@[k].0@, vec@[k].1@))),
        labels_wf(r@),
{
    let ghost ps = Seq::new(vec@.len() as nat, |k: int| (vec@[k].0@, vec@[k].1@));
    let mut ls = Labels::new();
    let mut j: usize = 0;
    proof {
        assert(ps.subrange(0, 0) =~= Seq::<(Seq<char>, Seq<char>)>::empty());
    }
    while j < vec.len()
        invariant
            0 <= j <= vec@.len(),
            ps == Seq::new(vec@.len() as nat, |k: int| (vec@[k].0@, vec@[k].1@)),
            ls@ == fold_pairs(ps.subrange(0, j as int)),
            labels_wf(ls@),
        decreases vec@.len() - j,
    {
        let (k, v) = vec[j];
        ls.insert(String::from_str(k), String::from_str(v));
        proof {
            assert(ps.subrange(0, j + 1).drop_last() =~= ps.subrange(0, j as int));
            assert(ps.subrange(0, j + 1).last() == ps[j as int]);
        }
        j += 1;
    }
    proof {
        assert(ps.subrange(0, vec@.len() as int) =~= ps);
    }
    ls
}

/// One recognized sample line, before aggregation.
#[derive(Debug, PartialEq)]
pub struct SampleEntry {
    pub name: String,
    pub labels: Labels,
    pub value: Value,
    pub timestamp_ms: Option<i64>,
}

/// Mathematical model of a `SampleEntry`.
pub struct SampleEntryV {
    pub name: Seq<char>,
    pub labels: LabelSeq,
    pub value: ValueV,
    pub timestamp: Option<int>,
}

impl View for SampleEntry {
    type V = SampleEntryV;

    open spec fn view(&self) -> SampleEntryV {
        SampleEntryV {
            name: self.name@,
            labels: self.labels@,
            value: self.value@,
            timestamp: crate::types::opt_i64_view(self.timestamp_ms),
        }
    }
}

/// The sample grammar: a token, an optional label block, mandatory
/// horizontal whitespace, a value, an optional whitespace-led timestamp,
/// and a line terminator.
pub open spec fn spec_sample(s: Seq<char>, p: int) -> Option<(SampleEntryV, int)> {
    match spec_token(s, p) {
        None => None,
        Some((name, p1)) => {
            let lb = spec_labels(s, p1);
            let lv = lb.0;
            let p2 = lb.1;
            {
                let h = hspace_run_end(s, p2);
                if h == p2 {
                    None
                } else {
                    match spec_value(s, h) {
                        None => None,
                        Some((v, p3)) => {
                            let h2 = hspace_run_end(s, p3);
                            if h2 > p3 && spec_timestamp(s, h2) is Some {
                                match spec_timestamp(s, h2) {
                                    Some((tv, p4)) => match spec_line_ending(s, p4) {
                                        Some(e) => Some(
                                            (
                                                SampleEntryV {
                                                    name,
                                                    labels: lv,
                                                    value: v,
                                                    timestamp: Some(tv),
                                                },
                                                e,
                                            ),
                                        ),
                                        None => None,
                                    },
                                    None => None,
                                }
                            } else {
                                match spec_line_ending(s, p3) {
                                    Some(e) => Some(
                                        (
                                            SampleEntryV {
                                                name,
                                                labels: lv,
                                                value: v,
                                                timestamp: None,
                                            },
                                            e,
                                        ),
                                    ),
                                    None => None,
                                }
                            }
                        },
                    }
                }
            }
        },
    }
}

/// Recognizes one whole sample line at `pos`.
pub fn parse_sample(i: &str, pos: usize) -> (r: Option<(SampleEntry, usize)>)
    requires
        pos <= i@.len(),
    ensures
        r is Some <==> spec_sample(i@, pos as int) is Some,
        r matches Some((entry, e)) ==> spec_sample(i@, pos as int) == Some((entry@, e as int))
            && pos < e <= i@.len() && labels_wf(entry@.labels),
{
    let (name, p1) = match token_parser(i, pos) {
        None => {
            return None;
        },
        Some(x) => x,
    };
    let (labels, p2) = labels_parser(i, p1);
    let h = hspace_end(i, p2);
    if h == p2 {
        return None;
    }
    let (value, p3) = match value_parser(i, h) {
        None => {
            return None;
        },
        Some(x) => x,
    };
    let h2 = hspace_end(i, p3);
    let mut timestamp_ms: Option<i64> = None;
    let mut after: usize = p3;
    if h2 > p3 {
        match timestamp_parser(i, h2) {
            Some((tv, p4)) => {
                timestamp_ms = Some(tv);
                after = p4;
            },
            None => {},
        }
    }
    match line_ending_parser(i, after) {
        Some(e) => Some((SampleEntry { name, labels, value, timestamp_ms }, e)),
        None => None,
    }
}

} // verus!
