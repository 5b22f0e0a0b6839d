//! Recognizer and aggregator for the Prometheus plaintext exposition
//! format.
//!
//! The grammar layer (`common`, `samples`, `comment`) turns one line of
//! input at a time into a classified line: a comment, a sample, or a
//! blank line. The driver in [`parse_complete`] applies the classifier
//! over the whole buffer, folds the classified lines into one record per
//! metric name — a later type declaration overwrites the earlier one, and
//! samples accumulate in first-seen order — and returns the records
//! ordered by metric name. The first unclassifiable line fails the whole
//! call.

use vstd::prelude::*;

pub mod comment;
pub mod common;
pub mod samples;
pub mod types;

use crate::comment::{comment_parser, spec_comment, CommentType, CommentV};
use crate::common::{empty_line_parser, spec_empty_line, str_eq};
use crate::samples::{parse_sample, spec_sample, SampleEntry, SampleEntryV};
use crate::types::{Metric, MetricType, MetricV, ParseError, Sample, SampleV};

verus! {

/// One classified line.
pub enum LineType {
    Empty,
    Sample(SampleEntry),
    Comment(CommentType),
}

/// Mathematical model of a classified line.
pub enum LineV {
    Empty,
    Sample(SampleEntryV),
    Comment(CommentV),
}

impl View for LineType {
    type V = LineV;

    open spec fn view(&self) -> LineV {
        match self {
            LineType::Empty => LineV::Empty,
            LineType::Sample(e) => LineV::Sample(e@),
            LineType::Comment(c) => LineV::Comment(c@),
        }
    }
}

/// The line classifier: a comment, else a sample, else a blank line, in
/// that priority order.
pub open spec fn spec_parse_line(s: Seq<char>, p: int) -> Option<(LineV, int)> {
    match spec_comment(s, p) {
        Some((c, q)) => Some((LineV::Comment(c), q)),
        None => match spec_sample(s, p) {
            Some((e, q)) => Some((LineV::Sample(e), q)),
            None => match spec_empty_line(s, p) {
                Some(q) => Some((LineV::Empty, q)),
                None => None,
            },
        },
    }
}

/// Classifies one line at `pos`.
pub fn parse_line(i: &str, pos: usize) -> (r: Option<(LineType, usize)>)
    requires
        pos <= i@.len(),
    ensures
        r is Some <==> spec_parse_line(i@, pos as int) is Some,
        r matches Some((l, e)) ==> spec_parse_line(i@, pos as int) == Some((l@, e as int)) && pos
            < e <= i@.len(),
{
    match comment_parser(i, pos) {
        Some((c, e)) => {
            return Some((LineType::Comment(c), e));
        },
        None => {},
    }
    match parse_sample(i, pos) {
        Some((entry, e)) => {
            return Some((LineType::Sample(entry), e));
        },
        None => {},
    }
    match empty_line_parser(i, pos) {
        Some(e) => Some((LineType::Empty, e)),
        None => None,
    }
}

/// The input driver: classifies line after line from `p`. `Ok` carries
/// the classified lines of the whole remaining input; `Err` carries the
/// position of the first line that no shape recognizes.
pub open spec fn spec_driver(s: Seq<char>, p: int) -> Result<Seq<LineV>, int>
    decreases s.len() - p,
{
    if p >= s.len() {
        Ok(Seq::empty())
    } else {
        match spec_parse_line(s, p) {
            None => Err(p),
            Some((l, q)) => {
                if p < q <= s.len() {
                    match spec_driver(s, q) {
                        Ok(rest) => Ok(seq![l] + rest),
                        Err(fp) => Err(fp),
                    }
                } else {
                    Err(p)
                }
            },
        }
    }
}

/// The sample record kept inside a metric: the entry without its name.
pub open spec fn sample_of_entry(e: SampleEntryV) -> SampleV {
    SampleV { labels: e.labels, value: e.value, timestamp: e.timestamp }
}

/// The name-to-record mapping described by a sequence of metric records.
pub open spec fn metrics_map(ms: Seq<MetricV>) -> Map<Seq<char>, MetricV> {
    Map::new(
        |n: Seq<char>| exists|k: int| 0 <= k < ms.len() && ms[k].name == n,
        |n: Seq<char>| ms[choose|k: int| 0 <= k < ms.len() && ms[k].name == n],
    )
}

/// One aggregation step: how one classified line changes the mapping.
/// A type declaration overwrites the type of an existing record or opens
/// a fresh one with no samples; a sample line appends to an existing
/// record or opens a fresh untyped one; help declarations, generic
/// comments and blank lines change nothing.
pub open spec fn spec_step(m: Map<Seq<char>, MetricV>, l: LineV) -> Map<Seq<char>, MetricV> {
    match l {
        LineV::Empty => m,
        LineV::Comment(c) => match c {
            CommentV::Type(name, t) => {
                if m.dom().contains(name) {
                    m.insert(
                        name,
                        MetricV {
                            name: name,
                            data_type: t,
                            samples: m[name].samples,
                            help: m[name].help,
                        },
                    )
                } else {
                    m.insert(
                        name,
                        MetricV { name: name, data_type: t, samples: Seq::empty(), help: None },
                    )
                }
            },
            _ => m,
        },
        LineV::Sample(e) => {
            if m.dom().contains(e.name) {
                m.insert(
                    e.name,
                    MetricV {
                        name: e.name,
                        data_type: m[e.name].data_type,
                        samples: m[e.name].samples.push(sample_of_entry(e)),
                        help: m[e.name].help,
                    },
                )
            } else {
                m.insert(
                    e.name,
                    MetricV {
                        name: e.name,
                        data_type: MetricType::Untyped,
                        samples: seq![sample_of_entry(e)],
                        help: None,
                    },
                )
            }
        },
    }
}

/// The aggregation of a whole line sequence, folded from the left.
pub open spec fn spec_aggregate(ls: Seq<LineV>) -> Map<Seq<char>, MetricV>
    decreases ls.len(),
{
    if ls.len() == 0 {
        Map::empty()
    } else {
        spec_step(spec_aggregate(ls.drop_last()), ls.last())
    }
}

/// Applying the same type declaration twice in sequence yields the same
/// mapping as applying it once.
pub proof fn lemma_type_merge_idempotent(m: Map<Seq<char>, MetricV>, name: Seq<char>, t: MetricType)
    ensures
        spec_step(spec_step(m, LineV::Comment(CommentV::Type(name, t))), LineV::Comment(
            CommentV::Type(name, t),
        )) == spec_step(m, LineV::Comment(CommentV::Type(name, t))),
{
    let once = spec_step(m, LineV::Comment(CommentV::Type(name, t)));
    let twice = spec_step(once, LineV::Comment(CommentV::Type(name, t)));
    assert(twice =~= once);
}

/// Strict lexicographic order on character sequences, by code point.
pub open spec fn lex_lt(a: Seq<char>, b: Seq<char>) -> bool
    decreases a.len(),
{
    if b.len() == 0 {
        false
    } else if a.len() == 0 {
        true
    } else if a[0] != b[0] {
        a[0] < b[0]
    } else {
        lex_lt(a.drop_first(), b.drop_first())
    }
}

pub proof fn lemma_lex_irrefl(a: Seq<char>)
    ensures
        !lex_lt(a, a),
    decreases a.len(),
{
    if a.len() > 0 {
        lemma_lex_irrefl(a.drop_first());
    }
}

/// Any two distinct sequences are ordered one way or the other.
pub proof fn lemma_lex_connected(a: Seq<char>, b: Seq<char>)
    ensures
        lex_lt(a, b) || lex_lt(b, a) || a == b,
    decreases a.len(),
{
    if a.len() == 0 && b.len() == 0 {
        assert(a =~= b);
    } else if a.len() > 0 && b.len() > 0 && a[0] == b[0] {
        lemma_lex_connected(a.drop_first(), b.drop_first());
        if a.drop_first() == b.drop_first() {
            assert forall|i: int| 0 <= i < a.len() implies a[i] == b[i] by {
                if i > 0 {
                    assert(a[i] == a.drop_first()[i - 1]);
                    assert(b[i] == b.drop_first()[i - 1]);
                }
            }
            assert(a =~= b);
        }
    }
}

pub proof fn lemma_lex_trans(a: Seq<char>, b: Seq<char>, c: Seq<char>)
    requires
        lex_lt(a, b),
        lex_lt(b, c),
    ensures
        lex_lt(a, c),
    decreases a.len(),
{
    if a.len() > 0 && b.len() > 0 && c.len() > 0 {
        if a[0] == b[0] && b[0] == c[0] {
            lemma_lex_trans(a.drop_first(), b.drop_first(), c.drop_first());
        }
    }
}

/// Compares two strings in the lexicographic order.
fn lex_lt_str(a: &str, b: &str) -> (r: bool)
    ensures
        r == lex_lt(a@, b@),
{
    let alen = a.unicode_len();
    let blen = b.unicode_len();
    let mut k: usize = 0;
    proof {
        assert(a@.skip(0) =~= a@);
        assert(b@.skip(0) =~= b@);
    }
    loop
        invariant
            0 <= k,
            k <= alen,
            k <= blen,
            alen == a@.len(),
            blen == b@.len(),
            lex_lt(a@, b@) == lex_lt(a@.skip(k as int), b@.skip(k as int)),
        decreases alen + blen - 2 * k,
    {
        if k >= blen {
            proof {
                assert(b@.skip(k as int).len() == 0);
            }
            return false;
        }
        if k >= alen {
            proof {
                assert(a@.skip(k as int).len() == 0 && b@.skip(k as int).len() > 0);
            }
            return true;
        }
        let ca = a.get_char(k);
        let cb = b.get_char(k);
        proof {
            assert(a@.skip(k as int)[0] == a@[k as int]);
            assert(b@.skip(k as int)[0] == b@[k as int]);
        }
        if ca != cb {
            return ca < cb;
        }
        proof {
            assert(a@.skip(k as int).drop_first() =~= a@.skip(k + 1));
            assert(b@.skip(k as int).drop_first() =~= b@.skip(k + 1));
        }
        k += 1;
    }
}

/// The record views of a sequence of metric records.
pub open spec fn metric_views(v: Seq<Metric>) -> Seq<MetricV> {
    v.map_values(|m: Metric| m@)
}

/// Strictly ascending by name; strictness makes the names unique.
pub open spec fn metrics_sorted(ms: Seq<MetricV>) -> bool {
    forall|i: int, j: int| 0 <= i < j < ms.len() ==> lex_lt(ms[i].name, ms[j].name)
}

proof fn lemma_sorted_unique(ms: Seq<MetricV>)
    requires
        metrics_sorted(ms),
    ensures
        forall|i: int, j: int| 0 <= i < j < ms.len() ==> ms[i].name != ms[j].name,
{
    assert forall|i: int, j: int| 0 <= i < j < ms.len() implies ms[i].name != ms[j].name by {
        lemma_lex_irrefl(ms[i].name);
    }
}

/// Inserting a record of a fresh name at its ordered position keeps the
/// sequence sorted.
proof fn lemma_sorted_insert(vs: Seq<MetricV>, pos: int, mv: MetricV)
    requires
        metrics_sorted(vs),
        0 <= pos <= vs.len(),
        forall|k: int| 0 <= k < pos ==> lex_lt(vs[k].name, mv.name),
        pos < vs.len() ==> !lex_lt(vs[pos].name, mv.name),
        forall|k: int| 0 <= k < vs.len() ==> vs[k].name != mv.name,
    ensures
        metrics_sorted(vs.insert(pos, mv)),
{
    let u = vs.insert(pos, mv);
    if pos < vs.len() {
        lemma_lex_connected(vs[pos].name, mv.name);
        assert(lex_lt(mv.name, vs[pos].name));
        assert forall|j: int| pos < j < vs.len() implies lex_lt(mv.name, vs[j].name) by {
            lemma_lex_trans(mv.name, vs[pos].name, vs[j].name);
        }
    }
    assert forall|a: int, b: int| 0 <= a < b < u.len() implies lex_lt(u[a].name, u[b].name) by {
        if b < pos {
            assert(u[a] == vs[a] && u[b] == vs[b]);
        } else if a < pos && b == pos {
            assert(u[a] == vs[a] && u[b] == mv);
        } else if a < pos && b > pos {
            assert(u[a] == vs[a] && u[b] == vs[b - 1]);
        } else if a == pos {
            assert(u[a] == mv && u[b] == vs[b - 1]);
        } else {
            assert(u[a] == vs[a - 1] && u[b] == vs[b - 1]);
        }
    }
}

/// Replacing the record at `j` by one of the same name updates the
/// mapping at that name.
proof fn lemma_metrics_map_update(ms: Seq<MetricV>, j: int, mv: MetricV)
    requires
        forall|a: int, b: int| 0 <= a < b < ms.len() ==> ms[a].name != ms[b].name,
        0 <= j < ms.len(),
        mv.name == ms[j].name,
    ensures
        metrics_map(ms.update(j, mv)) == metrics_map(ms).insert(mv.name, mv),
{
    let u = ms.update(j, mv);
    let m1 = metrics_map(u);
    let m2 = metrics_map(ms).insert(mv.name, mv);
    assert(forall|k: int| 0 <= k < u.len() ==> u[k].name == ms[k].name);
    assert forall|n: Seq<char>| m1.dom().contains(n) <==> m2.dom().contains(n) by {
        if exists|k: int| 0 <= k < u.len() && u[k].name == n {
            let k = choose|k: int| 0 <= k < u.len() && u[k].name == n;
            assert(ms[k].name == n);
        }
        if n == mv.name {
            assert(u[j].name == n);
        } else if metrics_map(ms).dom().contains(n) {
            let k = choose|k: int| 0 <= k < ms.len() && ms[k].name == n;
            assert(u[k].name == n);
        }
    }
    assert forall|n: Seq<char>| m1.dom().contains(n) implies m1[n] == m2[n] by {
        let k1 = choose|k: int| 0 <= k < u.len() && u[k].name == n;
        if n == mv.name {
            assert(u[j].name == n);
            assert(k1 == j);
            assert(m1[n] == mv);
        } else {
            let k2 = choose|k: int| 0 <= k < ms.len() && ms[k].name == n;
            assert(u[k2].name == n);
            assert(k1 == k2);
            assert(k1 != j);
            assert(m1[n] == ms[k1]);
        }
    }
    assert(m1 =~= m2);
}

/// Inserting a record under a fresh name extends the mapping at that
/// name.
proof fn lemma_metrics_map_insert(ms: Seq<MetricV>, pos: int, mv: MetricV)
    requires
        forall|a: int, b: int| 0 <= a < b < ms.len() ==> ms[a].name != ms[b].name,
        0 <= pos <= ms.len(),
        forall|k: int| 0 <= k < ms.len() ==> ms[k].name != mv.name,
    ensures
        metrics_map(ms.insert(pos, mv)) == metrics_map(ms).insert(mv.name, mv),
{
    let u = ms.insert(pos, mv);
    let m1 = metrics_map(u);
    let m2 = metrics_map(ms).insert(mv.name, mv);
    assert(u.len() == ms.len() + 1);
    assert(forall|k: int| 0 <= k < pos ==> u[k] == ms[k]);
    assert(u[pos] == mv);
    assert(forall|k: int| pos < k < u.len() ==> u[k] == ms[k - 1]);
    assert forall|n: Seq<char>| m1.dom().contains(n) <==> m2.dom().contains(n) by {
        if exists|k: int| 0 <= k < u.len() && u[k].name == n {
            let k = choose|k: int| 0 <= k < u.len() && u[k].name == n;
            if k < pos {
                assert(ms[k].name == n);
            } else if k > pos {
                assert(ms[k - 1].name == n);
            }
        }
        if n == mv.name {
            assert(u[pos].name == n);
        } else if metrics_map(ms).dom().contains(n) {
            let k = choose|k: int| 0 <= k < ms.len() && ms[k].name == n;
            if k < pos {
                assert(u[k].name == n);
            } else {
                assert(u[k + 1].name == n);
            }
        }
    }
    assert forall|n: Seq<char>| m1.dom().contains(n) implies m1[n] == m2[n] by {
        let k1 = choose|k: int| 0 <= k < u.len() && u[k].name == n;
        if n == mv.name {
            assert forall|k: int| 0 <= k < u.len() && k != pos implies u[k].name != n by {
                if k < pos {
                    assert(u[k] == ms[k]);
                } else {
                    assert(u[k] == ms[k - 1]);
                }
            }
            assert(k1 == pos);
            assert(m1[n] == mv);
        } else {
            assert(u[k1].name == n);
            assert(k1 != pos);
            let k2 = choose|k: int| 0 <= k < ms.len() && ms[k].name == n;
            if k1 < pos {
                assert(ms[k1].name == n);
                assert(k2 == k1);
            } else {
                assert(ms[k1 - 1].name == n);
                assert(k2 == k1 - 1);
            }
            assert(m1[n] == ms[k2]);
        }
    }
    assert(m1 =~= m2);
}

impl SampleEntry {
    /// The sample record this entry carries, without its name.
    pub fn into_sample(self) -> (r: Sample)
        ensures
            r@ == sample_of_entry(self@),
    {
        Sample { labels: self.labels, value: self.value, timestamp: self.timestamp_ms }
    }

    /// A fresh untyped metric holding this entry as its only sample.
    pub fn into_metric(self) -> (r: Metric)
        ensures
            r@.name == self@.name,
            r@.data_type == MetricType::Untyped,
            r@.samples == seq![sample_of_entry(self@)],
            r@.help is None,
    {
        let name = self.name.clone();
        let mut m = Metric::new(name.as_str(), MetricType::Untyped);
        let ghost sv = sample_of_entry(self@);
        m.push_sample(self.into_sample());
        proof {
            assert(m@.samples =~= seq![sv]);
        }
        m
    }
}

impl Metric {
    /// Appends the entry's sample to this record; the entry must carry
    /// this record's name.
    pub fn append_sample_entry(&mut self, s: SampleEntry)
        requires
            s@.name == old(self)@.name,
        ensures
            final(self)@.name == old(self)@.name,
            final(self)@.data_type == old(self)@.data_type,
            final(self)@.help == old(self)@.help,
            final(self)@.samples == old(self)@.samples.push(sample_of_entry(s@)),
    {
        self.push_sample(s.into_sample());
    }

    /// Overwrites this record's type; the declaration must carry this
    /// record's name. Existing samples are untouched.
    pub fn append_type_def(&mut self, s: &str, t: MetricType)
        requires
            s@ == old(self)@.name,
        ensures
            final(self)@.name == old(self)@.name,
            final(self)@.data_type == t,
            final(self)@.help == old(self)@.help,
            final(self)@.samples == old(self)@.samples,
    {
        self.data_type = t;
    }
}

/// Index of the record with the given name, if one is held.
fn find_metric(acc: &Vec<Metric>, name: &str) -> (r: Option<usize>)
    ensures
        r matches Some(j) ==> j < acc@.len() && acc@[j as int]@.name == name@,
        r is None ==> forall|k: int| 0 <= k < acc@.len() ==> acc@[k]@.name != name@,
{
    let mut j: usize = 0;
    while j < acc.len()
        invariant
            0 <= j <= acc@.len(),
            forall|k: int| 0 <= k < j ==> acc@[k]@.name != name@,
        decreases acc@.len() - j,
    {
        if str_eq(acc[j].name.as_str(), name) {
            return Some(j);
        }
        j += 1;
    }
    None
}

/// The position where a record of the given fresh name keeps the
/// sequence sorted.
fn insert_pos(acc: &Vec<Metric>, name: &str) -> (r: usize)
    requires
        metrics_sorted(metric_views(acc@)),
    ensures
        r <= acc@.len(),
        forall|k: int| 0 <= k < r ==> lex_lt(acc@[k]@.name, name@),
        r < acc@.len() ==> !lex_lt(acc@[r as int]@.name, name@),
{
    let mut j: usize = 0;
    while j < acc.len() && lex_lt_str(acc[j].name.as_str(), name)
        invariant
            0 <= j <= acc@.len(),
            forall|k: int| 0 <= k < j ==> lex_lt(acc@[k]@.name, name@),
        decreases acc@.len() - j,
    {
        j += 1;
    }
    j
}

/// Folds one type declaration into the accumulator; other comment shapes
/// change nothing.
fn add_comment(acc: &mut Vec<Metric>, c: CommentType)
    requires
        metrics_sorted(metric_views(old(acc)@)),
    ensures
        metrics_sorted(metric_views(final(acc)@)),
        metrics_map(metric_views(final(acc)@)) == spec_step(
            metrics_map(metric_views(old(acc)@)),
            LineV::Comment(c@),
        ),
{
    let ghost vs0 = metric_views(old(acc)@);
    proof {
        lemma_sorted_unique(vs0);
    }
    match c {
        CommentType::Type(name, t) => {
            let ghost nv = name@;
            match find_metric(acc, name.as_str()) {
                Some(j) => {
                    proof {
                        assert(vs0[j as int].name == nv);
                        assert(metrics_map(vs0).dom().contains(nv));
                        let k = choose|k: int| 0 <= k < vs0.len() && vs0[k].name == nv;
                        assert(k == j as int);
                        assert(metrics_map(vs0)[nv] == vs0[j as int]);
                    }
                    let mut m = acc.remove(j);
                    m.append_type_def(name.as_str(), t);
                    let ghost mv = m@;
                    acc.insert(j, m);
                    proof {
                        assert(metric_views(acc@) =~= vs0.update(j as int, mv));
                        lemma_metrics_map_update(vs0, j as int, mv);
                        assert(metrics_sorted(metric_views(acc@)));
                    }
                },
                None => {
                    let pos = insert_pos(acc, name.as_str());
                    let m = Metric::new(name.as_str(), t);
                    let ghost mv = m@;
                    acc.insert(pos, m);
                    proof {
                        assert(metric_views(acc@) =~= vs0.insert(pos as int, mv));
                        lemma_metrics_map_insert(vs0, pos as int, mv);
                        lemma_sorted_insert(vs0, pos as int, mv);
                    }
                },
            }
        },
        _ => {
            proof {
                assert(metrics_map(metric_views(acc@)) =~= spec_step(
                    metrics_map(vs0),
                    LineV::Comment(c@),
                ));
            }
        },
    }
}

/// Folds one sample line into the accumulator.
fn add_sample(acc: &mut Vec<Metric>, s: SampleEntry)
    requires
        metrics_sorted(metric_views(old(acc)@)),
    ensures
        metrics_sorted(metric_views(final(acc)@)),
        metrics_map(metric_views(final(acc)@)) == spec_step(
            metrics_map(metric_views(old(acc)@)),
            LineV::Sample(s@),
        ),
{
    let ghost vs0 = metric_views(old(acc)@);
    let ghost sv = s@;
    proof {
        lemma_sorted_unique(vs0);
    }
    let ghost nv = s@.name;
    match find_metric(acc, s.name.as_str()) {
        Some(j) => {
            proof {
                assert(vs0[j as int].name == nv);
                assert(metrics_map(vs0).dom().contains(nv));
                let k = choose|k: int| 0 <= k < vs0.len() && vs0[k].name == nv;
                assert(k == j as int);
                assert(metrics_map(vs0)[nv] == vs0[j as int]);
            }
            let mut m = acc.remove(j);
            m.append_sample_entry(s);
            let ghost mv = m@;
            acc.insert(j, m);
            proof {
                assert(metric_views(acc@) =~= vs0.update(j as int, mv));
                lemma_metrics_map_update(vs0, j as int, mv);
                assert(metrics_sorted(metric_views(acc@)));
            }
        },
        None => {
            let pos = insert_pos(acc, s.name.as_str());
            let m = s.into_metric();
            let ghost mv = m@;
            acc.insert(pos, m);
            proof {
                assert(metric_views(acc@) =~= vs0.insert(pos as int, mv));
                lemma_metrics_map_insert(vs0, pos as int, mv);
                lemma_sorted_insert(vs0, pos as int, mv);
            }
        },
    }
}

/// Parses the whole exposition-format text and returns the metric
/// records ordered by name, or the first failure with the unconsumed
/// remainder of the input.
pub fn parse_complete(input: &str) -> (r: Result<Vec<Metric>, ParseError>)
    ensures
        r is Ok <==> spec_driver(input@, 0) is Ok,
        r matches Ok(v) ==> metrics_sorted(metric_views(v@)),
        r matches Ok(v) ==> (spec_driver(input@, 0) matches Ok(lines) ==> metrics_map(
            metric_views(v@),
        ) == spec_aggregate(lines)),
        r matches Err(e) ==> (spec_driver(input@, 0) matches Err(fp) && e@ == input@.subrange(
            fp,
            input@.len() as int,
        )),
{
    let len = input.unicode_len();
    let mut pos: usize = 0;
    let mut acc: Vec<Metric> = Vec::new();
    let ghost mut lines: Seq<LineV> = Seq::empty();
    proof {
        assert(metric_views(acc@) =~= Seq::<MetricV>::empty());
        assert(metrics_map(metric_views(acc@)) =~= Map::<Seq<char>, MetricV>::empty());
    }
    while pos < len
        invariant
            0 <= pos <= len,
            len == input@.len(),
            metrics_sorted(metric_views(acc@)),
            metrics_map(metric_views(acc@)) == spec_aggregate(lines),
            spec_driver(input@, pos as int) matches Ok(rest) ==> spec_driver(input@, 0)
                == Ok::<Seq<LineV>, int>(lines + rest),
            spec_driver(input@, pos as int) matches Err(fp) ==> spec_driver(input@, 0)
                == Err::<Seq<LineV>, int>(fp),
        decreases len - pos,
    {
        match parse_line(input, pos) {
            None => {
                proof {
                    assert(spec_driver(input@, pos as int) == Err::<Seq<LineV>, int>(pos as int));
                }
                let remainder = String::from_str(input.substring_char(pos, len));
                return Err(ParseError::new(remainder));
            },
            Some((l, q)) => {
                let ghost lv = l@;
                proof {
                    assert(spec_parse_line(input@, pos as int) == Some((lv, q as int)));
                    assert(spec_driver(input@, pos as int) == (match spec_driver(input@, q as int) {
                        Ok(rest) => Ok::<Seq<LineV>, int>(seq![lv] + rest),
                        Err(fp) => Err::<Seq<LineV>, int>(fp),
                    }));
                }
                match l {
                    LineType::Comment(c) => add_comment(&mut acc, c),
                    LineType::Sample(s) => add_sample(&mut acc, s),
                    LineType::Empty => {
                        proof {
                            assert(spec_step(spec_aggregate(lines), LineV::Empty)
                                == spec_aggregate(lines));
                        }
                    },
                }
                proof {
                    let lines0 = lines;
                    lines = lines.push(lv);
                    assert(lines.drop_last() =~= lines0);
                    assert(lines.last() == lv);
                    assert(spec_aggregate(lines) == spec_step(spec_aggregate(lines0), lv));
                    assert forall|rest: Seq<LineV>|
                        spec_driver(input@, q as int) == Ok::<Seq<LineV>, int>(rest) implies
                        spec_driver(input@, 0) == Ok::<Seq<LineV>, int>(lines + rest) by {
                        assert(lines0 + (seq![lv] + rest) =~= lines + rest);
                    }
                }
                pos = q;
            },
        }
    }
    proof {
        assert(spec_driver(input@, pos as int) == Ok::<Seq<LineV>, int>(Seq::empty()));
        assert(lines + Seq::<LineV>::empty() =~= lines);
        assert(spec_driver(input@, 0) == Ok::<Seq<LineV>, int>(lines));
    }
    Ok(acc)
}

} // verus!
