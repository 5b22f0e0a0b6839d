//! The data model: metric types, sample values, label sets, samples,
//! metrics, and the parse error.

use vstd::prelude::*;

verus! {

/// The closed enumeration of metric types. `Untyped` is the default when a
/// type declaration omits the keyword or when a metric is first seen
/// through a sample line.
#[derive(Debug, Clone, Copy, PartialEq, Eq, Structural)]
pub enum MetricType {
    Untyped,
    Counter,
    Gauge,
    Histogram,
    Summary,
}

/// A sample's value: one of the three special literals, or a finite value
/// carried as its literal text (which the value grammar has checked to be
/// a well-formed floating-point literal).
#[derive(Debug, Clone, PartialEq)]
pub enum Value {
    Nan,
    PosInf,
    NegInf,
    Finite(String),
}

/// Mathematical model of a `Value`.
pub enum ValueV {
    Nan,
    PosInf,
    NegInf,
    Finite(Seq<char>),
}

impl View for Value {
    type V = ValueV;

    open spec fn view(&self) -> ValueV {
        match self {
            Value::Nan => ValueV::Nan,
            Value::PosInf => ValueV::PosInf,
            Value::NegInf => ValueV::NegInf,
            Value::Finite(s) => ValueV::Finite(s@),
        }
    }
}

impl Value {
    /// True exactly when this value is the not-a-number literal.
    pub fn is_nan(&self) -> (r: bool)
        ensures
            r == (self@ is Nan),
    {
        match self {
            Value::Nan => true,
            _ => false,
        }
    }
}

/// Model of a label set: the name/value pairs in insertion order.
pub type LabelSeq = Seq<(Seq<char>, Seq<char>)>;

/// Well-formedness of a label-set model: the names are distinct.
pub open spec fn labels_wf(l: LabelSeq) -> bool {
    forall|i: int, j: int| 0 <= i < j < l.len() ==> l[i].0 != l[j].0
}

pub open spec fn label_has_key(l: LabelSeq, k: Seq<char>) -> bool {
    exists|i: int| 0 <= i < l.len() && l[i].0 == k
}

pub open spec fn label_key_index(l: LabelSeq, k: Seq<char>) -> int {
    choose|i: int| 0 <= i < l.len() && l[i].0 == k
}

/// The value under name `k`, when the set holds one.
pub open spec fn label_lookup(l: LabelSeq, k: Seq<char>) -> Option<Seq<char>> {
    if label_has_key(l, k) {
        Some(l[label_key_index(l, k)].1)
    } else {
        None
    }
}

/// Adding one pair: a later pair under a name already present replaces
/// that name's value; a new name is appended.
pub open spec fn label_insert(l: LabelSeq, k: Seq<char>, v: Seq<char>) -> LabelSeq {
    if label_has_key(l, k) {
        l.update(label_key_index(l, k), (k, v))
    } else {
        l.push((k, v))
    }
}

/// Folds a raw pair sequence (as the label-set grammar lists it, possibly
/// with repeated names) into a label set, later pairs winning.
pub open spec fn fold_pairs(ps: LabelSeq) -> LabelSeq
    decreases ps.len(),
{
    if ps.len() == 0 {
        Seq::empty()
    } else {
        label_insert(fold_pairs(ps.drop_last()), ps.last().0, ps.last().1)
    }
}

pub proof fn lemma_label_insert_wf(l: LabelSeq, k: Seq<char>, v: Seq<char>)
    requires
        labels_wf(l),
    ensures
        labels_wf(label_insert(l, k, v)),
        label_lookup(label_insert(l, k, v), k) == Some(v),
        forall|k2: Seq<char>| k2 != k ==> label_lookup(label_insert(l, k, v), k2) == label_lookup(
            l,
            k2,
        ),
        label_insert(l, k, v).len() == if label_has_key(l, k) {
            l.len()
        } else {
            l.len() + 1
        },
{
    let r = label_insert(l, k, v);
    if label_has_key(l, k) {
        let i = label_key_index(l, k);
        assert(0 <= i < l.len() && l[i].0 == k);
        assert(forall|j: int| 0 <= j < r.len() ==> r[j].0 == l[j].0);
        assert(labels_wf(r));
        assert(r[i].0 == k && r[i].1 == v);
        assert(label_key_index(r, k) == i);
    } else {
        assert(forall|j: int| 0 <= j < l.len() ==> l[j].0 != k);
        assert(forall|j: int| 0 <= j < l.len() ==> r[j] == l[j]);
        assert(r[l.len() as int].0 == k);
        assert(labels_wf(r));
        assert(label_has_key(r, k));
        assert(label_key_index(r, k) == l.len());
    }
    assert forall|k2: Seq<char>| k2 != k implies label_lookup(r, k2) == label_lookup(l, k2) by {
        if label_has_key(l, k2) {
            let j = label_key_index(l, k2);
            assert(0 <= j < l.len() && l[j].0 == k2);
            assert(r[j].0 == k2 && r[j].1 == l[j].1);
            assert(label_has_key(r, k2));
            let j2 = label_key_index(r, k2);
            assert(0 <= j2 < r.len() && r[j2].0 == k2);
            assert(j2 == j);
        } else {
            if label_has_key(r, k2) {
                let j2 = label_key_index(r, k2);
                assert(0 <= j2 < r.len() && r[j2].0 == k2);
                assert(j2 < l.len() ==> l[j2].0 == k2);
                assert(false);
            }
        }
    }
}

pub proof fn lemma_fold_pairs_wf(ps: LabelSeq)
    ensures
        labels_wf(fold_pairs(ps)),
    decreases ps.len(),
{
    if ps.len() > 0 {
        lemma_fold_pairs_wf(ps.drop_last());
        lemma_label_insert_wf(fold_pairs(ps.drop_last()), ps.last().0, ps.last().1);
    }
}

/// Later pairs win: when position `i` holds the last pair of its name,
/// the folded label set maps that name to that pair's value.
pub proof fn lemma_duplicate_label_last_wins(ps: LabelSeq, i: int)
    requires
        0 <= i < ps.len(),
        forall|j: int| i < j < ps.len() ==> ps[j].0 != ps[i].0,
    ensures
        label_lookup(fold_pairs(ps), ps[i].0) == Some(ps[i].1),
    decreases ps.len(),
{
    lemma_fold_pairs_wf(ps.drop_last());
    if i == ps.len() - 1 {
        lemma_label_insert_wf(fold_pairs(ps.drop_last()), ps.last().0, ps.last().1);
    } else {
        lemma_duplicate_label_last_wins(ps.drop_last(), i);
        assert(ps.drop_last()[i] == ps[i]);
        lemma_label_insert_wf(fold_pairs(ps.drop_last()), ps.last().0, ps.last().1);
    }
}

/// A label set: name/value pairs with distinct names, in insertion order.
#[derive(Debug, Clone, PartialEq)]
pub struct Labels {
    pairs: Vec<(String, String)>,
}

impl View for Labels {
    type V = LabelSeq;

    closed spec fn view(&self) -> LabelSeq {
        self.pairs@.map_values(|p: (String, String)| (p.0@, p.1@))
    }
}

impl Labels {
    /// The empty label set.
    pub fn new() -> (r: Labels)
        ensures
            r@ == Seq::<(Seq<char>, Seq<char>)>::empty(),
            labels_wf(r@),
    {
        let r = Labels { pairs: Vec::new() };
        proof {
            assert(r@ =~= Seq::<(Seq<char>, Seq<char>)>::empty());
        }
        r
    }

    /// Adds one pair, the new value winning over an earlier one under the
    /// same name.
    pub fn insert(&mut self, k: String, v: String)
        requires
            labels_wf(old(self)@),
        ensures
            final(self)@ == label_insert(old(self)@, k@, v@),
            labels_wf(final(self)@),
    {
        let ghost l = self@;
        let ghost kv = k@;
        let ghost vv = v@;
        let mut j: usize = 0;
        while j < self.pairs.len()
            invariant
                0 <= j <= self.pairs.len(),
                self@ == l,
                l == old(self)@,
                labels_wf(l),
                kv == k@,
                vv == v@,
                forall|m: int| 0 <= m < j ==> l[m].0 != k@,
            decreases self.pairs.len() - j,
        {
            if self.pairs[j].0 == k {
                proof {
                    assert(l[j as int].0 == k@);
                    assert(label_has_key(l, k@));
                    let i = label_key_index(l, k@);
                    assert(0 <= i < l.len() && l[i].0 == k@);
                    assert(i == j as int);
                }
                proof {
                    lemma_label_insert_wf(l, k@, v@);
                }
                let _ = self.pairs.remove(j);
                self.pairs.insert(j, (k, v));
                proof {
                    assert(self@ =~= l.update(j as int, (kv, vv)));
                }
                return ;
            }
            j += 1;
        }
        proof {
            assert(!label_has_key(l, k@));
        }
        self.pairs.push((k, v));
        proof {
            assert(self@ =~= l.push((kv, vv)));
            lemma_label_insert_wf(l, kv, vv);
        }
    }

    /// The value under name `k`, when the set holds one.
    pub fn get(&self, k: &str) -> (r: Option<&String>)
        requires
            labels_wf(self@),
        ensures
            match r {
                Some(v) => label_lookup(self@, k@) == Some(v@),
                None => label_lookup(self@, k@) is None,
            },
    {
        let mut j: usize = 0;
        while j < self.pairs.len()
            invariant
                0 <= j <= self.pairs.len(),
                labels_wf(self@),
                forall|m: int| 0 <= m < j ==> self@[m].0 != k@,
            decreases self.pairs.len() - j,
        {
            if crate::common::str_eq(self.pairs[j].0.as_str(), k) {
                proof {
                    assert(self@[j as int].0 == k@);
                    assert(label_has_key(self@, k@));
                    assert(label_key_index(self@, k@) == j as int);
                }
                return Some(&self.pairs[j].1);
            }
            j += 1;
        }
        proof {
            assert(!label_has_key(self@, k@));
        }
        None
    }

    /// How many names the set holds.
    pub fn len(&self) -> (r: usize)
        ensures
            r == self@.len(),
    {
        self.pairs.len()
    }
}

/// Model of an `Option<i64>` timestamp.
pub open spec fn opt_i64_view(t: Option<i64>) -> Option<int> {
    match t {
        Some(x) => Some(x as int),
        None => None,
    }
}

/// One observation: a label set, a value, and an optional timestamp in
/// milliseconds since the epoch (absence means "unspecified").
#[derive(Debug, Clone, PartialEq)]
pub struct Sample {
    pub labels: Labels,
    pub value: Value,
    pub timestamp: Option<i64>,
}

/// Mathematical model of a `Sample`.
pub struct SampleV {
    pub labels: LabelSeq,
    pub value: ValueV,
    pub timestamp: Option<int>,
}

impl View for Sample {
    type V = SampleV;

    open spec fn view(&self) -> SampleV {
        SampleV { labels: self.labels@, value: self.value@, timestamp: opt_i64_view(self.timestamp) }
    }
}

impl Sample {
    /// Builds a sample from a flat list of alternating label names and
    /// values; a later pair under the same name wins.
    pub fn new(value: Value, timestamp: Option<i64>, labels: Vec<&str>) -> (r: Sample)
        requires
            labels@.len() % 2 == 0,
        ensures
            r@.value == value@,
            r@.timestamp == opt_i64_view(timestamp),
            r@.labels == fold_pairs(
                Seq::new((labels@.len() / 2) as nat, |i: int| (labels@[2 * i]@, labels@[2 * i + 1]@)),
            ),
            labels_wf(r@.labels),
    {
        let ghost ps = Seq::new(
            (labels@.len() / 2) as nat,
            |i: int| (labels@[2 * i]@, labels@[2 * i + 1]@),
        );
        let mut ls = Labels::new();
        let mut k: usize = 0;
        proof {
            assert(ps.subrange(0, 0) =~= Seq::<(Seq<char>, Seq<char>)>::empty());
        }
        while k < labels.len() / 2
            invariant
                0 <= k <= labels@.len() / 2,
                labels@.len() % 2 == 0,
                ps == Seq::new(
                    (labels@.len() / 2) as nat,
                    |i: int| (labels@[2 * i]@, labels@[2 * i + 1]@),
                ),
                ls@ == fold_pairs(ps.subrange(0, k as int)),
                labels_wf(ls@),
            decreases labels@.len() / 2 - k,
        {
            let name = String::from_str(labels[2 * k]);
            let val = String::from_str(labels[2 * k + 1]);
            ls.insert(name, val);
            proof {
                assert(ps.subrange(0, k + 1).drop_last() =~= ps.subrange(0, k as int));
                assert(ps.subrange(0, k + 1).last() == ps[k as int]);
            }
            k += 1;
        }
        proof {
            assert(ps.subrange(0, (labels@.len() / 2) as int) =~= ps);
        }
        Sample { labels: ls, value, timestamp }
    }
}

/// The aggregation record for one metric name: its declared type, its
/// samples in first-seen order, and (reserved) its help text.
#[derive(Debug, Clone, PartialEq)]
pub struct Metric {
    pub name: String,
    pub data_type: MetricType,
    pub samples: Vec<Sample>,
    pub help: Option<String>,
}

/// Mathematical model of a `Metric`.
pub struct MetricV {
    pub name: Seq<char>,
    pub data_type: MetricType,
    pub samples: Seq<SampleV>,
    pub help: Option<Seq<char>>,
}

impl View for Metric {
    type V = MetricV;

    open spec fn view(&self) -> MetricV {
        MetricV {
            name: self.name@,
            data_type: self.data_type,
            samples: self.samples@.map_values(|s: Sample| s@),
            help: match &self.help {
                Some(h) => Some(h@),
                None => None,
            },
        }
    }
}

impl Metric {
    /// A fresh record with the given name and type and no samples.
    pub fn new(name: &str, t: MetricType) -> (r: Metric)
        ensures
            r@.name == name@,
            r@.data_type == t,
            r@.samples == Seq::<SampleV>::empty(),
            r@.help is None,
    {
        let r = Metric {
            name: String::from_str(name),
            data_type: t,
            samples: Vec::new(),
            help: None,
        };
        proof {
            assert(r@.samples =~= Seq::<SampleV>::empty());
        }
        r
    }

    /// Appends one sample; samples are never reordered or deduplicated.
    pub fn push_sample(&mut self, s: Sample)
        ensures
            final(self)@.name == old(self)@.name,
            final(self)@.data_type == old(self)@.data_type,
            final(self)@.help == old(self)@.help,
            final(self)@.samples == old(self)@.samples.push(s@),
    {
        self.samples.push(s);
        proof {
            assert(self@.samples =~= old(self)@.samples.push(s@));
        }
    }
}

/// The single error of the parse: the first line that none of the line
/// shapes recognized, reported as the whole unconsumed remainder.
#[derive(Debug)]
pub struct ParseError {
    remainder: String,
}

impl View for ParseError {
    type V = Seq<char>;

    closed spec fn view(&self) -> Seq<char> {
        self.remainder@
    }
}

impl ParseError {
    /// Wraps the unconsumed remainder of the input.
    pub fn new(remainder: String) -> (r: ParseError)
        ensures
            r@ == remainder@,
    {
        ParseError { remainder }
    }

    /// The unconsumed remainder of the input at the point of failure.
    pub fn remainder(&self) -> (r: &String)
        ensures
            r@ == self@,
    {
        &self.remainder
    }
}

} // verus!
