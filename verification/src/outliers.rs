//! The aggregate of classified measurements and the classification itself.
//!
//! A measurement is a whole number of ticks. It is compared with the fences,
//! which are carried in eighths of a tick, after scaling it by eight, so that
//! every comparison is exact.

use crate::fences::{
    fences, fences_fit, fences_ordered, fences_view, lemma_fences_ordered,
    thresholds_from_quartiles,
};
use crate::json::{decodes_to, document, read_document, write_document};
use crate::quartiles::{lemma_interquartile_range, quartile, quartiles};
use vstd::prelude::*;
use vstd::seq_lib::to_multiset_build;

verus! {

/// The five classes into which measurements fall.
#[derive(Clone, Copy, Debug, PartialEq, Eq, Structural)]
pub enum Label {
    LowSevere,
    LowMild,
    Normal,
    HighMild,
    HighSevere,
}

/// The words by which a report names a class.
pub open spec fn label_text(label: Label) -> Seq<char> {
    match label {
        Label::LowSevere => "low severe"@,
        Label::LowMild => "low mild"@,
        Label::Normal => "normal"@,
        Label::HighMild => "high mild"@,
        Label::HighSevere => "high severe"@,
    }
}

impl Label {
    /// The words by which a report names this class.
    pub fn text(self) -> (s: &'static str)
        ensures
            s@ == label_text(self),
    {
        match self {
            Label::LowSevere => "low severe",
            Label::LowMild => "low mild",
            Label::Normal => "normal",
            Label::HighMild => "high mild",
            Label::HighSevere => "high severe",
        }
    }
}

/// The class of the measurement `v`, in ticks, under the fences `t`, in
/// eighths of a tick.
///
/// The tests are made in this order and the first that holds decides: below
/// the low severe fence, below the low mild fence, above the high severe
/// fence, above the high mild fence. Every comparison is strict, so a
/// measurement that sits on a fence is not beyond it.
pub open spec fn label_of(v: i64, t: (int, int, int, int)) -> Label {
    if 8 * v < t.0 {
        Label::LowSevere
    } else if 8 * v < t.1 {
        Label::LowMild
    } else if 8 * v > t.3 {
        Label::HighSevere
    } else if 8 * v > t.2 {
        Label::HighMild
    } else {
        Label::Normal
    }
}

/// The test "is of class `label` under the fences `t`".
pub open spec fn has_label(t: (int, int, int, int), label: Label) -> spec_fn(i64) -> bool {
    |v: i64| label_of(v, t) == label
}

/// The measurements of `sample` that are of class `label` under the fences
/// `t`, in the order in which `sample` holds them.
pub open spec fn bucket(sample: Seq<i64>, t: (int, int, int, int), label: Label) -> Seq<i64> {
    sample.filter(has_label(t, label))
}

/// What an [`Outliers`] value holds: five buckets of measurements, in ticks,
/// and the four fences, in eighths of a tick.
pub struct OutliersView {
    pub low_severe: Seq<i64>,
    pub low_mild: Seq<i64>,
    pub normal: Seq<i64>,
    pub high_mild: Seq<i64>,
    pub high_severe: Seq<i64>,
    pub thresholds: (int, int, int, int),
}

impl OutliersView {
    /// The bucket of the class `label`.
    pub open spec fn bucket(self, label: Label) -> Seq<i64> {
        match label {
            Label::LowSevere => self.low_severe,
            Label::LowMild => self.low_mild,
            Label::Normal => self.normal,
            Label::HighMild => self.high_mild,
            Label::HighSevere => self.high_severe,
        }
    }

    /// The number of measurements outside the normal bucket.
    pub open spec fn outlier_count(self) -> nat {
        self.low_severe.len() + self.low_mild.len() + self.high_mild.len()
            + self.high_severe.len()
    }

    /// The number of measurements in all five buckets.
    pub open spec fn sample_size(self) -> nat {
        self.outlier_count() + self.normal.len()
    }

    /// Whether every fence fits 128 bits.
    pub open spec fn storable(self) -> bool {
        fences_fit(self.thresholds)
    }

    /// All measurements of the five buckets, without their order.
    pub open spec fn contents(self) -> vstd::multiset::Multiset<i64> {
        self.low_severe.to_multiset().add(self.low_mild.to_multiset()).add(
            self.normal.to_multiset(),
        ).add(self.high_mild.to_multiset()).add(self.high_severe.to_multiset())
    }
}

/// The stable partition of `sample` under the fences `t`.
pub open spec fn partition(sample: Seq<i64>, t: (int, int, int, int)) -> OutliersView {
    OutliersView {
        low_severe: bucket(sample, t, Label::LowSevere),
        low_mild: bucket(sample, t, Label::LowMild),
        normal: bucket(sample, t, Label::Normal),
        high_mild: bucket(sample, t, Label::HighMild),
        high_severe: bucket(sample, t, Label::HighSevere),
        thresholds: t,
    }
}

/// The fences of `sample`: those of its first and third quartile.
pub open spec fn sample_fences(sample: Seq<i64>) -> (int, int, int, int)
    recommends
        sample.len() > 0,
{
    fences(quartile(sample, 1), quartile(sample, 3))
}

/// The classification of `sample`: its stable partition under its own fences.
pub open spec fn classification(sample: Seq<i64>) -> OutliersView
    recommends
        sample.len() > 0,
{
    partition(sample, sample_fences(sample))
}

/// Appending one measurement to a sample appends it to the bucket of its
/// class and leaves the other four buckets as they were.
pub proof fn lemma_partition_push(sample: Seq<i64>, v: i64, t: (int, int, int, int))
    ensures
        forall|label: Label| #[trigger]
            bucket(sample.push(v), t, label) == if label_of(v, t) == label {
                bucket(sample, t, label).push(v)
            } else {
                bucket(sample, t, label)
            },
{
    assert forall|label: Label| #[trigger]
        bucket(sample.push(v), t, label) == if label_of(v, t) == label {
            bucket(sample, t, label).push(v)
        } else {
            bucket(sample, t, label)
        } by {
        sample.lemma_filter_push(v, has_label(t, label));
    }
}

/// The five buckets of a partition hold as many measurements as the sample.
pub proof fn lemma_partition_complete(sample: Seq<i64>, t: (int, int, int, int))
    ensures
        partition(sample, t).sample_size() == sample.len(),
    decreases sample.len(),
{
    if sample.len() == 0 {
        assert forall|label: Label| (#[trigger] bucket(sample, t, label)).len() == 0 by {
            sample.lemma_filter_len(has_label(t, label));
        }
    } else {
        let init = sample.drop_last();
        let v = sample.last();
        assert(sample =~= init.push(v));
        lemma_partition_complete(init, t);
        lemma_partition_push(init, v, t);
    }
}

/// The five buckets of a partition together hold exactly the measurements
/// of the sample, each as often as the sample does: none is lost, none is
/// added and none is in two buckets.
pub proof fn lemma_partition_exact(sample: Seq<i64>, t: (int, int, int, int))
    ensures
        partition(sample, t).contents() == sample.to_multiset(),
    decreases sample.len(),
{
    broadcast use vstd::multiset::group_multiset_axioms;

    if sample.len() == 0 {
        assert forall|label: Label| #[trigger] bucket(sample, t, label) =~= Seq::empty() by {
            sample.lemma_filter_len(has_label(t, label));
        }
        Seq::<i64>::empty().to_multiset_ensures();
        assert(sample =~= Seq::empty());
        assert(partition(sample, t).contents() =~= sample.to_multiset());
    } else {
        let init = sample.drop_last();
        let v = sample.last();
        assert(sample =~= init.push(v));
        lemma_partition_exact(init, t);
        lemma_partition_push(init, v, t);
        to_multiset_build(init, v);
        to_multiset_build(bucket(init, t, label_of(v, t)), v);
        assert(partition(sample, t).contents() =~= partition(init, t).contents().insert(v));
    }
}

/// Within every bucket of a partition the measurements stand in the order
/// in which the sample holds them: each bucket is the sample with the
/// measurements of the other classes struck out.
pub proof fn lemma_partition_stable(sample: Seq<i64>, t: (int, int, int, int), label: Label)
    ensures
        partition(sample, t).bucket(label) == sample.filter(|v: i64| label_of(v, t) == label),
        forall|i: int|
            0 <= i < partition(sample, t).bucket(label).len() ==> label_of(
                #[trigger] partition(sample, t).bucket(label)[i],
                t,
            ) == label,
{
    let b = partition(sample, t).bucket(label);
    assert(b == bucket(sample, t, label));
    assert forall|i: int| 0 <= i < b.len() implies label_of(#[trigger] b[i], t) == label by {
        sample.lemma_filter_pred(has_label(t, label), i);
    }
}

/// A measurement that sits exactly on a fence is not an outlier of that
/// fence's class.
pub proof fn lemma_strict_boundary(v: i64, t: (int, int, int, int))
    ensures
        8 * v == t.0 ==> label_of(v, t) != Label::LowSevere,
        8 * v == t.1 ==> label_of(v, t) != Label::LowMild,
        8 * v == t.2 ==> label_of(v, t) != Label::HighMild,
        8 * v == t.3 ==> label_of(v, t) != Label::HighSevere,
        fences_ordered(t) && (8 * v == t.1 || 8 * v == t.2) ==> label_of(v, t) == Label::Normal,
{
}

/// The fences of a sample never cross.
pub proof fn lemma_sample_fences_ordered(sample: Seq<i64>)
    requires
        sample.len() > 0,
    ensures
        fences_ordered(sample_fences(sample)),
        fences_ordered(classification(sample).thresholds),
{
    lemma_interquartile_range(sample);
    lemma_fences_ordered(quartile(sample, 1), quartile(sample, 3));
}

/// Classification is a function of the sample alone: two aggregates that
/// are each the classification of the same sample agree in every bucket,
/// element by element, and in every fence.
pub proof fn lemma_classification_deterministic(
    sample: Seq<i64>,
    first: OutliersView,
    second: OutliersView,
)
    requires
        first == classification(sample),
        second == classification(sample),
    ensures
        first == second,
{
}

/// Why a sample could not be classified.
#[derive(Clone, Copy, Debug, PartialEq, Eq, Structural)]
pub enum ClassifyError {
    /// The sample holds no measurement, so it has no quartiles.
    EmptySample,
}

/// One line of a report: how many measurements are of one class of outliers.
#[derive(Clone, Copy, Debug, PartialEq, Eq, Structural)]
pub struct ReportLine {
    pub count: usize,
    pub label: Label,
}

/// What there is to report of an aggregate that holds outliers.
#[derive(Debug, PartialEq, Eq)]
pub struct Report {
    /// The number of outliers of all four classes.
    pub total: usize,
    /// The number of measurements, outliers or not.
    pub sample_size: usize,
    /// One line for each class that has outliers.
    pub lines: Vec<ReportLine>,
}

/// The line of a report for `count` outliers of class `label`: none where
/// there is no such outlier.
pub open spec fn report_line(count: nat, label: Label) -> Seq<ReportLine> {
    if count == 0 {
        Seq::empty()
    } else {
        seq![(ReportLine { count: count as usize, label })]
    }
}

/// The lines of the report of `o`: low severe, low mild, high mild, high
/// severe, in this order, without the classes that are empty.
pub open spec fn report_lines(o: OutliersView) -> Seq<ReportLine> {
    report_line(o.low_severe.len(), Label::LowSevere) + report_line(
        o.low_mild.len(),
        Label::LowMild,
    ) + report_line(o.high_mild.len(), Label::HighMild) + report_line(
        o.high_severe.len(),
        Label::HighSevere,
    )
}

/// Measurements sorted into five buckets by the boxplot rule, with the
/// fences that were used. A value is made once and never changes.
#[derive(Debug, PartialEq, Eq)]
pub struct Outliers {
    high_mild: Vec<i64>,
    high_severe: Vec<i64>,
    low_mild: Vec<i64>,
    low_severe: Vec<i64>,
    normal: Vec<i64>,
    thresholds: (i128, i128, i128, i128),
}

impl View for Outliers {
    type V = OutliersView;

    closed spec fn view(&self) -> OutliersView {
        OutliersView {
            low_severe: self.low_severe@,
            low_mild: self.low_mild@,
            normal: self.normal@,
            high_mild: self.high_mild@,
            high_severe: self.high_severe@,
            thresholds: fences_view(self.thresholds),
        }
    }
}

/// Returns the class of the measurement `v` under the fences `t`.
pub fn label(v: i64, t: (i128, i128, i128, i128)) -> (l: Label)
    ensures
        l == label_of(v, fences_view(t)),
{
    let x: i128 = 8 * (v as i128);
    if x < t.0 {
        Label::LowSevere
    } else if x < t.1 {
        Label::LowMild
    } else if x > t.3 {
        Label::HighSevere
    } else if x > t.2 {
        Label::HighMild
    } else {
        Label::Normal
    }
}

impl Outliers {
    /// All five buckets together fit the machine's word for a count.
    #[verifier::type_invariant]
    spec fn countable(&self) -> bool {
        self.low_severe.len() + self.low_mild.len() + self.normal.len() + self.high_mild.len()
            + self.high_severe.len() <= usize::MAX
    }

    /// Sorts `sample` into buckets under the given fences, which are in
    /// eighths of a tick, keeping the order of the sample in every bucket.
    pub fn with_thresholds(sample: &[i64], thresholds: (i128, i128, i128, i128)) -> (o: Outliers)
        ensures
            o@ == partition(sample@, fences_view(thresholds)),
            o@.sample_size() == sample@.len(),
            o@.contents() == sample@.to_multiset(),
    {
        let ghost t = fences_view(thresholds);
        let mut los: Vec<i64> = Vec::new();
        let mut lom: Vec<i64> = Vec::new();
        let mut normal: Vec<i64> = Vec::new();
        let mut him: Vec<i64> = Vec::new();
        let mut his: Vec<i64> = Vec::new();
        let mut i: usize = 0;
        proof {
            assert(sample@.take(0) =~= Seq::empty());
            lemma_partition_complete(sample@.take(0), t);
            assert forall|l: Label| #[trigger] bucket(sample@.take(0), t, l) =~= Seq::empty() by {
                sample@.take(0).lemma_filter_len(has_label(t, l));
            }
        }
        while i < sample.len()
            invariant
                i <= sample.len(),
                t == fences_view(thresholds),
                los@ == bucket(sample@.take(i as int), t, Label::LowSevere),
                lom@ == bucket(sample@.take(i as int), t, Label::LowMild),
                normal@ == bucket(sample@.take(i as int), t, Label::Normal),
                him@ == bucket(sample@.take(i as int), t, Label::HighMild),
                his@ == bucket(sample@.take(i as int), t, Label::HighSevere),
                los.len() + lom.len() + normal.len() + him.len() + his.len() == i,
            decreases sample.len() - i,
        {
            let value = sample[i];
            proof {
                assert(sample@.take(i + 1) =~= sample@.take(i as int).push(value));
                lemma_partition_push(sample@.take(i as int), value, t);
            }
            match label(value, thresholds) {
                Label::LowSevere => los.push(value),
                Label::LowMild => lom.push(value),
                Label::Normal => normal.push(value),
                Label::HighMild => him.push(value),
                Label::HighSevere => his.push(value),
            }
            i += 1;
        }
        proof {
            assert(sample@.take(i as int) =~= sample@);
            lemma_partition_complete(sample@, t);
            lemma_partition_exact(sample@, t);
        }
        Outliers {
            high_mild: him,
            high_severe: his,
            low_mild: lom,
            low_severe: los,
            normal,
            thresholds,
        }
    }

    /// Classifies the measurements of `sample` by the boxplot rule: the
    /// fences are derived from the quartiles of the sample, and every
    /// measurement goes to the bucket of its class, in the order of the
    /// sample. A sample without measurements is refused.
    pub fn classify(sample: &[i64]) -> (r: Result<Outliers, ClassifyError>)
        ensures
            r is Err <==> sample@.len() == 0,
            r matches Err(e) ==> e == ClassifyError::EmptySample,
            r matches Ok(o) ==> {
                &&& o@ == classification(sample@)
                &&& o@.sample_size() == sample@.len()
                &&& o@.contents() == sample@.to_multiset()
                &&& fences_ordered(o@.thresholds)
            },
    {
        match quartiles(sample) {
            None => Err(ClassifyError::EmptySample),
            Some(q) => {
                proof {
                    lemma_interquartile_range(sample@);
                    lemma_sample_fences_ordered(sample@);
                }
                let thresholds = thresholds_from_quartiles(q.0, q.2);
                Ok(Outliers::with_thresholds(sample, thresholds))
            },
        }
    }

    /// The measurements above the high mild fence and not above the high
    /// severe one.
    pub fn high_mild(&self) -> (s: &[i64])
        ensures
            s@ == self@.high_mild,
    {
        self.high_mild.as_slice()
    }

    /// The measurements above the high severe fence.
    pub fn high_severe(&self) -> (s: &[i64])
        ensures
            s@ == self@.high_severe,
    {
        self.high_severe.as_slice()
    }

    /// The measurements below the low mild fence and not below the low
    /// severe one.
    pub fn low_mild(&self) -> (s: &[i64])
        ensures
            s@ == self@.low_mild,
    {
        self.low_mild.as_slice()
    }

    /// The measurements below the low severe fence.
    pub fn low_severe(&self) -> (s: &[i64])
        ensures
            s@ == self@.low_severe,
    {
        self.low_severe.as_slice()
    }

    /// The measurements that are no outliers.
    pub fn normal(&self) -> (s: &[i64])
        ensures
            s@ == self@.normal,
    {
        self.normal.as_slice()
    }

    /// The fences `(low severe, low mild, high mild, high severe)`, in
    /// eighths of a tick.
    pub fn thresholds(&self) -> (t: (i128, i128, i128, i128))
        ensures
            fences_view(t) == self@.thresholds,
    {
        self.thresholds
    }

    /// Writes the aggregate as its JSON document.
    pub fn encode(&self) -> (out: Vec<u8>)
        ensures
            out@ == document(self@),
    {
        write_document(
            self.high_mild.as_slice(),
            self.high_severe.as_slice(),
            self.low_mild.as_slice(),
            self.low_severe.as_slice(),
            self.normal.as_slice(),
            self.thresholds,
        )
    }

    /// Reads an aggregate from its JSON document: the inverse of
    /// [`Outliers::encode`]. Bytes that are the document of no aggregate
    /// are refused.
    pub fn decode(bytes: &[u8]) -> (r: Option<Outliers>)
        ensures
            decodes_to(
                bytes@,
                match r {
                    Some(o) => Some(o@),
                    None => None,
                },
            ),
    {
        match read_document(bytes) {
            None => None,
            Some(p) => Some(
                Outliers {
                    high_mild: p.high_mild,
                    high_severe: p.high_severe,
                    low_mild: p.low_mild,
                    low_severe: p.low_severe,
                    normal: p.normal,
                    thresholds: p.thresholds,
                },
            ),
        }
    }

    /// Says what there is to report: nothing where no measurement is an
    /// outlier; else the number of outliers, the number of measurements and
    /// one line for each class that has outliers.
    pub fn report(&self) -> (r: Option<Report>)
        ensures
            r is None <==> self@.outlier_count() == 0,
            r matches Some(report) ==> {
                &&& report.total == self@.outlier_count()
                &&& report.sample_size == self@.sample_size()
                &&& report.lines@ == report_lines(self@)
            },
    {
        proof {
            use_type_invariant(self);
        }
        let him = self.high_mild.len();
        let his = self.high_severe.len();
        let lom = self.low_mild.len();
        let los = self.low_severe.len();
        let total = him + his + lom + los;
        if total == 0 {
            return None;
        }
        let sample_size = total + self.normal.len();
        let mut lines: Vec<ReportLine> = Vec::new();
        if los != 0 {
            lines.push(ReportLine { count: los, label: Label::LowSevere });
        }
        if lom != 0 {
            lines.push(ReportLine { count: lom, label: Label::LowMild });
        }
        if him != 0 {
            lines.push(ReportLine { count: him, label: Label::HighMild });
        }
        if his != 0 {
            lines.push(ReportLine { count: his, label: Label::HighSevere });
        }
        assert(lines@ =~= report_lines(self@));
        Some(Report { total, sample_size, lines })
    }
}

} // verus!
