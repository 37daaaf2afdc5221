//! Scores read out of aggregate cells, and the metrics derived from them.

use vstd::prelude::*;
use vstd::string::StringExecFns;
use crate::metric::{Kind, Metric, MetricView};
use crate::number::Quantity;

verus! {

/// What a cell had accumulated when it was read.
#[derive(Clone, Copy, Debug, PartialEq, Eq, Structural)]
pub enum AggregateScore {
    /// The score of a marker: how often it was hit.
    Event { hit: u64 },
    /// The score of a counter, gauge or timer: the number of values, their
    /// scaled sum, and the largest and the smallest of them.
    Value { hit: u64, sum: Quantity, max: i64, min: i64 },
}

impl AggregateScore {
    /// The number of observations behind the score.
    pub open spec fn hits(self) -> u64 {
        match self {
            AggregateScore::Event { hit } => hit,
            AggregateScore::Value { hit, .. } => hit,
        }
    }

    /// The number of observations behind the score.
    pub fn hit(&self) -> (r: u64)
        ensures
            r == self.hits(),
    {
        match self {
            AggregateScore::Event { hit } => *hit,
            AggregateScore::Value { hit, .. } => *hit,
        }
    }
}

/// A score together with the metric whose cell it was read from.
#[derive(Debug)]
pub struct ExtractedScore {
    pub metric: Metric,
    pub score: AggregateScore,
}

/// An extracted score as contracts see it.
pub struct ExtractedView {
    pub metric: MetricView,
    pub score: AggregateScore,
}

impl ExtractedView {
    /// The sum of a value score is expressed over the denominator of its
    /// metric's scale, which is positive.
    pub open spec fn wf(self) -> bool {
        &&& self.metric.scale.wf()
        &&& self.score matches AggregateScore::Value { sum, .. } ==> sum.denom
            == self.metric.scale.denom
    }
}

impl View for ExtractedScore {
    type V = ExtractedView;

    open spec fn view(&self) -> ExtractedView {
        ExtractedView { metric: self.metric@, score: self.score }
    }
}

impl ExtractedScore {
    /// Whether the score is well formed.
    pub fn well_formed(&self) -> (r: bool)
        ensures
            r == self@.wf(),
    {
        self.metric.scale.denom > 0 && match self.score {
            AggregateScore::Event { .. } => true,
            AggregateScore::Value { sum, .. } => sum.denom == self.metric.scale.denom as u128,
        }
    }
}

impl Clone for ExtractedScore {
    fn clone(&self) -> (r: Self)
        ensures
            r@ == self@,
    {
        ExtractedScore { metric: self.metric.clone(), score: self.score }
    }
}

/// The scores of one publish cycle, handed out once each, in order.
pub struct ScoreIterator {
    items: Vec<ExtractedScore>,
    next: usize,
}

impl View for ScoreIterator {
    type V = Seq<ExtractedView>;

    /// The scores that have not been handed out yet.
    closed spec fn view(&self) -> Seq<ExtractedView> {
        self.items@.skip(self.next as int).map_values(|es: ExtractedScore| es@)
    }
}

impl ScoreIterator {
    /// Every score is well formed.
    pub closed spec fn inv(&self) -> bool {
        &&& self.next <= self.items.len()
        &&& forall|i: int| 0 <= i < self.items.len() ==> (#[trigger] self.items[i])@.wf()
    }

    /// An iterator over the given scores.
    pub fn new(items: Vec<ExtractedScore>) -> (r: ScoreIterator)
        requires
            forall|i: int| 0 <= i < items.len() ==> (#[trigger] items[i])@.wf(),
        ensures
            r.inv(),
            r@ == items@.map_values(|es: ExtractedScore| es@),
    {
        let r = ScoreIterator { items, next: 0 };
        assert(r.items@.skip(0) =~= r.items@);
        r
    }

    /// The number of scores not handed out yet.
    pub fn remaining(&self) -> (r: usize)
        requires
            self.inv(),
        ensures
            r == self@.len(),
    {
        self.items.len() - self.next
    }

    /// Hands out the next score, if one is left.
    pub fn next(&mut self) -> (r: Option<ExtractedScore>)
        requires
            old(self).inv(),
        ensures
            final(self).inv(),
            old(self)@.len() == 0 ==> r is None && final(self)@ == old(self)@,
            old(self)@.len() > 0 ==> r is Some && r->0@ == old(self)@[0] && r->0@.wf()
                && final(self)@ == old(self)@.skip(1),
    {
        if self.next < self.items.len() {
            let es = self.items[self.next].clone();
            proof {
                assert(self.items@.skip(self.next as int).skip(1) =~= self.items@.skip(
                    self.next as int + 1,
                ));
                assert(self.items[self.next as int]@.wf());
            }
            self.next = self.next + 1;
            Some(es)
        } else {
            None
        }
    }
}

/// A metric that publishing synthesizes from a score, with the value to write
/// to it.
#[derive(Debug)]
pub struct Derived {
    pub kind: Kind,
    pub name: String,
    pub value: Quantity,
}

/// A derived metric as contracts see it.
pub struct DerivedView {
    pub kind: Kind,
    pub name: Seq<char>,
    pub value: Quantity,
}

impl View for Derived {
    type V = DerivedView;

    open spec fn view(&self) -> DerivedView {
        DerivedView { kind: self.kind, name: self.name@, value: self.value }
    }
}

/// The views of a sequence of derived metrics.
pub open spec fn derived_views(items: Seq<Derived>) -> Seq<DerivedView> {
    items.map_values(|d: Derived| d@)
}

/// The hit count of a marker named `name`.
pub open spec fn hit_metric(name: Seq<char>, hit: u64) -> DerivedView {
    DerivedView { kind: Kind::Counter, name: name + ".hit"@, value: Quantity::of(hit as int) }
}

/// The average of a gauge named `name`: its sum over its hit count.
pub open spec fn avg_metric(name: Seq<char>, sum: Quantity, hit: u64) -> DerivedView {
    DerivedView { kind: Kind::Gauge, name: name + ".avg"@, value: sum.over(hit as int) }
}

/// The sum of a counter or timer named `name`, of the same kind.
pub open spec fn sum_metric(kind: Kind, name: Seq<char>, sum: Quantity) -> DerivedView {
    DerivedView { kind, name: name + ".sum"@, value: sum }
}

/// The largest value of the metric named `name`.
pub open spec fn max_metric(name: Seq<char>, max: i64) -> DerivedView {
    DerivedView { kind: Kind::Gauge, name: name + ".max"@, value: Quantity::of(max as int) }
}

/// The smallest value of the metric named `name`.
pub open spec fn min_metric(name: Seq<char>, min: i64) -> DerivedView {
    DerivedView { kind: Kind::Gauge, name: name + ".min"@, value: Quantity::of(min as int) }
}

/// What is published for a score. A marker's hit count is always published.
/// A value score without hits publishes nothing; with hits, a gauge publishes
/// its average, a counter or timer its sum, and each of them its maximum and
/// its minimum after that.
pub open spec fn derived_of(es: ExtractedView) -> Seq<DerivedView> {
    let name = es.metric.name;
    match es.score {
        AggregateScore::Event { hit } => seq![hit_metric(name, hit)],
        AggregateScore::Value { hit, sum, max, min } => {
            if hit == 0 {
                Seq::empty()
            } else {
                let extremes = seq![max_metric(name, max), min_metric(name, min)];
                match es.metric.kind {
                    Kind::Gauge => seq![avg_metric(name, sum, hit)] + extremes,
                    Kind::Counter | Kind::Timer => seq![sum_metric(es.metric.kind, name, sum)]
                        + extremes,
                    Kind::Marker => extremes,
                }
            }
        },
    }
}

/// `name` followed by `suffix`.
fn suffixed(name: &String, suffix: &str) -> (r: String)
    ensures
        r@ == name@ + suffix@,
{
    name.clone().concat(suffix)
}

/// Computes the metrics to publish for one extracted score.
pub fn derive_metrics(es: &ExtractedScore) -> (r: Vec<Derived>)
    requires
        es@.wf(),
    ensures
        derived_views(r@) == derived_of(es@),
{
    let mut out: Vec<Derived> = Vec::new();
    match es.score {
        AggregateScore::Event { hit } => {
            out.push(
                Derived {
                    kind: Kind::Counter,
                    name: suffixed(&es.metric.name, ".hit"),
                    value: Quantity::whole(hit as i128),
                },
            );
        },
        AggregateScore::Value { hit, sum, max, min } => {
            if hit > 0 {
                match es.metric.kind {
                    Kind::Gauge => {
                        assert(sum.denom * hit <= u128::MAX) by (nonlinear_arith)
                            requires
                                sum.denom <= u32::MAX,
                                hit <= u64::MAX,
                        ;
                        let avg = sum.per(hit).unwrap();
                        out.push(
                            Derived {
                                kind: Kind::Gauge,
                                name: suffixed(&es.metric.name, ".avg"),
                                value: avg,
                            },
                        );
                    },
                    Kind::Counter | Kind::Timer => {
                        out.push(
                            Derived {
                                kind: es.metric.kind,
                                name: suffixed(&es.metric.name, ".sum"),
                                value: sum,
                            },
                        );
                    },
                    Kind::Marker => {},
                }
                out.push(
                    Derived {
                        kind: Kind::Gauge,
                        name: suffixed(&es.metric.name, ".max"),
                        value: Quantity::whole(max as i128),
                    },
                );
                out.push(
                    Derived {
                        kind: Kind::Gauge,
                        name: suffixed(&es.metric.name, ".min"),
                        value: Quantity::whole(min as i128),
                    },
                );
            }
        },
    }
    assert(derived_views(out@) =~= derived_of(es@));
    out
}

/// A score without hits publishes nothing unless it is a marker's, whose hit
/// count of zero is still published.
pub proof fn lemma_zero_hits(es: ExtractedView)
    requires
        es.score.hits() == 0,
    ensures
        es.score is Value ==> derived_of(es).len() == 0,
        es.score is Event ==> derived_of(es) == seq![hit_metric(es.metric.name, 0)],
{
}

/// A gauge with hits publishes its average, maximum and minimum, and no sum;
/// a counter or a timer with hits publishes its sum, maximum and minimum.
pub proof fn lemma_value_with_hits(es: ExtractedView)
    requires
        es.score is Value,
        es.score.hits() > 0,
        es.metric.kind != Kind::Marker,
    ensures
        derived_of(es).len() == 3,
        derived_of(es)[1] == max_metric(es.metric.name, es.score->max),
        derived_of(es)[2] == min_metric(es.metric.name, es.score->min),
        es.metric.kind == Kind::Gauge ==> derived_of(es)[0] == avg_metric(
            es.metric.name,
            es.score->sum,
            es.score.hits(),
        ),
        es.metric.kind != Kind::Gauge ==> derived_of(es)[0] == sum_metric(
            es.metric.kind,
            es.metric.name,
            es.score->sum,
        ),
{
}

} // verus!
