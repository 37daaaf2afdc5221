//! Aggregate cells: one accumulator per metric.

use vstd::prelude::*;
use crate::metric::{Kind, Metric, MetricView};
use crate::number::{clamp, Quantity};
use crate::score::{AggregateScore, ExtractedScore, ExtractedView};

verus! {

/// What a cell has accumulated: the number of observations, the total of
/// their unscaled values, and the largest and smallest of them.
pub struct Tally {
    pub hit: nat,
    pub total: int,
    pub max: int,
    pub min: int,
}

impl Tally {
    /// The tally of no observations: the identity of each field's update.
    pub open spec fn empty() -> Tally {
        Tally { hit: 0, total: 0, max: i64::MIN as int, min: i64::MAX as int }
    }

    /// The tally after one more value.
    pub open spec fn observe(self, value: int) -> Tally {
        Tally {
            hit: self.hit + 1,
            total: self.total + value,
            max: if value > self.max {
                value
            } else {
                self.max
            },
            min: if value < self.min {
                value
            } else {
                self.min
            },
        }
    }

    /// The tally after one more event, which has no value.
    pub open spec fn mark(self) -> Tally {
        Tally { hit: self.hit + 1, ..self }
    }
}

/// The sum of `values`.
pub open spec fn sum_of(values: Seq<i64>) -> int
    decreases values.len(),
{
    if values.len() == 0 {
        0
    } else {
        sum_of(values.drop_last()) + values.last()
    }
}

/// The largest of `values`, or the least `i64` where there is none.
pub open spec fn largest(values: Seq<i64>) -> int
    decreases values.len(),
{
    if values.len() == 0 {
        i64::MIN as int
    } else if values.last() > largest(values.drop_last()) {
        values.last() as int
    } else {
        largest(values.drop_last())
    }
}

/// The smallest of `values`, or the greatest `i64` where there is none.
pub open spec fn smallest(values: Seq<i64>) -> int
    decreases values.len(),
{
    if values.len() == 0 {
        i64::MAX as int
    } else if values.last() < smallest(values.drop_last()) {
        values.last() as int
    } else {
        smallest(values.drop_last())
    }
}

/// A cell as contracts see it: its metric and its tally.
pub struct CellView {
    pub metric: MetricView,
    pub tally: Tally,
}

impl CellView {
    /// The cell of `metric` before anything is recorded.
    pub open spec fn fresh(metric: MetricView) -> CellView {
        CellView { metric, tally: Tally::empty() }
    }

    /// What holds of every cell: the hit count fits a `u64`; a cell without
    /// hits, and a marker's cell always, holds the empty sum, maximum and
    /// minimum; a cell with hits has its minimum no greater than its maximum,
    /// and its total between the hit count times each.
    pub open spec fn wf(self) -> bool {
        let t = self.tally;
        &&& self.metric.scale.wf()
        &&& t.hit <= u64::MAX
        &&& i64::MIN <= t.max <= i64::MAX
        &&& i64::MIN <= t.min <= i64::MAX
        &&& if t.hit == 0 || self.metric.kind == Kind::Marker {
            t.total == 0 && t.max == i64::MIN && t.min == i64::MAX
        } else {
            t.min <= t.max && t.hit * t.min <= t.total <= t.hit * t.max
        }
    }

    /// The cell after `value` is recorded. A marker counts the hit and
    /// ignores the value. A cell whose hit count has reached the greatest
    /// `u64` stays as it is.
    pub open spec fn record(self, value: i64) -> CellView {
        if self.tally.hit >= u64::MAX {
            self
        } else if self.metric.kind == Kind::Marker {
            CellView { tally: self.tally.mark(), ..self }
        } else {
            CellView { tally: self.tally.observe(value as int), ..self }
        }
    }

    /// The cell after each of `values` is recorded, first to last.
    pub open spec fn record_all(self, values: Seq<i64>) -> CellView
        decreases values.len(),
    {
        if values.len() == 0 {
            self
        } else {
            self.record_all(values.drop_last()).record(values.last())
        }
    }

    /// The cell after it is read: the same metric with the empty tally.
    pub open spec fn reset(self) -> CellView {
        CellView::fresh(self.metric)
    }

    /// What reading the cell returns. A marker gives its hit count. Any other
    /// metric gives hit count, maximum, minimum, and the total under the
    /// metric's scale; summing the scaled values one by one would give the
    /// same, since the scale of a metric never changes.
    pub open spec fn extract(self) -> ExtractedView {
        let t = self.tally;
        ExtractedView {
            metric: self.metric,
            score: if self.metric.kind == Kind::Marker {
                AggregateScore::Event { hit: t.hit as u64 }
            } else {
                AggregateScore::Value {
                    hit: t.hit as u64,
                    sum: self.metric.scale.scaled(t.total),
                    max: t.max as i64,
                    min: t.min as i64,
                }
            },
        }
    }
}

/// Recording a value keeps a cell well formed.
pub proof fn lemma_record_wf(c: CellView, value: i64)
    requires
        c.wf(),
    ensures
        c.record(value).wf(),
{
    let t = c.tally;
    let r = c.record(value).tally;
    if t.hit < u64::MAX && c.metric.kind != Kind::Marker {
        if t.hit == 0 {
            assert(1 * r.min == r.min && 1 * r.max == r.max);
        } else {
            assert(t.hit * r.min <= t.hit * t.min) by (nonlinear_arith)
                requires
                    r.min <= t.min,
                    t.hit >= 0,
            ;
            assert(t.hit * t.max <= t.hit * r.max) by (nonlinear_arith)
                requires
                    t.max <= r.max,
                    t.hit >= 0,
            ;
            assert((t.hit + 1) * r.min == t.hit * r.min + r.min) by (nonlinear_arith);
            assert((t.hit + 1) * r.max == t.hit * r.max + r.max) by (nonlinear_arith);
        }
    }
}

/// Recording a sequence of values keeps a cell well formed.
pub proof fn lemma_record_all_wf(c: CellView, values: Seq<i64>)
    requires
        c.wf(),
    ensures
        c.record_all(values).wf(),
    decreases values.len(),
{
    if values.len() > 0 {
        lemma_record_all_wf(c, values.drop_last());
        lemma_record_wf(c.record_all(values.drop_last()), values.last());
    }
}

/// No observation is lost: after any sequence of recorded values that the hit
/// count has room for, a cell's hit count has grown by their number; and
/// unless the metric is a marker, its total has grown by their sum, its
/// maximum is the largest and its minimum the smallest of what it was before
/// and each of the values. The metric stays the same.
pub proof fn lemma_record_all(c: CellView, values: Seq<i64>)
    requires
        c.wf(),
        c.tally.hit + values.len() <= u64::MAX,
    ensures
        c.record_all(values).metric == c.metric,
        c.record_all(values).tally.hit == c.tally.hit + values.len(),
        c.metric.kind == Kind::Marker ==> c.record_all(values).tally == (Tally {
            hit: c.tally.hit + values.len(),
            ..c.tally
        }),
        c.metric.kind != Kind::Marker ==> c.record_all(values).tally == (Tally {
            hit: c.tally.hit + values.len(),
            total: c.tally.total + sum_of(values),
            max: if largest(values) > c.tally.max {
                largest(values)
            } else {
                c.tally.max
            },
            min: if smallest(values) < c.tally.min {
                smallest(values)
            } else {
                c.tally.min
            },
        }),
    decreases values.len(),
{
    if values.len() > 0 {
        lemma_record_all(c, values.drop_last());
    }
}

/// The largest of a sequence of values is at least each of them, the smallest
/// at most each of them, and both occur among them.
pub proof fn lemma_extremes(values: Seq<i64>)
    ensures
        forall|i: int|
            0 <= i < values.len() ==> smallest(values) <= #[trigger] values[i] <= largest(values),
        values.len() > 0 ==> exists|i: int| 0 <= i < values.len() && values[i] == largest(values),
        values.len() > 0 ==> exists|i: int| 0 <= i < values.len() && values[i] == smallest(values),
    decreases values.len(),
{
    if values.len() > 0 {
        let front = values.drop_last();
        let n = values.len() - 1;
        lemma_extremes(front);
        assert forall|i: int| 0 <= i < values.len() implies smallest(values) <= #[trigger] values[i]
            <= largest(values) by {
            if i < n {
                assert(front[i] == values[i]);
            }
        }
        if n == 0 {
            assert(values[n] == largest(values));
            assert(values[n] == smallest(values));
        } else {
            let i = choose|i: int| 0 <= i < front.len() && front[i] == largest(front);
            assert(front[i] == values[i]);
            assert(values[i] == largest(values) || values[n] == largest(values));
            let j = choose|j: int| 0 <= j < front.len() && front[j] == smallest(front);
            assert(front[j] == values[j]);
            assert(values[j] == smallest(values) || values[n] == smallest(values));
        }
    }
}

/// The sum, the largest and the smallest of a sequence of values, told from
/// those of the sequence without the value at `k`.
proof fn lemma_without(values: Seq<i64>, k: int)
    requires
        0 <= k < values.len(),
    ensures
        sum_of(values) == sum_of(values.remove(k)) + values[k],
        largest(values) == if values[k] > largest(values.remove(k)) {
            values[k] as int
        } else {
            largest(values.remove(k))
        },
        smallest(values) == if values[k] < smallest(values.remove(k)) {
            values[k] as int
        } else {
            smallest(values.remove(k))
        },
    decreases values.len(),
{
    let n = values.len() - 1;
    if k == n {
        assert(values.remove(k) =~= values.drop_last());
    } else {
        lemma_without(values.drop_last(), k);
        assert(values.remove(k).drop_last() =~= values.drop_last().remove(k));
        assert(values.remove(k).last() == values.last());
    }
}

/// Two sequences that hold the same values, each as often as the other, are
/// as long as each other and agree in sum, largest and smallest value.
pub proof fn lemma_same_values(a: Seq<i64>, b: Seq<i64>)
    requires
        a.to_multiset() == b.to_multiset(),
    ensures
        a.len() == b.len(),
        sum_of(a) == sum_of(b),
        largest(a) == largest(b),
        smallest(a) == smallest(b),
    decreases a.len(),
{
    a.to_multiset_ensures();
    b.to_multiset_ensures();
    if a.len() > 0 {
        let x = a.last();
        let front = a.drop_last();
        assert(a =~= front.push(x));
        front.to_multiset_ensures();
        assert(a.to_multiset().count(x) > 0);
        assert(b.contains(x));
        let k = choose|k: int| 0 <= k < b.len() && b[k] == x;
        let rest = b.remove(k);
        assert(rest.to_multiset() =~= b.to_multiset().remove(x));
        assert(front.to_multiset() =~= a.to_multiset().remove(x));
        lemma_same_values(front, rest);
        lemma_without(b, k);
    }
}

/// The order of recording does not matter: however the values recorded by
/// several callers are interleaved, the cell ends up the same. What it holds
/// depends on which values were recorded and how often each.
pub proof fn lemma_any_order(c: CellView, a: Seq<i64>, b: Seq<i64>)
    requires
        c.wf(),
        c.tally.hit + a.len() <= u64::MAX,
        a.to_multiset() == b.to_multiset(),
    ensures
        c.record_all(a) == c.record_all(b),
{
    lemma_same_values(a, b);
    lemma_record_all(c, a);
    lemma_record_all(c, b);
}

/// The sum of `values`, each multiplied by `factor` on its own.
pub open spec fn scaled_sum_of(values: Seq<i64>, factor: int) -> int
    decreases values.len(),
{
    if values.len() == 0 {
        0
    } else {
        scaled_sum_of(values.drop_last(), factor) + values.last() * factor
    }
}

/// To scale the total of the values gives what summing the scaled values one
/// by one gives.
pub proof fn lemma_scaled_sum(values: Seq<i64>, factor: int)
    ensures
        sum_of(values) * factor == scaled_sum_of(values, factor),
    decreases values.len(),
{
    if values.len() > 0 {
        lemma_scaled_sum(values.drop_last(), factor);
        let front = sum_of(values.drop_last());
        let last = values.last() as int;
        assert((front + last) * factor == front * factor + last * factor) by (nonlinear_arith);
    }
}

/// What a cell gives when it is read after `values` were recorded since it
/// was last read: for a marker the number of recordings; for any other metric
/// their number, the sum of the scaled values, clamped to what an `i128`
/// holds, and the largest and the smallest value.
pub proof fn lemma_read_after_records(c: CellView, values: Seq<i64>)
    requires
        c.wf(),
        values.len() <= u64::MAX,
    ensures
        c.reset().record_all(values).extract().metric == c.metric,
        c.metric.kind == Kind::Marker ==> c.reset().record_all(values).extract().score
            == (AggregateScore::Event { hit: values.len() as u64 }),
        c.metric.kind != Kind::Marker ==> c.reset().record_all(values).extract().score
            == (AggregateScore::Value {
            hit: values.len() as u64,
            sum: Quantity {
                numer: clamp(scaled_sum_of(values, c.metric.scale.numer as int)),
                denom: c.metric.scale.denom as u128,
            },
            max: largest(values) as i64,
            min: smallest(values) as i64,
        }),
{
    lemma_record_all(c.reset(), values);
    lemma_scaled_sum(values, c.metric.scale.numer as int);
}

/// Reading a cell that was just read finds no hits, and leaves the cell as
/// the first reading left it.
pub proof fn lemma_read_twice(c: CellView)
    ensures
        c.reset().extract().score.hits() == 0,
        c.reset().reset() == c.reset(),
        c.reset().extract().metric == c.metric,
{
}

/// The accumulator of one metric.
pub struct AggregateCell {
    metric: Metric,
    hit: u64,
    total: i128,
    max: i64,
    min: i64,
}

impl View for AggregateCell {
    type V = CellView;

    closed spec fn view(&self) -> CellView {
        CellView {
            metric: self.metric@,
            tally: Tally {
                hit: self.hit as nat,
                total: self.total as int,
                max: self.max as int,
                min: self.min as int,
            },
        }
    }
}

impl AggregateCell {
    /// The cell is well formed.
    pub open spec fn inv(&self) -> bool {
        self@.wf()
    }

    /// The cell of `metric`, with nothing recorded.
    pub fn new(metric: Metric) -> (r: AggregateCell)
        requires
            metric@.scale.wf(),
        ensures
            r.inv(),
            r@ == CellView::fresh(metric@),
    {
        AggregateCell { metric, hit: 0, total: 0, max: i64::MIN, min: i64::MAX }
    }

    /// The metric that the cell accumulates.
    pub fn metric(&self) -> (r: &Metric)
        ensures
            r@ == self@.metric,
    {
        &self.metric
    }

    /// The number of observations since the cell was last read.
    pub fn hits(&self) -> (r: u64)
        ensures
            r == self@.tally.hit,
    {
        self.hit
    }

    /// Records one observation.
    pub fn record(&mut self, value: i64)
        requires
            old(self).inv(),
        ensures
            final(self).inv(),
            final(self)@ == old(self)@.record(value),
    {
        proof {
            lemma_record_wf(self@, value);
        }
        if self.hit == u64::MAX {
            return ;
        }
        match self.metric.kind {
            Kind::Marker => {
                self.hit = self.hit + 1;
            },
            _ => {
                assert(self.total <= self.hit * i64::MAX) by (nonlinear_arith)
                    requires
                        self.hit == 0 ==> self.total == 0,
                        self.hit > 0 ==> self.total <= self.hit * self.max,
                        self.max <= i64::MAX,
                        self.hit >= 0,
                ;
                assert(self.total >= self.hit * i64::MIN) by (nonlinear_arith)
                    requires
                        self.hit == 0 ==> self.total == 0,
                        self.hit > 0 ==> self.total >= self.hit * self.min,
                        self.min >= i64::MIN,
                        self.hit >= 0,
                ;
                self.hit = self.hit + 1;
                self.total = self.total + value as i128;
                if value > self.max {
                    self.max = value;
                }
                if value < self.min {
                    self.min = value;
                }
            },
        }
    }

    /// Returns what the cell has accumulated and empties it.
    pub fn read_and_reset(&mut self) -> (r: ExtractedScore)
        requires
            old(self).inv(),
        ensures
            final(self).inv(),
            final(self)@ == old(self)@.reset(),
            r@ == old(self)@.extract(),
            r@.wf(),
    {
        let score = match self.metric.kind {
            Kind::Marker => AggregateScore::Event { hit: self.hit },
            _ => AggregateScore::Value {
                hit: self.hit,
                sum: self.metric.scale.apply(self.total),
                max: self.max,
                min: self.min,
            },
        };
        let r = ExtractedScore { metric: self.metric.clone(), score };
        self.hit = 0;
        self.total = 0;
        self.max = i64::MIN;
        self.min = i64::MAX;
        r
    }
}

} // verus!
