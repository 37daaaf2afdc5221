//! The registry: the cells of all live metrics.

use vstd::prelude::*;
use crate::cell::{AggregateCell, CellView};
use crate::metric::{Kind, Metric, MetricView};
use crate::number::Scale;
use crate::score::{ExtractedScore, ScoreIterator};

verus! {

/// Whether some cell of `cells` belongs to the metric with the given kind and
/// name.
pub open spec fn has_metric(cells: Seq<CellView>, kind: Kind, name: Seq<char>) -> bool {
    exists|i: int| 0 <= i < cells.len() && (#[trigger] cells[i]).metric.is_named(kind, name)
}

/// The index of the cell of the metric with the given kind and name, where
/// there is one.
pub open spec fn place_of(cells: Seq<CellView>, kind: Kind, name: Seq<char>) -> int {
    choose|i: int| 0 <= i < cells.len() && (#[trigger] cells[i]).metric.is_named(kind, name)
}

/// What holds of the cells of a registry: each is well formed, and no two
/// belong to the same metric.
pub open spec fn distinct_cells(cells: Seq<CellView>) -> bool {
    &&& forall|i: int| 0 <= i < cells.len() ==> (#[trigger] cells[i]).wf()
    &&& forall|i: int, j: int|
        0 <= i < j < cells.len() ==> !(#[trigger] cells[i]).metric.same_identity(
            (#[trigger] cells[j]).metric,
        )
}

/// The cells of all metrics defined so far. A cell is made when its metric is
/// first defined and is never removed; it is addressed by its index, which
/// stays the same for good.
pub struct Registry {
    cells: Vec<AggregateCell>,
}

impl View for Registry {
    type V = Seq<CellView>;

    closed spec fn view(&self) -> Seq<CellView> {
        self.cells@.map_values(|c: AggregateCell| c@)
    }
}

impl Registry {
    /// The cells are well formed and belong to different metrics.
    pub open spec fn inv(&self) -> bool {
        distinct_cells(self@)
    }

    /// A registry without cells.
    pub fn new() -> (r: Registry)
        ensures
            r.inv(),
            r@.len() == 0,
    {
        Registry { cells: Vec::new() }
    }

    /// The number of cells.
    pub fn len(&self) -> (r: usize)
        ensures
            r == self@.len(),
    {
        self.cells.len()
    }

    /// The index of the cell of the metric with the given kind and name, if
    /// it has one.
    pub fn find(&self, kind: Kind, name: &String) -> (r: Option<usize>)
        ensures
            self.inv() && r is Some ==> r->0 == place_of(self@, kind, name@),
            r is Some <==> has_metric(self@, kind, name@),
            r matches Some(id) ==> id < self@.len() && self@[id as int].metric.is_named(
                kind,
                name@,
            ) && forall|j: int| 0 <= j < id ==> !(#[trigger] self@[j]).metric.is_named(kind, name@),
    {
        let mut i: usize = 0;
        while i < self.cells.len()
            invariant
                0 <= i <= self.cells.len(),
                forall|j: int| 0 <= j < i ==> !(#[trigger] self@[j]).metric.is_named(kind, name@),
            decreases self.cells.len() - i,
        {
            if self.cells[i].metric().is_named(kind, name) {
                assert(self@[i as int].metric.is_named(kind, name@));
                proof {
                    if self.inv() {
                        let p = place_of(self@, kind, name@);
                        assert(self@[p].metric.same_identity(self@[i as int].metric));
                    }
                }
                return Some(i);
            }
            i = i + 1;
        }
        None
    }

    /// Defines a metric and returns the index of its cell. A metric that is
    /// already there keeps its cell, with what the cell holds and the scale it
    /// was first defined with; otherwise a fresh cell is added at the end.
    pub fn define(&mut self, kind: Kind, name: String, scale: Scale) -> (id: usize)
        requires
            old(self).inv(),
            scale.wf(),
        ensures
            final(self).inv(),
            id < final(self)@.len(),
            final(self)@[id as int].metric.is_named(kind, name@),
            has_metric(old(self)@, kind, name@) ==> final(self)@ == old(self)@,
            !has_metric(old(self)@, kind, name@) ==> id == old(self)@.len() && final(self)@
                == old(self)@.push(CellView::fresh(MetricView { name: name@, kind, scale })),
    {
        match self.find(kind, &name) {
            Some(id) => id,
            None => {
                let ghost before = self@;
                let id = self.cells.len();
                self.cells.push(AggregateCell::new(Metric::new(kind, name, scale)));
                proof {
                    let added = CellView::fresh(MetricView { name: name@, kind, scale });
                    assert(self@ =~= before.push(added));
                    assert forall|i: int, j: int| 0 <= i < j < self@.len() implies !(
                    #[trigger] self@[i]).metric.same_identity((#[trigger] self@[j]).metric) by {
                        if j == before.len() {
                            assert(!before[i].metric.is_named(kind, name@));
                        } else {
                            assert(self@[i] == before[i] && self@[j] == before[j]);
                        }
                    }
                }
                id
            },
        }
    }

    /// The cell at `id`, if there is one.
    pub fn cell(&self, id: usize) -> (r: Option<&AggregateCell>)
        ensures
            r is Some <==> id < self@.len(),
            r matches Some(c) ==> c@ == self@[id as int],
    {
        if id < self.cells.len() {
            Some(&self.cells[id])
        } else {
            None
        }
    }

    /// Records `value` in the cell at `id`. Returns whether there is such a
    /// cell; where there is none, nothing changes.
    pub fn record(&mut self, id: usize, value: i64) -> (r: bool)
        requires
            old(self).inv(),
        ensures
            final(self).inv(),
            r == (id < old(self)@.len()),
            r ==> final(self)@ == old(self)@.update(id as int, old(self)@[id as int].record(value)),
            !r ==> final(self)@ == old(self)@,
    {
        if id >= self.cells.len() {
            return false;
        }
        let ghost before = self@;
        assert(before[id as int].wf());
        self.cells[id].record(value);
        proof {
            assert(self@ =~= before.update(id as int, before[id as int].record(value)));
            lemma_same_metrics(before, self@);
        }
        true
    }

    /// Reads and empties the cell at `id`, if there is one; where there is
    /// none, nothing changes.
    pub fn read_and_reset(&mut self, id: usize) -> (r: Option<ExtractedScore>)
        requires
            old(self).inv(),
        ensures
            final(self).inv(),
            r is Some <==> id < old(self)@.len(),
            r matches Some(es) ==> es@ == old(self)@[id as int].extract() && es@.wf()
                && final(self)@ == old(self)@.update(id as int, old(self)@[id as int].reset()),
            r is None ==> final(self)@ == old(self)@,
    {
        if id >= self.cells.len() {
            return None;
        }
        let ghost before = self@;
        assert(before[id as int].wf());
        let es = self.cells[id].read_and_reset();
        proof {
            assert(self@ =~= before.update(id as int, before[id as int].reset()));
            lemma_same_metrics(before, self@);
        }
        Some(es)
    }

    /// Reads and empties every cell, each once, in the order of their
    /// indices, and returns the scores for one publish cycle.
    pub fn scores(&mut self) -> (r: ScoreIterator)
        requires
            old(self).inv(),
        ensures
            final(self).inv(),
            final(self)@ == old(self)@.map_values(|c: CellView| c.reset()),
            r.inv(),
            r@ == old(self)@.map_values(|c: CellView| c.extract()),
    {
        let ghost before = self@;
        let mut out: Vec<ExtractedScore> = Vec::new();
        let mut i: usize = 0;
        while i < self.cells.len()
            invariant
                0 <= i <= self.cells.len(),
                self@.len() == before.len(),
                out.len() == i,
                forall|j: int| 0 <= j < self@.len() ==> (#[trigger] self@[j]).wf(),
                forall|j: int| 0 <= j < i ==> #[trigger] self@[j] == before[j].reset(),
                forall|j: int| i <= j < self@.len() ==> #[trigger] self@[j] == before[j],
                forall|j: int| 0 <= j < i ==> (#[trigger] out[j])@ == before[j].extract(),
                forall|j: int| 0 <= j < i ==> (#[trigger] out[j])@.wf(),
            decreases self.cells.len() - i,
        {
            let ghost prior = self@;
            assert(prior[i as int].wf());
            let es = self.cells[i].read_and_reset();
            out.push(es);
            assert(self@ =~= prior.update(i as int, prior[i as int].reset()));
            i = i + 1;
        }
        proof {
            assert(self@ =~= before.map_values(|c: CellView| c.reset()));
            lemma_same_metrics(before, self@);
            assert(out@.map_values(|es: ExtractedScore| es@) =~= before.map_values(
                |c: CellView| c.extract(),
            ));
        }
        ScoreIterator::new(out)
    }
}

/// Cells that are well formed and keep the metrics of distinct cells are
/// distinct themselves.
proof fn lemma_same_metrics(before: Seq<CellView>, after: Seq<CellView>)
    requires
        distinct_cells(before),
        after.len() == before.len(),
        forall|i: int| 0 <= i < after.len() ==> (#[trigger] after[i]).metric == before[i].metric,
        forall|i: int|
            0 <= i < after.len() ==> #[trigger] after[i] == before[i] || after[i]
                == before[i].reset() || exists|v: i64| after[i] == before[i].record(v),
    ensures
        distinct_cells(after),
{
    assert forall|i: int| 0 <= i < after.len() implies (#[trigger] after[i]).wf() by {
        assert(before[i].wf());
        if after[i] != before[i] && after[i] != before[i].reset() {
            let v = choose|v: i64| after[i] == before[i].record(v);
            crate::cell::lemma_record_wf(before[i], v);
        }
    }
    assert forall|i: int, j: int| 0 <= i < j < after.len() implies !(
    #[trigger] after[i]).metric.same_identity((#[trigger] after[j]).metric) by {
        assert(!before[i].metric.same_identity(before[j].metric));
    }
}

} // verus!
