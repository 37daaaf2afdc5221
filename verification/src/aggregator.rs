//! The registry as a sink: values written to it are recorded in its cells.

use vstd::prelude::*;
use crate::cell::CellView;
use crate::metric::{Kind, Metric, MetricView};
use crate::number::{Quantity, Scale};
use crate::registry::{has_metric, place_of, Registry};
use crate::score::ScoreIterator;
use crate::sink::{DefinitionError, MetricSink, SinkCall, WriteError};

verus! {

/// Whether a quantity is a whole number that a cell can record.
pub open spec fn recordable(value: Quantity) -> bool {
    value.denom == 1 && i64::MIN <= value.numer <= i64::MAX
}

/// What a write to the aggregating sink is answered: the metric has to have
/// a cell, and the value to be one that a cell can record.
pub open spec fn write_answer(cells: Seq<CellView>, metric: MetricView, value: Quantity) -> Result<
    (),
    WriteError,
> {
    if !has_metric(cells, metric.kind, metric.name) {
        Err(WriteError::Undefined)
    } else if !recordable(value) {
        Err(WriteError::Unrepresentable)
    } else {
        Ok(())
    }
}

/// The cells after a write to the aggregating sink: where the write is
/// accepted, the cell of the metric has recorded the value; otherwise nothing
/// has changed.
pub open spec fn after_write(cells: Seq<CellView>, metric: MetricView, value: Quantity) -> Seq<
    CellView,
> {
    if write_answer(cells, metric, value) is Ok {
        let id = place_of(cells, metric.kind, metric.name);
        cells.update(id, cells[id].record(value.numer as i64))
    } else {
        cells
    }
}

/// The cells after a metric was defined on the aggregating sink: a metric
/// that has a cell keeps it, any other gets a fresh one at the end.
pub open spec fn after_define(cells: Seq<CellView>, metric: MetricView) -> Seq<CellView> {
    if has_metric(cells, metric.kind, metric.name) {
        cells
    } else {
        cells.push(CellView::fresh(metric))
    }
}

/// A sink that aggregates in memory. To define a metric gives it a cell; to
/// write a value records it in the cell, with no I/O. Scopes mean nothing to
/// it: a value is recorded whether or not one is open.
pub struct AggregateSink {
    registry: Registry,
    log: Ghost<Seq<SinkCall>>,
}

impl AggregateSink {
    /// The cells.
    pub closed spec fn cells(&self) -> Seq<CellView> {
        self.registry@
    }

    /// A sink over the cells of `registry`.
    pub fn new(registry: Registry) -> (r: AggregateSink)
        requires
            registry.inv(),
        ensures
            r.inv(),
            r.cells() == registry@,
            r.trace().len() == 0,
    {
        AggregateSink { registry, log: Ghost(Seq::empty()) }
    }

    /// The registry that holds the cells.
    pub fn registry(&self) -> (r: &Registry)
        ensures
            r@ == self.cells(),
            self.inv() ==> r.inv(),
    {
        &self.registry
    }

    /// Gives the registry back.
    pub fn into_registry(self) -> (r: Registry)
        ensures
            r@ == self.cells(),
            self.inv() ==> r.inv(),
    {
        self.registry
    }

    /// Reads and empties every cell, and returns the scores for one publish
    /// cycle.
    pub fn scores(&mut self) -> (r: ScoreIterator)
        requires
            old(self).inv(),
        ensures
            final(self).inv(),
            final(self).trace() == old(self).trace(),
            final(self).cells() == old(self).cells().map_values(|c: CellView| c.reset()),
            r.inv(),
            r@ == old(self).cells().map_values(|c: CellView| c.extract()),
    {
        self.registry.scores()
    }
}

impl MetricSink for AggregateSink {
    closed spec fn inv(&self) -> bool {
        self.registry.inv()
    }

    closed spec fn trace(&self) -> Seq<SinkCall> {
        self.log@
    }

    /// A definition always succeeds and may add a cell; a write is answered
    /// and recorded as the cells allow; scopes leave the cells alone.
    open spec fn step(before: Self, call: SinkCall, after: Self) -> bool {
        match call {
            SinkCall::Define { metric, verdict } => {
                &&& verdict == Ok::<(), DefinitionError>(())
                &&& after.cells() == after_define(before.cells(), metric)
            },
            SinkCall::Write { metric, value, answer } => {
                &&& answer == write_answer(before.cells(), metric, value)
                &&& after.cells() == after_write(before.cells(), metric, value)
            },
            _ => after.cells() == before.cells(),
        }
    }

    /// Gives the metric a cell unless it has one, and always succeeds.
    fn define(&mut self, kind: Kind, name: String, scale: Scale) -> (r: Result<
        Metric,
        DefinitionError,
    >)
        ensures
            r is Ok,
            final(self).cells() == after_define(
                old(self).cells(),
                MetricView { name: name@, kind, scale },
            ),
    {
        let handle = Metric::new(kind, name.clone(), scale);
        self.registry.define(kind, name, scale);
        proof {
            self.log@ = self.log@.push(SinkCall::Define { metric: handle@, verdict: Ok(()) });
        }
        Ok(handle)
    }

    /// Does nothing to the cells.
    fn open_scope(&mut self)
        ensures
            final(self).cells() == old(self).cells(),
    {
        proof {
            self.log@ = self.log@.push(SinkCall::Open);
        }
    }

    /// Records the value in the cell of the metric, found by name and kind.
    fn write(&mut self, metric: &Metric, value: Quantity) -> (r: Result<(), WriteError>)
        ensures
            r == write_answer(old(self).cells(), metric@, value),
            final(self).cells() == after_write(old(self).cells(), metric@, value),
    {
        let r = match self.registry.find(metric.kind, &metric.name) {
            None => Err(WriteError::Undefined),
            Some(id) => {
                if value.denom == 1 && value.numer >= i64::MIN as i128 && value.numer
                    <= i64::MAX as i128 {
                    self.registry.record(id, value.numer as i64);
                    Ok(())
                } else {
                    Err(WriteError::Unrepresentable)
                }
            },
        };
        proof {
            self.log@ = self.log@.push(SinkCall::Write { metric: metric@, value, answer: r });
        }
        r
    }

    /// Does nothing to the cells.
    fn close_scope(&mut self)
        ensures
            final(self).cells() == old(self).cells(),
    {
        proof {
            self.log@ = self.log@.push(SinkCall::Close);
        }
    }
}

} // verus!
