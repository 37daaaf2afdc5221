//! The sink capability: what every backend and every decorator offers.

use vstd::prelude::*;
use crate::metric::{Kind, Metric, MetricView};
use crate::number::{Quantity, Scale};

verus! {

/// Why a sink refused to define a metric.
#[derive(Clone, Copy, Debug, PartialEq, Eq, Structural)]
pub enum DefinitionError {
    /// The name is not one that the backend can take.
    InvalidName,
    /// The backend turned the definition down for a reason of its own.
    Rejected,
}

/// Why a sink did not take a write.
#[derive(Clone, Copy, Debug, PartialEq, Eq, Structural)]
pub enum WriteError {
    /// No scope was open on the sink.
    ScopeClosed,
    /// The backend failed, for now, to take the value.
    Failed,
    /// The metric was never defined on the sink.
    Undefined,
    /// The value is not one that the sink can hold.
    Unrepresentable,
}

/// Why a sink could not be built from the parameters given.
#[derive(Clone, Copy, Debug, PartialEq, Eq, Structural)]
pub enum ConfigurationError {
    /// A cache or a bounded buffer needs room for at least one entry.
    ZeroCapacity,
    /// A sampling rate is a ratio between zero and one.
    InvalidRate,
}

/// What a sink is asked to do.
pub enum Request {
    Define(MetricView),
    Open,
    Write(MetricView, Quantity),
    Close,
}

/// One call made to a sink, with what the sink answered.
pub enum SinkCall {
    Define { metric: MetricView, verdict: Result<(), DefinitionError> },
    Open,
    Write { metric: MetricView, value: Quantity, answer: Result<(), WriteError> },
    Close,
}

impl SinkCall {
    /// What was asked.
    pub open spec fn request(self) -> Request {
        match self {
            SinkCall::Define { metric, .. } => Request::Define(metric),
            SinkCall::Open => Request::Open,
            SinkCall::Write { metric, value, .. } => Request::Write(metric, value),
            SinkCall::Close => Request::Close,
        }
    }

    /// Whether the sink took the call. Opening and closing a scope always
    /// succeed.
    pub open spec fn accepted(self) -> bool {
        match self {
            SinkCall::Define { verdict, .. } => verdict is Ok,
            SinkCall::Write { answer, .. } => answer is Ok,
            SinkCall::Open => true,
            SinkCall::Close => true,
        }
    }

    /// The answer to a definition; success for any other call.
    pub open spec fn defined(self) -> Result<(), DefinitionError> {
        match self {
            SinkCall::Define { verdict, .. } => verdict,
            _ => Ok(()),
        }
    }

    /// The answer to a write; success for any other call.
    pub open spec fn written(self) -> Result<(), WriteError> {
        match self {
            SinkCall::Write { answer, .. } => answer,
            _ => Ok(()),
        }
    }
}

/// What was asked in each of `calls`.
pub open spec fn requests_of(calls: Seq<SinkCall>) -> Seq<Request> {
    calls.map_values(|c: SinkCall| c.request())
}

/// The answer to a definition without the handle.
pub open spec fn handle_dropped(r: Result<Metric, DefinitionError>) -> Result<(), DefinitionError> {
    match r {
        Ok(_) => Ok(()),
        Err(e) => Err(e),
    }
}

/// Whether the sink `before` has become `after` by receiving `call` and
/// giving the answer that `call` carries.
pub open spec fn hop<S: MetricSink>(before: S, call: SinkCall, after: S) -> bool {
    &&& after.inv()
    &&& after.trace() == before.trace().push(call)
    &&& S::step(before, call, after)
}

/// Whether `after` is the sink `before` with one more call received, which
/// asked for `request`; the sink's answer stands in the call, which is the
/// last of its trace.
pub open spec fn received<S: MetricSink>(before: S, after: S, request: Request) -> bool {
    &&& after.trace().len() == before.trace().len() + 1
    &&& hop(before, after.trace().last(), after)
    &&& after.trace().last().request() == request
}

/// The call that the sink received last.
pub open spec fn last_call<S: MetricSink>(sink: S) -> SinkCall {
    sink.trace().last()
}

/// Whether the sink took the call that it received last.
pub open spec fn took_last<S: MetricSink>(sink: S) -> bool {
    sink.trace().len() > 0 && sink.trace().last().accepted()
}

/// A destination for metrics. A metric is defined, which gives a handle, and
/// values are written to the handle inside a scope, which bounds one flush
/// unit. `trace` is the sequence of calls that the sink has received so far,
/// each with its answer: the contracts of whatever drives a sink are stated
/// over it. `step` says what one call does to the sink itself, so that what
/// becomes of a sink behind other sinks can be told from what they receive.
pub trait MetricSink: Sized {
    /// What the sink needs to hold of itself between calls.
    spec fn inv(&self) -> bool;

    /// The calls received so far, oldest first.
    spec fn trace(&self) -> Seq<SinkCall>;

    /// Whether the sink `before`, on receiving `call`, can give the answer
    /// that `call` carries and become `after`: what the call does to the
    /// sink, beyond lengthening its trace.
    spec fn step(before: Self, call: SinkCall, after: Self) -> bool;

    /// Defines a metric. The handle returned on success describes exactly the
    /// metric asked for.
    fn define(&mut self, kind: Kind, name: String, scale: Scale) -> (r: Result<
        Metric,
        DefinitionError,
    >)
        requires
            old(self).inv(),
            scale.wf(),
        ensures
            final(self).inv(),
            final(self).trace() == old(self).trace().push(
                SinkCall::Define {
                    metric: MetricView { name: name@, kind, scale },
                    verdict: handle_dropped(r),
                },
            ),
            r matches Ok(m) ==> m@ == (MetricView { name: name@, kind, scale }),
            Self::step(
                *old(self),
                SinkCall::Define {
                    metric: MetricView { name: name@, kind, scale },
                    verdict: handle_dropped(r),
                },
                *final(self),
            ),
    ;

    /// Opens a scope.
    fn open_scope(&mut self)
        requires
            old(self).inv(),
        ensures
            final(self).inv(),
            final(self).trace() == old(self).trace().push(SinkCall::Open),
            Self::step(*old(self), SinkCall::Open, *final(self)),
    ;

    /// Writes a value to a metric.
    fn write(&mut self, metric: &Metric, value: Quantity) -> (r: Result<(), WriteError>)
        requires
            old(self).inv(),
        ensures
            final(self).inv(),
            final(self).trace() == old(self).trace().push(
                SinkCall::Write { metric: metric@, value, answer: r },
            ),
            Self::step(
                *old(self),
                SinkCall::Write { metric: metric@, value, answer: r },
                *final(self),
            ),
    ;

    /// Closes the scope.
    fn close_scope(&mut self)
        requires
            old(self).inv(),
        ensures
            final(self).inv(),
            final(self).trace() == old(self).trace().push(SinkCall::Close),
            Self::step(*old(self), SinkCall::Close, *final(self)),
    ;
}

} // verus!
