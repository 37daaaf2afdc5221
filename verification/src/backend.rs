//! Backends: where metrics leave the library.

use vstd::prelude::*;
use crate::metric::{Kind, Metric};
use crate::number::{Quantity, Scale};
use crate::sink::{DefinitionError, MetricSink, SinkCall, WriteError};

verus! {

/// What a backend has to offer to serve as a sink: a console writer, a
/// network client, or whatever else takes metrics. Nothing is known of what
/// a backend does with a call, nor of what it answers.
pub trait Backend {
    /// Makes the metric known to the backend, which may refuse it.
    fn define(&mut self, metric: &Metric) -> Result<(), DefinitionError>;

    /// Starts a batch of writes.
    fn open_scope(&mut self);

    /// Takes one value for a metric, or fails to.
    fn write(&mut self, metric: &Metric, value: Quantity) -> Result<(), WriteError>;

    /// Ends the batch.
    fn close_scope(&mut self);
}

/// The sink in front of a backend. It hands every call on to the backend,
/// passes the backend's answer back, and keeps the trace.
pub struct BackendSink<B: Backend> {
    backend: B,
    log: Ghost<Seq<SinkCall>>,
}

impl<B: Backend> BackendSink<B> {
    /// A sink in front of `backend`.
    pub fn new(backend: B) -> (r: BackendSink<B>)
        ensures
            r.inv(),
            r.backend() == backend,
            r.trace().len() == 0,
    {
        BackendSink { backend, log: Ghost(Seq::empty()) }
    }

    /// The backend.
    pub closed spec fn backend(&self) -> B {
        self.backend
    }

    /// The backend.
    pub fn get_ref(&self) -> (r: &B)
        ensures
            *r == self.backend(),
    {
        &self.backend
    }

    /// Gives the backend back.
    pub fn into_inner(self) -> (r: B)
        ensures
            r == self.backend(),
    {
        self.backend
    }
}

impl<B: Backend> MetricSink for BackendSink<B> {
    open spec fn inv(&self) -> bool {
        true
    }

    closed spec fn trace(&self) -> Seq<SinkCall> {
        self.log@
    }

    /// Nothing is known of what a call does to a backend.
    open spec fn step(before: Self, call: SinkCall, after: Self) -> bool {
        true
    }

    fn define(&mut self, kind: Kind, name: String, scale: Scale) -> (r: Result<
        Metric,
        DefinitionError,
    >) {
        let metric = Metric::new(kind, name, scale);
        match self.backend.define(&metric) {
            Ok(()) => {
                proof {
                    self.log@ = self.log@.push(
                        SinkCall::Define { metric: metric@, verdict: Ok(()) },
                    );
                }
                Ok(metric)
            },
            Err(e) => {
                proof {
                    self.log@ = self.log@.push(
                        SinkCall::Define { metric: metric@, verdict: Err(e) },
                    );
                }
                Err(e)
            },
        }
    }

    fn open_scope(&mut self) {
        self.backend.open_scope();
        proof {
            self.log@ = self.log@.push(SinkCall::Open);
        }
    }

    fn write(&mut self, metric: &Metric, value: Quantity) -> (r: Result<(), WriteError>) {
        let r = self.backend.write(metric, value);
        proof {
            self.log@ = self.log@.push(SinkCall::Write { metric: metric@, value, answer: r });
        }
        r
    }

    fn close_scope(&mut self) {
        self.backend.close_scope();
        proof {
            self.log@ = self.log@.push(SinkCall::Close);
        }
    }
}

} // verus!
