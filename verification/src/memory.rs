//! A sink that keeps what it receives in memory.

use vstd::prelude::*;
use crate::metric::{Kind, Metric, MetricView};
use crate::number::{Quantity, Scale};
use crate::scope::Scope;
use crate::sink::{handle_dropped, DefinitionError, MetricSink, SinkCall, WriteError};

verus! {

/// One call that a `MemorySink` received, with its answer.
#[derive(Debug)]
pub enum Call {
    Define { metric: Metric, verdict: Result<(), DefinitionError> },
    Open,
    Write { metric: Metric, value: Quantity, answer: Result<(), WriteError> },
    Close,
}

impl View for Call {
    type V = SinkCall;

    open spec fn view(&self) -> SinkCall {
        match self {
            Call::Define { metric, verdict } => SinkCall::Define {
                metric: metric@,
                verdict: *verdict,
            },
            Call::Open => SinkCall::Open,
            Call::Write { metric, value, answer } => SinkCall::Write {
                metric: metric@,
                value: *value,
                answer: *answer,
            },
            Call::Close => SinkCall::Close,
        }
    }
}

/// What a memory sink answers to the definition of `metric`: it takes any
/// metric that has a name.
pub open spec fn define_answer(metric: MetricView) -> Result<(), DefinitionError> {
    if metric.name.len() > 0 {
        Ok(())
    } else {
        Err(DefinitionError::InvalidName)
    }
}

/// Where a scope that stood at `scope` stands after `call`. To open a scope
/// while one is open starts a new one.
pub open spec fn scope_step(scope: Scope, call: SinkCall) -> Scope {
    match call {
        SinkCall::Define { .. } => scope,
        SinkCall::Open => Scope::Open,
        SinkCall::Write { .. } => scope.after_write(),
        SinkCall::Close => Scope::Closed,
    }
}

/// Where the scope of a memory sink stands after it received `calls`.
pub open spec fn scope_after(calls: Seq<SinkCall>) -> Scope
    decreases calls.len(),
{
    if calls.len() == 0 {
        Scope::Closed
    } else {
        scope_step(scope_after(calls.drop_last()), calls.last())
    }
}

/// Whether `call` carries the answer that a memory sink gives to it after it
/// received `before`.
pub open spec fn lawful_after(before: Seq<SinkCall>, call: SinkCall) -> bool {
    match call {
        SinkCall::Define { metric, verdict } => verdict == define_answer(metric),
        SinkCall::Write { answer, .. } => answer == scope_after(before).answer(),
        _ => true,
    }
}

/// Whether every call of `calls` carries the answer that a memory sink gives
/// to it after the calls before it.
pub open spec fn lawful(calls: Seq<SinkCall>) -> bool {
    forall|i: int| 0 <= i < calls.len() ==> lawful_after(calls.take(i), #[trigger] calls[i])
}

/// A lawful trace stays lawful with one more call that carries the answer of
/// a memory sink.
proof fn lemma_lawful_push(calls: Seq<SinkCall>, call: SinkCall)
    requires
        lawful(calls),
        lawful_after(calls, call),
    ensures
        lawful(calls.push(call)),
        scope_after(calls.push(call)) == scope_step(scope_after(calls), call),
{
    let longer = calls.push(call);
    assert(longer.drop_last() =~= calls);
    assert forall|i: int| 0 <= i < longer.len() implies lawful_after(
        longer.take(i),
        #[trigger] longer[i],
    ) by {
        if i < calls.len() {
            assert(longer.take(i) =~= calls.take(i));
            assert(longer[i] == calls[i]);
        } else {
            assert(longer.take(i) =~= calls);
        }
    }
}

/// A sink that records every call it receives. It refuses to define a metric
/// without a name, and refuses a write unless a scope is open. Before the
/// first scope is opened none is open. To open a scope while one is open
/// starts a new one.
pub struct MemorySink {
    calls: Vec<Call>,
    scope: Scope,
}

impl MemorySink {
    /// Where the sink's scope stands.
    pub closed spec fn scope_view(&self) -> Scope {
        self.scope
    }

    /// A sink that has received nothing.
    pub fn new() -> (r: MemorySink)
        ensures
            r.inv(),
            r.trace().len() == 0,
            r.scope_view() == Scope::Closed,
    {
        MemorySink { calls: Vec::new(), scope: Scope::Closed }
    }

    /// The calls received so far, oldest first.
    pub fn calls(&self) -> (r: &Vec<Call>)
        ensures
            r@.map_values(|c: Call| c@) == self.trace(),
    {
        &self.calls
    }

    /// Where the sink's scope stands.
    pub fn scope(&self) -> (r: Scope)
        ensures
            r == self.scope_view(),
    {
        self.scope
    }
}

impl MetricSink for MemorySink {
    /// Every answer in the trace is the one that the sink's rules give, and
    /// the scope stands where the calls have left it: what the sink has
    /// answered and will answer is told by its trace alone.
    open spec fn inv(&self) -> bool {
        lawful(self.trace()) && self.scope_view() == scope_after(self.trace())
    }

    closed spec fn trace(&self) -> Seq<SinkCall> {
        self.calls@.map_values(|c: Call| c@)
    }

    /// The call is answered by the sink's rules, and the scope moves on.
    open spec fn step(before: Self, call: SinkCall, after: Self) -> bool {
        &&& lawful_after(before.trace(), call)
        &&& after.scope_view() == scope_step(before.scope_view(), call)
    }

    fn define(&mut self, kind: Kind, name: String, scale: Scale) -> (r: Result<
        Metric,
        DefinitionError,
    >)
        ensures
            handle_dropped(r) == define_answer(MetricView { name: name@, kind, scale }),
            final(self).scope_view() == old(self).scope_view(),
    {
        let ghost before = self.trace();
        let ghost key = MetricView { name: name@, kind, scale };
        let accepted = !name.as_str().is_empty();
        let metric = Metric::new(kind, name, scale);
        if accepted {
            self.calls.push(Call::Define { metric: metric.clone(), verdict: Ok(()) });
            proof {
                let call = SinkCall::Define { metric: key, verdict: Ok(()) };
                assert(self.trace() =~= before.push(call));
                lemma_lawful_push(before, call);
            }
            Ok(metric)
        } else {
            let e = DefinitionError::InvalidName;
            self.calls.push(Call::Define { metric, verdict: Err(e) });
            proof {
                let call = SinkCall::Define { metric: key, verdict: Err(e) };
                assert(self.trace() =~= before.push(call));
                lemma_lawful_push(before, call);
            }
            Err(e)
        }
    }

    fn open_scope(&mut self)
        ensures
            final(self).scope_view() == Scope::Open,
    {
        let ghost before = self.trace();
        self.scope = Scope::open();
        self.calls.push(Call::Open);
        proof {
            assert(self.trace() =~= before.push(SinkCall::Open));
            lemma_lawful_push(before, SinkCall::Open);
        }
    }

    fn write(&mut self, metric: &Metric, value: Quantity) -> (r: Result<(), WriteError>)
        ensures
            r == old(self).scope_view().answer(),
            final(self).scope_view() == old(self).scope_view().after_write(),
    {
        let ghost before = self.trace();
        let r = self.scope.write();
        self.calls.push(Call::Write { metric: metric.clone(), value, answer: r });
        proof {
            let call = SinkCall::Write { metric: metric@, value, answer: r };
            assert(self.trace() =~= before.push(call));
            lemma_lawful_push(before, call);
        }
        r
    }

    fn close_scope(&mut self)
        ensures
            final(self).scope_view() == Scope::Closed,
    {
        let ghost before = self.trace();
        self.scope.close();
        self.calls.push(Call::Close);
        proof {
            assert(self.trace() =~= before.push(SinkCall::Close));
            lemma_lawful_push(before, SinkCall::Close);
        }
    }
}

} // verus!
