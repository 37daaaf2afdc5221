//! Buffering: a sink that queues writes and hands them on in batches.

use vstd::prelude::*;
use crate::metric::{Kind, Metric, MetricView};
use crate::number::{Quantity, Scale};
use crate::scope::Scope;
use crate::sink::{
    handle_dropped, last_call, received, ConfigurationError, DefinitionError, MetricSink, Request,
    SinkCall, WriteError,
};
use crate::walk::{
    followed, lemma_followed_on, lemma_followed_self, lemma_received_followed, lemma_walked_empty,
    lemma_walked_followed, lemma_walked_last, lemma_walked_push, lemma_walked_refl,
    lemma_walked_trace, since, walked,
};

verus! {

/// When a buffered sink hands its queue on.
#[derive(Clone, Copy, Debug, PartialEq, Eq, Structural)]
pub enum Buffering {
    /// Only when the scope is closed, however long the queue has grown.
    Unlimited,
    /// When the scope is closed, and before that whenever the queue has
    /// reached the given length.
    Bounded(usize),
}

impl Buffering {
    /// Whether a queue of length `n` is handed on at once.
    pub open spec fn flushes_at(self, n: nat) -> bool {
        match self {
            Buffering::Unlimited => false,
            Buffering::Bounded(limit) => n >= limit,
        }
    }

    /// A bound of zero would leave no room to queue anything.
    pub open spec fn wf(self) -> bool {
        self != Buffering::Bounded(0)
    }
}

/// Whether `calls` are the writes of `queue`, one for one and in order,
/// whatever the sink answered to each.
pub open spec fn delivers(calls: Seq<SinkCall>, queue: Seq<(MetricView, Quantity)>) -> bool {
    &&& calls.len() == queue.len()
    &&& forall|i: int|
        0 <= i < queue.len() ==> (#[trigger] calls[i]).request() == Request::Write(
            queue[i].0,
            queue[i].1,
        )
}

/// Whether `after` is the sink `before` after `queue` was handed to it as one
/// batch, and nothing else: a scope was opened, each queued value written, in
/// order, and the scope closed.
pub open spec fn flushed<S: MetricSink>(
    before: S,
    after: S,
    queue: Seq<(MetricView, Quantity)>,
) -> bool {
    let calls = after.trace().skip(before.trace().len() as int);
    &&& after.inv()
    &&& after.trace() == before.trace() + calls
    &&& calls.len() == queue.len() + 2
    &&& walked(before, calls, after)
    &&& calls[0] == SinkCall::Open
    &&& calls[calls.len() - 1] == SinkCall::Close
    &&& delivers(calls.subrange(1, calls.len() - 1), queue)
}

/// Whatever calls a buffer goes through, its policy stays what it was, and
/// its inner sink follows from where it was.
pub proof fn lemma_walked_buffer<S: MetricSink>(
    before: BufferedSink<S>,
    calls: Seq<SinkCall>,
    after: BufferedSink<S>,
)
    requires
        walked(before, calls, after),
    ensures
        after.policy() == before.policy(),
        followed(before.inner(), after.inner()),
    decreases calls.len(),
{
    if calls.len() == 0 {
        lemma_walked_empty(before, calls, after);
        lemma_followed_self(before.inner());
    } else {
        let mid = lemma_walked_last(before, calls, after);
        lemma_walked_buffer(before, calls.drop_last(), mid);
        if after.inner() == mid.inner() {
            lemma_followed_self(mid.inner());
        } else if received(mid.inner(), after.inner(), calls.last().request()) {
            lemma_received_followed(mid.inner(), after.inner(), calls.last().request());
        } else {
            lemma_walked_followed(mid.inner(), since(mid.inner(), after.inner()), after.inner());
        }
        lemma_followed_on(before.inner(), mid.inner(), after.inner());
    }
}

/// A sink that queues the values written to it inside a scope and hands them
/// to the inner sink as one batch when the scope is closed, or earlier where
/// the queue is bounded and full. Definitions go to the inner sink at once.
/// A write outside a scope is refused.
pub struct BufferedSink<S: MetricSink> {
    inner: S,
    policy: Buffering,
    queue: Vec<(Metric, Quantity)>,
    scope: Scope,
    log: Ghost<Seq<SinkCall>>,
}

impl<S: MetricSink> BufferedSink<S> {
    /// The inner sink.
    pub closed spec fn inner(&self) -> S {
        self.inner
    }

    /// The queued writes, oldest first.
    pub closed spec fn queued(&self) -> Seq<(MetricView, Quantity)> {
        self.queue@.map_values(|p: (Metric, Quantity)| (p.0@, p.1))
    }

    /// When the queue is handed on.
    pub closed spec fn policy(&self) -> Buffering {
        self.policy
    }

    /// Where the sink's scope stands.
    pub closed spec fn scope_view(&self) -> Scope {
        self.scope
    }

    /// A buffer in front of `inner`, or an error where the policy is a bound
    /// of zero. No scope is open on it.
    pub fn new(inner: S, policy: Buffering) -> (r: Result<BufferedSink<S>, ConfigurationError>)
        requires
            inner.inv(),
        ensures
            r is Ok <==> policy.wf(),
            r is Err ==> r->Err_0 == ConfigurationError::ZeroCapacity,
            r matches Ok(b) ==> b.inv() && b.inner() == inner && b.policy() == policy
                && b.queued().len() == 0 && b.scope_view() == Scope::Closed && b.trace().len()
                == 0,
    {
        match policy {
            Buffering::Bounded(0) => Err(ConfigurationError::ZeroCapacity),
            _ => Ok(
                BufferedSink {
                    inner,
                    policy,
                    queue: Vec::new(),
                    scope: Scope::Closed,
                    log: Ghost(Seq::empty()),
                },
            ),
        }
    }

    /// The number of queued writes.
    pub fn len(&self) -> (r: usize)
        ensures
            r == self.queued().len(),
    {
        self.queue.len()
    }

    /// The inner sink.
    pub fn get_ref(&self) -> (r: &S)
        ensures
            *r == self.inner(),
            self.inv() ==> r.inv(),
    {
        &self.inner
    }

    /// Releases the buffer: hands on what is still queued, as one batch, and
    /// gives the inner sink back.
    pub fn into_inner(self) -> (r: S)
        requires
            self.inv(),
        ensures
            r.inv(),
            self.queued().len() == 0 ==> r == self.inner(),
            self.queued().len() > 0 ==> flushed(self.inner(), r, self.queued()),
    {
        let mut this = self;
        if this.queue.len() > 0 {
            this.flush();
        }
        this.inner
    }

    /// Hands the queue to the inner sink as one batch and empties it.
    fn flush(&mut self)
        requires
            old(self).inner.inv(),
        ensures
            flushed(old(self).inner(), final(self).inner(), old(self).queued()),
            final(self).queued().len() == 0,
            final(self).policy == old(self).policy,
            final(self).scope == old(self).scope,
            final(self).log == old(self).log,
    {
        let ghost start = self.inner;
        let ghost queue = self.queued();
        self.inner.open_scope();
        let ghost mut mid: Seq<SinkCall> = Seq::empty();
        proof {
            lemma_walked_refl(start);
            lemma_walked_push(start, Seq::empty(), start, SinkCall::Open, self.inner);
            assert(Seq::<SinkCall>::empty().push(SinkCall::Open) =~= seq![SinkCall::Open] + mid);
        }
        let mut i: usize = 0;
        while i < self.queue.len()
            invariant
                0 <= i <= self.queue.len(),
                self.inner.inv(),
                self.queued() == queue,
                self.policy == old(self).policy,
                self.scope == old(self).scope,
                self.log == old(self).log,
                mid.len() == i,
                walked(start, seq![SinkCall::Open] + mid, self.inner),
                delivers(mid, queue.take(i as int)),
            decreases self.queue.len() - i,
        {
            let ghost prior_inner = self.inner;
            let answer = self.inner.write(&self.queue[i].0, self.queue[i].1);
            proof {
                let call = SinkCall::Write {
                    metric: queue[i as int].0,
                    value: queue[i as int].1,
                    answer,
                };
                let prior = mid;
                mid = mid.push(call);
                lemma_walked_push(
                    start,
                    seq![SinkCall::Open] + prior,
                    prior_inner,
                    call,
                    self.inner,
                );
                assert((seq![SinkCall::Open] + prior).push(call) =~= seq![SinkCall::Open] + mid);
                assert forall|j: int| 0 <= j < i + 1 implies (#[trigger] mid[j]).request()
                    == Request::Write(queue.take(i + 1)[j].0, queue.take(i + 1)[j].1) by {
                    if j < i {
                        assert(mid[j] == prior[j]);
                        assert(queue.take(i as int)[j] == queue.take(i + 1)[j]);
                    }
                }
            }
            i = i + 1;
        }
        let ghost prior_inner = self.inner;
        self.inner.close_scope();
        self.queue.clear();
        proof {
            assert(queue.take(queue.len() as int) =~= queue);
            let calls = (seq![SinkCall::Open] + mid).push(SinkCall::Close);
            lemma_walked_push(
                start,
                seq![SinkCall::Open] + mid,
                prior_inner,
                SinkCall::Close,
                self.inner,
            );
            lemma_walked_trace(start, calls, self.inner);
            assert(self.inner.trace().skip(start.trace().len() as int) =~= calls);
            assert(calls.subrange(1, calls.len() - 1) =~= mid);
        }
    }
}

impl<S: MetricSink> MetricSink for BufferedSink<S> {
    closed spec fn inv(&self) -> bool {
        &&& self.inner.inv()
        &&& self.policy.wf()
        &&& !self.policy.flushes_at(self.queue.len() as nat)
    }

    closed spec fn trace(&self) -> Seq<SinkCall> {
        self.log@
    }

    /// A definition goes to the inner sink. A scope is opened on this sink
    /// alone. A write inside a scope joins the queue, and the queue is handed
    /// on where it has become full; outside a scope it is refused. To close
    /// the scope hands the queue on.
    open spec fn step(before: Self, call: SinkCall, after: Self) -> bool {
        &&& after.policy() == before.policy()
        &&& match call {
            SinkCall::Define { verdict, .. } => {
                &&& received(before.inner(), after.inner(), call.request())
                &&& verdict == last_call(after.inner()).defined()
                &&& after.queued() == before.queued()
                &&& after.scope_view() == before.scope_view()
            },
            SinkCall::Open => {
                &&& after.inner() == before.inner()
                &&& after.queued() == before.queued()
                &&& after.scope_view() == Scope::Open
            },
            SinkCall::Write { metric, value, answer } => {
                let longer = before.queued().push((metric, value));
                &&& answer == before.scope_view().answer()
                &&& after.scope_view() == before.scope_view().after_write()
                &&& if !before.scope_view().accepts() {
                    after.inner() == before.inner() && after.queued() == before.queued()
                } else if before.policy().flushes_at(longer.len()) {
                    flushed(before.inner(), after.inner(), longer) && after.queued().len() == 0
                } else {
                    after.inner() == before.inner() && after.queued() == longer
                }
            },
            SinkCall::Close => {
                &&& flushed(before.inner(), after.inner(), before.queued())
                &&& after.queued().len() == 0
                &&& after.scope_view() == Scope::Closed
            },
        }
    }

    /// Defines the metric on the inner sink.
    fn define(&mut self, kind: Kind, name: String, scale: Scale) -> (r: Result<
        Metric,
        DefinitionError,
    >)
        ensures
            received(
                old(self).inner(),
                final(self).inner(),
                Request::Define(MetricView { name: name@, kind, scale }),
            ),
            handle_dropped(r) == last_call(final(self).inner()).defined(),
            final(self).queued() == old(self).queued(),
            final(self).policy() == old(self).policy(),
            final(self).scope_view() == old(self).scope_view(),
    {
        let ghost key = MetricView { name: name@, kind, scale };
        let r = self.inner.define(kind, name, scale);
        proof {
            self.log@ = self.log@.push(
                SinkCall::Define { metric: key, verdict: handle_dropped(r) },
            );
        }
        r
    }

    /// Opens a scope on this sink. The inner sink hears of it only when the
    /// queue is handed on.
    fn open_scope(&mut self)
        ensures
            final(self).inner() == old(self).inner(),
            final(self).queued() == old(self).queued(),
            final(self).policy() == old(self).policy(),
            final(self).scope_view() == Scope::Open,
    {
        self.scope = Scope::open();
        proof {
            self.log@ = self.log@.push(SinkCall::Open);
        }
    }

    /// Queues the value, and hands the queue on where it has become full.
    /// Outside a scope the value is refused and nothing changes.
    fn write(&mut self, metric: &Metric, value: Quantity) -> (r: Result<(), WriteError>)
        ensures
            r == old(self).scope_view().answer(),
            final(self).policy() == old(self).policy(),
            final(self).scope_view() == old(self).scope_view().after_write(),
            ({
                let queue = old(self).queued();
                let longer = queue.push((metric@, value));
                if !old(self).scope_view().accepts() {
                    final(self).inner() == old(self).inner() && final(self).queued() == queue
                } else if old(self).policy().flushes_at(longer.len()) {
                    flushed(old(self).inner(), final(self).inner(), longer)
                        && final(self).queued().len() == 0
                } else {
                    final(self).inner() == old(self).inner() && final(self).queued() == longer
                }
            }),
    {
        let ghost before = self.queued();
        match self.scope.write() {
            Err(e) => {
                proof {
                    self.log@ = self.log@.push(
                        SinkCall::Write { metric: metric@, value, answer: Err(e) },
                    );
                }
                Err(e)
            },
            Ok(()) => {
                self.queue.push((metric.clone(), value));
                assert(self.queued() =~= before.push((metric@, value)));
                let full = match self.policy {
                    Buffering::Unlimited => false,
                    Buffering::Bounded(limit) => self.queue.len() >= limit,
                };
                if full {
                    self.flush();
                }
                proof {
                    self.log@ = self.log@.push(
                        SinkCall::Write { metric: metric@, value, answer: Ok(()) },
                    );
                }
                Ok(())
            },
        }
    }

    /// Hands the queue to the inner sink as one batch and closes the scope.
    fn close_scope(&mut self)
        ensures
            flushed(old(self).inner(), final(self).inner(), old(self).queued()),
            final(self).queued().len() == 0,
            final(self).policy() == old(self).policy(),
            final(self).scope_view() == Scope::Closed,
    {
        self.flush();
        self.scope.close();
        proof {
            self.log@ = self.log@.push(SinkCall::Close);
        }
    }
}

} // verus!
