//! Fan-out: one sink in front of several.

use vstd::prelude::*;
use crate::metric::{Kind, Metric, MetricView};
use crate::number::{Quantity, Scale};
use crate::sink::{
    handle_dropped, last_call, received, requests_of, took_last, DefinitionError, MetricSink,
    Request, SinkCall, WriteError,
};
use crate::walk::{
    followed, lemma_followed_on, lemma_followed_self, lemma_received_followed, lemma_walked_empty,
    lemma_walked_last, lemma_walked_trace, since, walked,
};

verus! {

/// Whether each sink of `after` is the sink of `before` at the same place
/// with one more call received, which asked for `request`.
pub open spec fn each_received<S: MetricSink>(
    before: Seq<S>,
    after: Seq<S>,
    request: Request,
) -> bool {
    &&& after.len() == before.len()
    &&& forall|i: int| 0 <= i < before.len() ==> received(before[i], #[trigger] after[i], request)
}

/// Whether some sink of `sinks` took the call that it received last.
pub open spec fn some_took_last<S: MetricSink>(sinks: Seq<S>) -> bool {
    exists|i: int| 0 <= i < sinks.len() && took_last(#[trigger] sinks[i])
}

/// The first error among the answers that the sinks gave to the definition
/// that each received last, or success where none refused.
pub open spec fn first_refusal<S: MetricSink>(sinks: Seq<S>) -> Result<(), DefinitionError>
    decreases sinks.len(),
{
    if sinks.len() == 0 {
        Ok(())
    } else {
        match first_refusal(sinks.drop_last()) {
            Err(e) => Err(e),
            Ok(()) => last_call(sinks.last()).defined(),
        }
    }
}

/// The first error among the answers that the sinks gave to the write that
/// each received last, or success where none failed.
pub open spec fn first_failure<S: MetricSink>(sinks: Seq<S>) -> Result<(), WriteError>
    decreases sinks.len(),
{
    if sinks.len() == 0 {
        Ok(())
    } else {
        match first_failure(sinks.drop_last()) {
            Err(e) => Err(e),
            Ok(()) => last_call(sinks.last()).written(),
        }
    }
}

/// What defining a metric on all of `sinks` comes to: success where one of
/// them accepted it; otherwise the first refusal, or that it was rejected
/// where there is no sink to ask.
pub open spec fn define_verdict<S: MetricSink>(sinks: Seq<S>) -> Result<(), DefinitionError> {
    if some_took_last(sinks) {
        Ok(())
    } else if sinks.len() == 0 {
        Err(DefinitionError::Rejected)
    } else {
        first_refusal(sinks)
    }
}

/// Whatever calls a fan-out goes through, it keeps its inner sinks, and each
/// of them goes through calls that ask for the same, in the same order.
pub proof fn lemma_walked_multi<S: MetricSink>(
    before: MultiSink<S>,
    calls: Seq<SinkCall>,
    after: MultiSink<S>,
)
    requires
        walked(before, calls, after),
    ensures
        after.inner().len() == before.inner().len(),
        forall|i: int|
            0 <= i < before.inner().len() ==> {
                &&& followed(before.inner()[i], #[trigger] after.inner()[i])
                &&& requests_of(since(before.inner()[i], after.inner()[i])) == requests_of(calls)
            },
    decreases calls.len(),
{
    if calls.len() == 0 {
        lemma_walked_empty(before, calls, after);
        assert forall|i: int| 0 <= i < before.inner().len() implies {
            &&& followed(before.inner()[i], #[trigger] after.inner()[i])
            &&& requests_of(since(before.inner()[i], after.inner()[i])) == requests_of(calls)
        } by {
            lemma_followed_self(before.inner()[i]);
            assert(requests_of(since(before.inner()[i], after.inner()[i])) =~= requests_of(calls));
        }
    } else {
        let mid = lemma_walked_last(before, calls, after);
        lemma_walked_multi(before, calls.drop_last(), mid);
        let request = calls.last().request();
        assert forall|i: int| 0 <= i < before.inner().len() implies {
            &&& followed(before.inner()[i], #[trigger] after.inner()[i])
            &&& requests_of(since(before.inner()[i], after.inner()[i])) == requests_of(calls)
        } by {
            let (b, m, a) = (before.inner()[i], mid.inner()[i], after.inner()[i]);
            assert(received(m, a, request));
            lemma_received_followed(m, a, request);
            lemma_followed_on(b, m, a);
            lemma_walked_trace(b, since(b, m), m);
            assert(since(b, a) =~= since(b, m).push(a.trace().last()));
            assert(requests_of(since(b, a)) =~= requests_of(since(b, m)).push(request));
            assert(requests_of(calls) =~= requests_of(calls.drop_last()).push(request));
        }
    }
}

/// A sink that hands every call on to each of its inner sinks, in order. What
/// one inner sink answers has no effect on what the others receive.
pub struct MultiSink<S: MetricSink> {
    sinks: Vec<S>,
    log: Ghost<Seq<SinkCall>>,
}

impl<S: MetricSink> MultiSink<S> {
    /// The inner sinks.
    pub closed spec fn inner(&self) -> Seq<S> {
        self.sinks@
    }

    /// A sink in front of `sinks`.
    pub fn new(sinks: Vec<S>) -> (r: MultiSink<S>)
        requires
            forall|i: int| 0 <= i < sinks.len() ==> (#[trigger] sinks[i]).inv(),
        ensures
            r.inv(),
            r.inner() == sinks@,
            r.trace().len() == 0,
    {
        MultiSink { sinks, log: Ghost(Seq::empty()) }
    }

    /// The inner sinks.
    pub fn sinks(&self) -> (r: &Vec<S>)
        ensures
            r@ == self.inner(),
            self.inv() ==> forall|i: int| 0 <= i < r.len() ==> (#[trigger] r[i]).inv(),
    {
        &self.sinks
    }

    /// Gives the inner sinks back.
    pub fn into_inner(self) -> (r: Vec<S>)
        ensures
            r@ == self.inner(),
            self.inv() ==> forall|i: int| 0 <= i < r.len() ==> (#[trigger] r[i]).inv(),
    {
        self.sinks
    }
}

impl<S: MetricSink> MetricSink for MultiSink<S> {
    closed spec fn inv(&self) -> bool {
        forall|i: int| 0 <= i < self.sinks.len() ==> (#[trigger] self.sinks[i]).inv()
    }

    closed spec fn trace(&self) -> Seq<SinkCall> {
        self.log@
    }

    /// Every inner sink receives what was asked, and the answers of all of
    /// them make up the answer.
    open spec fn step(before: Self, call: SinkCall, after: Self) -> bool {
        &&& each_received(before.inner(), after.inner(), call.request())
        &&& call is Define ==> call.defined() == define_verdict(after.inner())
        &&& call is Write ==> call.written() == first_failure(after.inner())
    }

    /// Defines the metric on every inner sink. Succeeds where at least one of
    /// them accepted it; otherwise returns the first refusal.
    fn define(&mut self, kind: Kind, name: String, scale: Scale) -> (r: Result<
        Metric,
        DefinitionError,
    >)
        ensures
            each_received(
                old(self).inner(),
                final(self).inner(),
                Request::Define(MetricView { name: name@, kind, scale }),
            ),
            handle_dropped(r) == define_verdict(final(self).inner()),
    {
        let ghost before = self.sinks@;
        let ghost request = Request::Define(MetricView { name: name@, kind, scale });
        let mut failure: Option<DefinitionError> = None;
        let mut accepted = false;
        let mut i: usize = 0;
        assert(self.sinks@.take(0) =~= Seq::<S>::empty());
        while i < self.sinks.len()
            invariant
                0 <= i <= self.sinks.len(),
                scale.wf(),
                self.sinks.len() == before.len(),
                self.log == old(self).log,
                request == Request::Define(MetricView { name: name@, kind, scale }),
                forall|j: int|
                    0 <= j < i ==> received(before[j], #[trigger] self.sinks[j], request),
                forall|j: int| i <= j < self.sinks.len() ==> #[trigger] self.sinks[j] == before[j],
                forall|j: int| 0 <= j < before.len() ==> (#[trigger] before[j]).inv(),
                accepted <==> exists|j: int| 0 <= j < i && took_last(#[trigger] self.sinks[j]),
                !accepted && i > 0 ==> failure is Some,
                failure is None ==> first_refusal(self.sinks@.take(i as int)) is Ok,
                failure matches Some(e) ==> first_refusal(self.sinks@.take(i as int)) == Err::<
                    (),
                    DefinitionError,
                >(e),
            decreases self.sinks.len() - i,
        {
            let ghost prior = self.sinks@;
            assert(prior[i as int] == before[i as int]);
            let answer = self.sinks[i].define(kind, name.clone(), scale);
            proof {
                assert(forall|j: int|
                    0 <= j < self.sinks.len() && j != i ==> #[trigger] self.sinks[j] == prior[j]);
                assert(self.sinks@.take(i + 1).drop_last() =~= prior.take(i as int));
                assert(self.sinks@.take(i + 1).last() == self.sinks[i as int]);
                assert(last_call(self.sinks[i as int]).defined() == handle_dropped(answer));
                if accepted {
                    let j = choose|j: int| 0 <= j < i && took_last(#[trigger] prior[j]);
                    assert(self.sinks[j] == prior[j]);
                }
                if answer is Ok {
                    assert(took_last(self.sinks[i as int]));
                }
            }
            match answer {
                Ok(_) => {
                    accepted = true;
                },
                Err(e) => {
                    if failure.is_none() {
                        failure = Some(e);
                    }
                },
            }
            i = i + 1;
        }
        proof {
            assert(self.sinks@.take(self.sinks.len() as int) =~= self.sinks@);
        }
        if accepted {
            proof {
                self.log@ = self.log@.push(
                    SinkCall::Define {
                        metric: MetricView { name: name@, kind, scale },
                        verdict: Ok(()),
                    },
                );
            }
            Ok(Metric::new(kind, name, scale))
        } else {
            let e = match failure {
                Some(e) => e,
                None => DefinitionError::Rejected,
            };
            proof {
                self.log@ = self.log@.push(
                    SinkCall::Define {
                        metric: MetricView { name: name@, kind, scale },
                        verdict: Err(e),
                    },
                );
            }
            Err(e)
        }
    }

    /// Opens a scope on every inner sink.
    fn open_scope(&mut self)
        ensures
            each_received(old(self).inner(), final(self).inner(), Request::Open),
    {
        let ghost before = self.sinks@;
        let mut i: usize = 0;
        while i < self.sinks.len()
            invariant
                0 <= i <= self.sinks.len(),
                self.sinks.len() == before.len(),
                self.log == old(self).log,
                forall|j: int|
                    0 <= j < i ==> received(before[j], #[trigger] self.sinks[j], Request::Open),
                forall|j: int| i <= j < self.sinks.len() ==> #[trigger] self.sinks[j] == before[j],
                forall|j: int| 0 <= j < before.len() ==> (#[trigger] before[j]).inv(),
            decreases self.sinks.len() - i,
        {
            let ghost prior = self.sinks@;
            assert(prior[i as int] == before[i as int]);
            self.sinks[i].open_scope();
            proof {
                assert(forall|j: int|
                    0 <= j < self.sinks.len() && j != i ==> #[trigger] self.sinks[j] == prior[j]);
            }
            i = i + 1;
        }
        proof {
            self.log@ = self.log@.push(SinkCall::Open);
        }
    }

    /// Writes the value to every inner sink. Succeeds where all of them took
    /// it; otherwise returns the error of the first that did not.
    fn write(&mut self, metric: &Metric, value: Quantity) -> (r: Result<(), WriteError>)
        ensures
            each_received(
                old(self).inner(),
                final(self).inner(),
                Request::Write(metric@, value),
            ),
            r == first_failure(final(self).inner()),
    {
        let ghost before = self.sinks@;
        let ghost request = Request::Write(metric@, value);
        let mut failure: Result<(), WriteError> = Ok(());
        let mut i: usize = 0;
        assert(self.sinks@.take(0) =~= Seq::<S>::empty());
        while i < self.sinks.len()
            invariant
                0 <= i <= self.sinks.len(),
                self.sinks.len() == before.len(),
                self.log == old(self).log,
                request == Request::Write(metric@, value),
                forall|j: int|
                    0 <= j < i ==> received(before[j], #[trigger] self.sinks[j], request),
                forall|j: int| i <= j < self.sinks.len() ==> #[trigger] self.sinks[j] == before[j],
                forall|j: int| 0 <= j < before.len() ==> (#[trigger] before[j]).inv(),
                failure == first_failure(self.sinks@.take(i as int)),
            decreases self.sinks.len() - i,
        {
            let ghost prior = self.sinks@;
            assert(prior[i as int] == before[i as int]);
            let answer = self.sinks[i].write(metric, value);
            proof {
                assert(forall|j: int|
                    0 <= j < self.sinks.len() && j != i ==> #[trigger] self.sinks[j] == prior[j]);
                assert(self.sinks@.take(i + 1).drop_last() =~= prior.take(i as int));
                assert(self.sinks@.take(i + 1).last() == self.sinks[i as int]);
                assert(last_call(self.sinks[i as int]).written() == answer);
            }
            if failure.is_ok() {
                failure = answer;
            }
            i = i + 1;
        }
        proof {
            assert(self.sinks@.take(self.sinks.len() as int) =~= self.sinks@);
            self.log@ = self.log@.push(SinkCall::Write { metric: metric@, value, answer: failure });
        }
        failure
    }

    /// Closes the scope on every inner sink.
    fn close_scope(&mut self)
        ensures
            each_received(old(self).inner(), final(self).inner(), Request::Close),
    {
        let ghost before = self.sinks@;
        let mut i: usize = 0;
        while i < self.sinks.len()
            invariant
                0 <= i <= self.sinks.len(),
                self.sinks.len() == before.len(),
                self.log == old(self).log,
                forall|j: int|
                    0 <= j < i ==> received(before[j], #[trigger] self.sinks[j], Request::Close),
                forall|j: int| i <= j < self.sinks.len() ==> #[trigger] self.sinks[j] == before[j],
                forall|j: int| 0 <= j < before.len() ==> (#[trigger] before[j]).inv(),
            decreases self.sinks.len() - i,
        {
            let ghost prior = self.sinks@;
            assert(prior[i as int] == before[i as int]);
            self.sinks[i].close_scope();
            proof {
                assert(forall|j: int|
                    0 <= j < self.sinks.len() && j != i ==> #[trigger] self.sinks[j] == prior[j]);
            }
            i = i + 1;
        }
        proof {
            self.log@ = self.log@.push(SinkCall::Close);
        }
    }
}

} // verus!
