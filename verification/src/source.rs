//! The publisher: from extracted scores to writes on a sink.

use vstd::prelude::*;
use crate::metric::MetricView;
use crate::number::Scale;
use crate::score::{
    derive_metrics, derived_of, derived_views, DerivedView, ExtractedView, ScoreIterator,
};
use crate::sink::{MetricSink, Request, SinkCall};
use crate::walk::{followed, lemma_walked_followed, lemma_walked_push, lemma_walked_refl, walked};

verus! {

/// Everything that is published for a sequence of scores: what is published
/// for each, in order.
pub open spec fn plan_of(scores: Seq<ExtractedView>) -> Seq<DerivedView>
    decreases scores.len(),
{
    if scores.len() == 0 {
        Seq::empty()
    } else {
        plan_of(scores.drop_last()) + derived_of(scores.last())
    }
}

/// The metric that a derived metric is defined as: its name and kind, with
/// the scale one.
pub open spec fn definition_of(d: DerivedView) -> MetricView {
    MetricView { name: d.name, kind: d.kind, scale: Scale::one() }
}

/// Whether `calls` is what a sink receives when `plan` is carried out: for
/// each derived metric in turn its definition and, where the sink accepted
/// the definition, one write of its value to the handle; where the sink
/// refused, nothing more for that metric. What the sink answers to a write
/// changes nothing in what follows.
pub open spec fn carries_out(calls: Seq<SinkCall>, plan: Seq<DerivedView>) -> bool
    decreases plan.len(),
{
    if plan.len() == 0 {
        calls.len() == 0
    } else {
        let d = plan.last();
        let n = calls.len() as int;
        ||| {
            &&& n >= 1
            &&& calls[n - 1].request() == Request::Define(definition_of(d))
            &&& !calls[n - 1].accepted()
            &&& carries_out(calls.take(n - 1), plan.drop_last())
        }
        ||| {
            &&& n >= 2
            &&& calls[n - 2].request() == Request::Define(definition_of(d))
            &&& calls[n - 2].accepted()
            &&& calls[n - 1].request() == Request::Write(definition_of(d), d.value)
            &&& carries_out(calls.take(n - 2), plan.drop_last())
        }
    }
}

/// Whether a sink whose trace was `before` has since been through one publish
/// cycle for `plan`, and nothing else: a scope was opened, the plan carried
/// out, and the scope closed.
pub open spec fn published(
    before: Seq<SinkCall>,
    after: Seq<SinkCall>,
    plan: Seq<DerivedView>,
) -> bool {
    let b = before.len() as int;
    let a = after.len() as int;
    &&& a >= b + 2
    &&& after.take(b) == before
    &&& after[b] == SinkCall::Open
    &&& after[a - 1] == SinkCall::Close
    &&& carries_out(after.subrange(b + 1, a - 1), plan)
}

/// Publishes aggregated scores to a target sink.
pub struct AggregateSource<C: MetricSink> {
    target: C,
    scores: ScoreIterator,
}

impl<C: MetricSink> AggregateSource<C> {
    /// The sink that is published to.
    pub closed spec fn target_view(&self) -> C {
        self.target
    }

    /// The scores waiting to be published.
    pub closed spec fn pending(&self) -> Seq<ExtractedView> {
        self.scores@
    }

    /// The target and the scores are in order.
    pub closed spec fn inv(&self) -> bool {
        self.target.inv() && self.scores.inv()
    }

    /// A publisher of `scores` to `target`.
    pub fn new(target: C, scores: ScoreIterator) -> (r: AggregateSource<C>)
        requires
            target.inv(),
            scores.inv(),
        ensures
            r.inv(),
            r.target_view() == target,
            r.pending() == scores@,
    {
        AggregateSource { target, scores }
    }

    /// Defines and writes the metrics derived from the pending scores to the
    /// target, all of them inside one scope. A definition or a write that the
    /// target refuses is passed over, and the rest of the cycle goes on.
    pub fn publish(&mut self)
        requires
            old(self).inv(),
        ensures
            final(self).inv(),
            final(self).pending().len() == 0,
            published(
                old(self).target_view().trace(),
                final(self).target_view().trace(),
                plan_of(old(self).pending()),
            ),
            followed(old(self).target_view(), final(self).target_view()),
    {
        let ghost start = self.target;
        let ghost before = self.target.trace();
        let ghost all = self.scores@;
        self.target.open_scope();
        let ghost mut mid: Seq<SinkCall> = Seq::empty();
        let ghost mut done: int = 0;
        proof {
            assert(all.take(0) =~= Seq::<ExtractedView>::empty());
            lemma_walked_refl(start);
            lemma_walked_push(start, Seq::empty(), start, SinkCall::Open, self.target);
            assert(Seq::<SinkCall>::empty().push(SinkCall::Open) =~= seq![SinkCall::Open] + mid);
        }
        loop
            invariant
                self.target.inv(),
                self.scores.inv(),
                0 <= done <= all.len(),
                self.scores@ == all.skip(done),
                self.target.trace() == before.push(SinkCall::Open) + mid,
                walked(start, seq![SinkCall::Open] + mid, self.target),
                carries_out(mid, plan_of(all.take(done))),
            ensures
                self.scores@.len() == 0,
                done == all.len(),
            decreases self.scores@.len(),
        {
            let es = match self.scores.next() {
                Some(es) => es,
                None => {
                    break ;
                },
            };
            let derived = derive_metrics(&es);
            let ghost dv = derived_views(derived@);
            let ghost base = plan_of(all.take(done));
            assert(base + dv.take(0) =~= base);
            let mut k: usize = 0;
            while k < derived.len()
                invariant
                    self.target.inv(),
                    self.scores.inv(),
                    self.scores@ == all.skip(done + 1),
                    0 <= k <= derived.len(),
                    dv == derived_views(derived@),
                    self.target.trace() == before.push(SinkCall::Open) + mid,
                    walked(start, seq![SinkCall::Open] + mid, self.target),
                    carries_out(mid, base + dv.take(k as int)),
                decreases derived.len() - k,
            {
                let d = &derived[k];
                let ghost plan = base + dv.take(k as int);
                let ghost next_plan = base + dv.take(k as int + 1);
                proof {
                    assert(next_plan.drop_last() =~= plan);
                    assert(next_plan.last() == d@);
                }
                let ghost prior = mid;
                let ghost first = self.target;
                let ghost open = seq![SinkCall::Open];
                match self.target.define(d.kind, d.name.clone(), Scale::unit()) {
                    Ok(handle) => {
                        let ghost second = self.target;
                        let answer = self.target.write(&handle, d.value);
                        proof {
                            let defined = SinkCall::Define {
                                metric: definition_of(d@),
                                verdict: Ok(()),
                            };
                            let written = SinkCall::Write {
                                metric: definition_of(d@),
                                value: d.value,
                                answer,
                            };
                            mid = prior.push(defined).push(written);
                            assert(mid.take(mid.len() - 2) =~= prior);
                            lemma_walked_push(start, open + prior, first, defined, second);
                            assert((open + prior).push(defined) =~= open + prior.push(defined));
                            lemma_walked_push(
                                start,
                                open + prior.push(defined),
                                second,
                                written,
                                self.target,
                            );
                            assert((open + prior.push(defined)).push(written) =~= open + mid);
                        }
                    },
                    Err(e) => {
                        proof {
                            let defined = SinkCall::Define {
                                metric: definition_of(d@),
                                verdict: Err(e),
                            };
                            mid = prior.push(defined);
                            assert(mid.take(mid.len() - 1) =~= prior);
                            lemma_walked_push(start, open + prior, first, defined, self.target);
                            assert((open + prior).push(defined) =~= open + mid);
                        }
                    },
                }
                assert(self.target.trace() =~= before.push(SinkCall::Open) + mid);
                k = k + 1;
            }
            proof {
                assert(dv.take(derived.len() as int) =~= dv);
                assert(all.take(done + 1).drop_last() =~= all.take(done));
                assert(all.take(done + 1).last() == es@);
                assert(all.skip(done)[0] == all[done]);
                done = done + 1;
            }
        }
        let ghost last = self.target;
        self.target.close_scope();
        proof {
            assert(all.take(done) =~= all);
            let after = self.target.trace();
            let b = before.len() as int;
            assert(after =~= (before.push(SinkCall::Open) + mid).push(SinkCall::Close));
            assert(after.take(b) =~= before);
            assert(after.subrange(b + 1, after.len() - 1) =~= mid);
            let calls = (seq![SinkCall::Open] + mid).push(SinkCall::Close);
            lemma_walked_push(
                start,
                seq![SinkCall::Open] + mid,
                last,
                SinkCall::Close,
                self.target,
            );
            lemma_walked_followed(start, calls, self.target);
        }
    }

    /// Replaces the pending scores, for another cycle.
    pub fn refill(&mut self, scores: ScoreIterator)
        requires
            old(self).inv(),
            scores.inv(),
        ensures
            final(self).inv(),
            final(self).target_view() == old(self).target_view(),
            final(self).pending() == scores@,
    {
        self.scores = scores;
    }

    /// The target sink.
    pub fn target(&self) -> (r: &C)
        ensures
            *r == self.target_view(),
            self.inv() ==> r.inv(),
    {
        &self.target
    }

    /// Gives the target sink back.
    pub fn into_target(self) -> (r: C)
        ensures
            r == self.target_view(),
            self.inv() ==> r.inv(),
    {
        self.target
    }
}

} // verus!
