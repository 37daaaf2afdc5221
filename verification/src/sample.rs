//! Sampling: a sink that hands on only a share of the values written to it.

use vstd::prelude::*;
use crate::metric::{Kind, Metric, MetricView};
use crate::number::{Quantity, Scale};
use crate::sink::{
    handle_dropped, last_call, received, ConfigurationError, DefinitionError, MetricSink, Request,
    SinkCall, WriteError,
};
use crate::walk::{
    followed, lemma_followed_on, lemma_followed_self, lemma_received_followed, lemma_walked_empty,
    lemma_walked_last, walked,
};

verus! {

/// Where a sampled sink gets its draws from. Nothing is asked of a draw: to
/// sample at the configured rate the draws have to be uniform over `u32`.
pub trait DrawSource {
    /// The next draw.
    fn draw(&mut self) -> u32;
}

/// Whether a rate is a ratio between zero and one.
pub open spec fn is_rate(rate: Scale) -> bool {
    rate.wf() && rate.numer <= rate.denom
}

/// Whether a value is kept at `rate` when the draw is `draw`: the draw, taken
/// as a fraction of the range of `u32`, lies below the rate.
pub open spec fn sampled(rate: Scale, draw: u32) -> bool {
    draw * rate.denom < rate.numer * 0x1_0000_0000
}

/// Decides whether a value is kept at `rate` when the draw is `draw`.
pub fn accepts(rate: Scale, draw: u32) -> (r: bool)
    ensures
        r == sampled(rate, draw),
{
    assert(draw * rate.denom <= 0xffff_ffff * 0xffff_ffff) by (nonlinear_arith)
        requires
            draw <= 0xffff_ffff,
            rate.denom <= 0xffff_ffff,
    ;
    (draw as u64) * (rate.denom as u64) < (rate.numer as u64) * 0x1_0000_0000u64
}

/// At the rate one every value is kept, at the rate zero none; and a value
/// kept at one rate is kept at every higher rate.
pub proof fn lemma_sampled(rate: Scale, higher: Scale, draw: u32)
    requires
        rate.wf(),
        higher.wf(),
        rate.numer * higher.denom <= higher.numer * rate.denom,
    ensures
        rate.numer == rate.denom ==> sampled(rate, draw),
        rate.numer == 0 ==> !sampled(rate, draw),
        sampled(rate, draw) ==> sampled(higher, draw),
{
    if rate.numer == rate.denom {
        assert(draw * rate.denom < rate.denom * 0x1_0000_0000) by (nonlinear_arith)
            requires
                rate.denom > 0,
                draw < 0x1_0000_0000,
        ;
    }
    if sampled(rate, draw) {
        let d = draw as int;
        let (n1, d1) = (rate.numer as int, rate.denom as int);
        let (n2, d2) = (higher.numer as int, higher.denom as int);
        assert(d * d2 < n2 * 0x1_0000_0000) by (nonlinear_arith)
            requires
                d * d1 < n1 * 0x1_0000_0000,
                n1 * d2 <= n2 * d1,
                d1 > 0,
                d2 > 0,
                d >= 0,
                n1 >= 0,
                n2 >= 0,
        ;
    }
}

/// The scale that makes up for sampling at `rate`: `scale` divided by the
/// rate, so that what is kept stands for what is dropped as well. Where
/// nothing is kept, or the quotient cannot be held, it is `scale` itself.
pub open spec fn corrected(scale: Scale, rate: Scale) -> Scale {
    if rate.numer > 0 && scale.numer * rate.denom <= u32::MAX && scale.denom * rate.numer
        <= u32::MAX {
        Scale {
            numer: (scale.numer * rate.denom) as u32,
            denom: (scale.denom * rate.numer) as u32,
        }
    } else {
        scale
    }
}

/// The metric as the inner sink gets to see it: with the scale that makes up
/// for the sampling.
pub open spec fn carried(metric: MetricView, rate: Scale) -> MetricView {
    MetricView { scale: corrected(metric.scale, rate), ..metric }
}

/// Computes the scale that makes up for sampling at `rate`.
pub fn correct(scale: Scale, rate: Scale) -> (r: Scale)
    ensures
        r == corrected(scale, rate),
        scale.wf() ==> r.wf(),
{
    assert(scale.numer * rate.denom <= 0xffff_ffff * 0xffff_ffff) by (nonlinear_arith)
        requires
            scale.numer <= 0xffff_ffff,
            rate.denom <= 0xffff_ffff,
    ;
    assert(scale.denom * rate.numer <= 0xffff_ffff * 0xffff_ffff) by (nonlinear_arith)
        requires
            scale.denom <= 0xffff_ffff,
            rate.numer <= 0xffff_ffff,
    ;
    let numer: u64 = (scale.numer as u64) * (rate.denom as u64);
    let denom: u64 = (scale.denom as u64) * (rate.numer as u64);
    if rate.numer > 0 && numer <= 0xffff_ffff && denom <= 0xffff_ffff {
        assert(scale.denom > 0 ==> scale.denom * rate.numer > 0) by (nonlinear_arith)
            requires
                rate.numer > 0,
        ;
        Scale { numer: numer as u32, denom: denom as u32 }
    } else {
        scale
    }
}

/// Whether `after` is what becomes of the inner sink `before` when a write
/// of `value` to `metric` meets the draw `draw` at `rate`, with `r` the
/// answer to the caller: a value that is kept goes to the inner sink, for the
/// metric with the corrected scale, and the inner sink's answer is passed on
/// as it is; a value that is not kept is dropped without a word, and the
/// inner sink is left alone.
pub open spec fn sampled_write<S: MetricSink>(
    before: S,
    after: S,
    rate: Scale,
    draw: u32,
    metric: MetricView,
    value: Quantity,
    r: Result<(), WriteError>,
) -> bool {
    if sampled(rate, draw) {
        &&& received(before, after, Request::Write(carried(metric, rate), value))
        &&& r == last_call(after).written()
    } else {
        &&& after == before
        &&& r == Ok::<(), WriteError>(())
    }
}

/// Whatever calls a sampled sink goes through, its rate stays what it was,
/// and its inner sink follows from where it was.
pub proof fn lemma_walked_sample<S: MetricSink, D: DrawSource>(
    before: SampledSink<S, D>,
    calls: Seq<SinkCall>,
    after: SampledSink<S, D>,
)
    requires
        walked(before, calls, after),
    ensures
        after.rate_view() == before.rate_view(),
        followed(before.inner(), after.inner()),
    decreases calls.len(),
{
    if calls.len() == 0 {
        lemma_walked_empty(before, calls, after);
        lemma_followed_self(before.inner());
    } else {
        let mid = lemma_walked_last(before, calls, after);
        lemma_walked_sample(before, calls.drop_last(), mid);
        if after.inner() == mid.inner() {
            lemma_followed_self(mid.inner());
        } else {
            let request = after.inner().trace().last().request();
            lemma_received_followed(mid.inner(), after.inner(), request);
        }
        lemma_followed_on(before.inner(), mid.inner(), after.inner());
    }
}

/// A sink that hands each value on to the inner sink with the probability
/// given by its rate. The inner sink gets every metric with its scale divided
/// by the rate, which is how the rate travels downstream: a sum taken there
/// under the metric's scale is corrected for the values that were dropped.
/// Scopes pass through unchanged.
pub struct SampledSink<S: MetricSink, D: DrawSource> {
    inner: S,
    source: D,
    rate: Scale,
    log: Ghost<Seq<SinkCall>>,
}

impl<S: MetricSink, D: DrawSource> SampledSink<S, D> {
    /// The inner sink.
    pub closed spec fn inner(&self) -> S {
        self.inner
    }

    /// The share of values that is handed on.
    pub closed spec fn rate_view(&self) -> Scale {
        self.rate
    }

    /// A sampler in front of `inner` that takes its draws from `source`, or
    /// an error where `rate` is not a ratio between zero and one.
    pub fn new(inner: S, source: D, rate: Scale) -> (r: Result<
        SampledSink<S, D>,
        ConfigurationError,
    >)
        requires
            inner.inv(),
        ensures
            r is Ok <==> is_rate(rate),
            r is Err ==> r->Err_0 == ConfigurationError::InvalidRate,
            r matches Ok(s) ==> s.inv() && s.inner() == inner && s.rate_view() == rate
                && s.trace().len() == 0,
    {
        if rate.denom == 0 || rate.numer > rate.denom {
            Err(ConfigurationError::InvalidRate)
        } else {
            Ok(SampledSink { inner, source, rate, log: Ghost(Seq::empty()) })
        }
    }

    /// The share of values that is handed on.
    pub fn rate(&self) -> (r: Scale)
        ensures
            r == self.rate_view(),
    {
        self.rate
    }

    /// The inner sink.
    pub fn get_ref(&self) -> (r: &S)
        ensures
            *r == self.inner(),
            self.inv() ==> r.inv(),
    {
        &self.inner
    }

    /// Gives the inner sink back.
    pub fn into_inner(self) -> (r: S)
        ensures
            r == self.inner(),
            self.inv() ==> r.inv(),
    {
        self.inner
    }

    /// Writes a value as `write` does, with `draw` in place of a draw from
    /// the source.
    pub fn write_with(&mut self, draw: u32, metric: &Metric, value: Quantity) -> (r: Result<
        (),
        WriteError,
    >)
        requires
            old(self).inv(),
        ensures
            final(self).inv(),
            final(self).rate_view() == old(self).rate_view(),
            final(self).trace() == old(self).trace().push(
                SinkCall::Write { metric: metric@, value, answer: r },
            ),
            sampled_write(
                old(self).inner(),
                final(self).inner(),
                old(self).rate_view(),
                draw,
                metric@,
                value,
                r,
            ),
    {
        let r = if accepts(self.rate, draw) {
            let seen = Metric::new(
                metric.kind,
                metric.name.clone(),
                correct(metric.scale, self.rate),
            );
            self.inner.write(&seen, value)
        } else {
            Ok(())
        };
        proof {
            self.log@ = self.log@.push(SinkCall::Write { metric: metric@, value, answer: r });
        }
        r
    }
}

impl<S: MetricSink, D: DrawSource> MetricSink for SampledSink<S, D> {
    closed spec fn inv(&self) -> bool {
        self.inner.inv() && is_rate(self.rate)
    }

    closed spec fn trace(&self) -> Seq<SinkCall> {
        self.log@
    }

    /// A write goes the way that some draw sends it; any other call goes to
    /// the inner sink, a definition with the corrected scale.
    open spec fn step(before: Self, call: SinkCall, after: Self) -> bool {
        let rate = before.rate_view();
        &&& after.rate_view() == rate
        &&& match call {
            SinkCall::Define { metric, verdict } => {
                &&& received(
                    before.inner(),
                    after.inner(),
                    Request::Define(carried(metric, rate)),
                )
                &&& verdict == last_call(after.inner()).defined()
            },
            SinkCall::Write { metric, value, answer } => exists|draw: u32|
                sampled_write(before.inner(), after.inner(), rate, draw, metric, value, answer),
            _ => received(before.inner(), after.inner(), call.request()),
        }
    }

    /// Defines the metric on the inner sink, with the corrected scale. The
    /// handle returned has the scale that was asked for.
    fn define(&mut self, kind: Kind, name: String, scale: Scale) -> (r: Result<
        Metric,
        DefinitionError,
    >)
        ensures
            received(
                old(self).inner(),
                final(self).inner(),
                Request::Define(
                    carried(MetricView { name: name@, kind, scale }, old(self).rate_view()),
                ),
            ),
            handle_dropped(r) == last_call(final(self).inner()).defined(),
            final(self).rate_view() == old(self).rate_view(),
    {
        let ghost key = MetricView { name: name@, kind, scale };
        match self.inner.define(kind, name.clone(), correct(scale, self.rate)) {
            Ok(_) => {
                proof {
                    self.log@ = self.log@.push(SinkCall::Define { metric: key, verdict: Ok(()) });
                }
                Ok(Metric::new(kind, name, scale))
            },
            Err(e) => {
                proof {
                    self.log@ = self.log@.push(SinkCall::Define { metric: key, verdict: Err(e) });
                }
                Err(e)
            },
        }
    }

    /// Opens a scope on the inner sink.
    fn open_scope(&mut self)
        ensures
            received(old(self).inner(), final(self).inner(), Request::Open),
            final(self).rate_view() == old(self).rate_view(),
    {
        self.inner.open_scope();
        proof {
            self.log@ = self.log@.push(SinkCall::Open);
        }
    }

    /// Takes a draw from the source and hands the value on if the draw lies
    /// below the rate; otherwise drops the value and reports success.
    fn write(&mut self, metric: &Metric, value: Quantity) -> (r: Result<(), WriteError>)
        ensures
            final(self).rate_view() == old(self).rate_view(),
            exists|draw: u32|
                sampled_write(
                    old(self).inner(),
                    final(self).inner(),
                    old(self).rate_view(),
                    draw,
                    metric@,
                    value,
                    r,
                ),
    {
        let draw = self.source.draw();
        let r = self.write_with(draw, metric, value);
        assert(sampled_write(
            old(self).inner(),
            self.inner(),
            old(self).rate_view(),
            draw,
            metric@,
            value,
            r,
        ));
        r
    }

    /// Closes the scope on the inner sink.
    fn close_scope(&mut self)
        ensures
            received(old(self).inner(), final(self).inner(), Request::Close),
            final(self).rate_view() == old(self).rate_view(),
    {
        self.inner.close_scope();
        proof {
            self.log@ = self.log@.push(SinkCall::Close);
        }
    }
}

} // verus!
