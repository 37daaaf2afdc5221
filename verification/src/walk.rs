//! Walks: what becomes of a sink over a sequence of calls.

use vstd::prelude::*;
use crate::sink::{hop, received, MetricSink, Request, SinkCall};

verus! {

/// Whether `states` are the states that a sink goes through as it receives
/// `calls`: one more state than calls, each call leading from the state at
/// its place to the next.
pub open spec fn path<S: MetricSink>(states: Seq<S>, calls: Seq<SinkCall>) -> bool {
    &&& states.len() == calls.len() + 1
    &&& forall|i: int| 0 <= i < calls.len() ==> hop(#[trigger] states[i], calls[i], states[i + 1])
}

/// Whether the sink `before` has become `after` by receiving `calls`, one
/// after the other, and giving the answers that they carry.
pub open spec fn walked<S: MetricSink>(before: S, calls: Seq<SinkCall>, after: S) -> bool {
    exists|states: Seq<S>|
        #[trigger] path(states, calls) && states[0] == before && states[calls.len() as int]
            == after
}

/// A sink that has received nothing is where it was.
pub proof fn lemma_walked_refl<S: MetricSink>(sink: S)
    ensures
        walked(sink, Seq::empty(), sink),
{
    let states = seq![sink];
    assert(path(states, Seq::<SinkCall>::empty()));
}

/// A sink that has walked through no calls is where it was.
pub proof fn lemma_walked_empty<S: MetricSink>(before: S, calls: Seq<SinkCall>, after: S)
    requires
        walked(before, calls, after),
        calls.len() == 0,
    ensures
        after == before,
{
}

/// A sink that has walked through `calls` and then hops through `call` has
/// walked through `calls` with `call` at its end.
pub proof fn lemma_walked_push<S: MetricSink>(
    before: S,
    calls: Seq<SinkCall>,
    mid: S,
    call: SinkCall,
    after: S,
)
    requires
        walked(before, calls, mid),
        hop(mid, call, after),
    ensures
        walked(before, calls.push(call), after),
{
    let states = choose|states: Seq<S>|
        #[trigger] path(states, calls) && states[0] == before && states[calls.len() as int]
            == mid;
    let longer = states.push(after);
    assert forall|i: int| 0 <= i < calls.push(call).len() implies hop(
        #[trigger] longer[i],
        calls.push(call)[i],
        longer[i + 1],
    ) by {
        if i < calls.len() {
            assert(hop(states[i], calls[i], states[i + 1]));
        }
    }
    assert(path(longer, calls.push(call)));
}

/// A sink that has walked through `calls` has them at the end of its trace,
/// after what its trace was before, and is in order if it was before.
pub proof fn lemma_walked_trace<S: MetricSink>(before: S, calls: Seq<SinkCall>, after: S)
    requires
        walked(before, calls, after),
    ensures
        after.trace() == before.trace() + calls,
        before.inv() ==> after.inv(),
    decreases calls.len(),
{
    if calls.len() == 0 {
        assert(before.trace() + calls =~= before.trace());
    } else {
        let states = choose|states: Seq<S>|
            #[trigger] path(states, calls) && states[0] == before && states[calls.len() as int]
                == after;
        let n = calls.len() - 1;
        let mid = states[n];
        assert(hop(states[n], calls[n], states[n + 1]));
        assert forall|i: int| 0 <= i < n implies hop(
            #[trigger] states.drop_last()[i],
            calls.drop_last()[i],
            states.drop_last()[i + 1],
        ) by {
            assert(hop(states[i], calls[i], states[i + 1]));
        }
        assert(path(states.drop_last(), calls.drop_last()));
        lemma_walked_trace(before, calls.drop_last(), mid);
        assert(before.trace() + calls =~= (before.trace() + calls.drop_last()).push(
            calls.last(),
        ));
    }
}

/// A sink that has walked through `first` and then through `second` has
/// walked through the one followed by the other.
pub proof fn lemma_walked_concat<S: MetricSink>(
    before: S,
    first: Seq<SinkCall>,
    mid: S,
    second: Seq<SinkCall>,
    after: S,
)
    requires
        walked(before, first, mid),
        walked(mid, second, after),
    ensures
        walked(before, first + second, after),
    decreases second.len(),
{
    if second.len() == 0 {
        assert(first + second =~= first);
        let states = choose|states: Seq<S>|
            #[trigger] path(states, second) && states[0] == mid && states[second.len() as int]
                == after;
        assert(after == mid);
    } else {
        let states = choose|states: Seq<S>|
            #[trigger] path(states, second) && states[0] == mid && states[second.len() as int]
                == after;
        let n = second.len() - 1;
        assert(hop(states[n], second[n], states[n + 1]));
        assert forall|i: int| 0 <= i < n implies hop(
            #[trigger] states.drop_last()[i],
            second.drop_last()[i],
            states.drop_last()[i + 1],
        ) by {
            assert(hop(states[i], second[i], states[i + 1]));
        }
        assert(path(states.drop_last(), second.drop_last()));
        lemma_walked_concat(before, first, mid, second.drop_last(), states[n]);
        lemma_walked_push(before, first + second.drop_last(), states[n], second[n], after);
        assert((first + second.drop_last()).push(second[n]) =~= first + second);
    }
}

/// The calls that the sink `after` has received beyond those that `before`
/// had received.
pub open spec fn since<S: MetricSink>(before: S, after: S) -> Seq<SinkCall> {
    after.trace().skip(before.trace().len() as int)
}

/// Whether the sink `before` has become `after` by receiving calls, the ones
/// that its trace has grown by, one after the other.
pub open spec fn followed<S: MetricSink>(before: S, after: S) -> bool {
    walked(before, since(before, after), after)
}

/// A sink that took one call more has followed from where it was.
pub proof fn lemma_received_followed<S: MetricSink>(before: S, after: S, request: Request)
    requires
        received(before, after, request),
    ensures
        followed(before, after),
{
    lemma_walked_refl(before);
    lemma_walked_push(before, Seq::empty(), before, after.trace().last(), after);
    assert(Seq::<SinkCall>::empty().push(after.trace().last()) =~= since(before, after));
}

/// A sink follows from itself.
pub proof fn lemma_followed_self<S: MetricSink>(sink: S)
    ensures
        followed(sink, sink),
{
    lemma_walked_refl(sink);
    assert(since(sink, sink) =~= Seq::<SinkCall>::empty());
}

/// To follow is transitive.
pub proof fn lemma_followed_on<S: MetricSink>(before: S, mid: S, after: S)
    requires
        followed(before, mid),
        followed(mid, after),
    ensures
        followed(before, after),
{
    lemma_walked_trace(before, since(before, mid), mid);
    lemma_walked_trace(mid, since(mid, after), after);
    lemma_walked_concat(before, since(before, mid), mid, since(mid, after), after);
    assert(since(before, mid) + since(mid, after) =~= since(before, after));
}

/// A sink that has walked through `calls` follows from where it was.
pub proof fn lemma_walked_followed<S: MetricSink>(before: S, calls: Seq<SinkCall>, after: S)
    requires
        walked(before, calls, after),
    ensures
        followed(before, after),
{
    lemma_walked_trace(before, calls, after);
    assert(since(before, after) =~= calls);
}

/// The state from which a sink that has walked through `calls`, which are not
/// none, took the last of them.
pub proof fn lemma_walked_last<S: MetricSink>(before: S, calls: Seq<SinkCall>, after: S) -> (mid:
    S)
    requires
        walked(before, calls, after),
        calls.len() > 0,
    ensures
        walked(before, calls.drop_last(), mid),
        hop(mid, calls.last(), after),
{
    let states = choose|states: Seq<S>|
        #[trigger] path(states, calls) && states[0] == before && states[calls.len() as int]
            == after;
    let n = calls.len() - 1;
    assert(hop(states[n], calls[n], states[n + 1]));
    assert forall|i: int| 0 <= i < n implies hop(
        #[trigger] states.drop_last()[i],
        calls.drop_last()[i],
        states.drop_last()[i + 1],
    ) by {
        assert(hop(states[i], calls[i], states[i + 1]));
    }
    assert(path(states.drop_last(), calls.drop_last()));
    states[n]
}

} // verus!
