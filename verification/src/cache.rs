//! Caching: a sink that remembers the metrics it has defined.

use vstd::prelude::*;
use crate::metric::{Kind, Metric, MetricView};
use crate::number::{Quantity, Scale};
use crate::sink::{
    handle_dropped, last_call, received, ConfigurationError, DefinitionError, MetricSink, Request,
    SinkCall, WriteError,
};
use crate::walk::{
    followed, lemma_followed_on, lemma_followed_self, lemma_received_followed, lemma_walked_empty,
    lemma_walked_last, walked,
};

verus! {

/// Whether no metric occurs twice in `keys`.
pub open spec fn distinct(keys: Seq<MetricView>) -> bool {
    forall|i: int, j: int| 0 <= i < j < keys.len() ==> keys[i] != keys[j]
}

/// Whether a cache that holds `keys` answers a definition of `key` itself.
pub open spec fn cached(keys: Seq<MetricView>, key: MetricView) -> bool {
    keys.contains(key)
}

/// The cached metrics after the one at `i` was used: it moves to the end,
/// where the most recently used stands.
pub open spec fn touch(keys: Seq<MetricView>, i: int) -> Seq<MetricView> {
    keys.remove(i).push(keys[i])
}

/// The cached metrics after `key` was added to a cache that holds at most
/// `capacity`: where the cache is full the first, which is the least recently
/// used, leaves; `key` goes to the end.
pub open spec fn remember(keys: Seq<MetricView>, key: MetricView, capacity: nat) -> Seq<
    MetricView,
> {
    if keys.len() >= capacity {
        keys.skip(1).push(key)
    } else {
        keys.push(key)
    }
}

/// Using a cached metric keeps the cache's metrics, distinct, and as many.
pub proof fn lemma_touch(keys: Seq<MetricView>, i: int)
    requires
        distinct(keys),
        0 <= i < keys.len(),
    ensures
        distinct(touch(keys, i)),
        touch(keys, i).len() == keys.len(),
        touch(keys, i).last() == keys[i],
        forall|k: MetricView| touch(keys, i).contains(k) <==> keys.contains(k),
{
    let t = touch(keys, i);
    assert forall|a: int, b: int| 0 <= a < b < t.len() implies t[a] != t[b] by {
        let a0 = if a < i {
            a
        } else {
            a + 1
        };
        let b0 = if b == t.len() - 1 {
            i
        } else if b < i {
            b
        } else {
            b + 1
        };
        assert(t[a] == keys[a0] && t[b] == keys[b0]);
        assert(a0 != b0);
    }
    assert forall|k: MetricView| t.contains(k) <==> keys.contains(k) by {
        if t.contains(k) {
            let a = choose|a: int| 0 <= a < t.len() && t[a] == k;
            let a0 = if a == t.len() - 1 {
                i
            } else if a < i {
                a
            } else {
                a + 1
            };
            assert(keys[a0] == k);
        }
        if keys.contains(k) {
            let a0 = choose|a0: int| 0 <= a0 < keys.len() && keys[a0] == k;
            let a = if a0 == i {
                t.len() - 1
            } else if a0 < i {
                a0
            } else {
                a0 - 1
            };
            assert(t[a] == k);
        }
    }
}

/// Adding a new metric to a cache puts it last, keeps the cache within its
/// capacity and its metrics distinct. A cache with room keeps every metric
/// it had. A full cache loses its first metric, the one least recently used,
/// and no other.
pub proof fn lemma_remember(keys: Seq<MetricView>, key: MetricView, capacity: nat)
    requires
        distinct(keys),
        !keys.contains(key),
        keys.len() <= capacity,
        capacity > 0,
    ensures
        distinct(remember(keys, key, capacity)),
        remember(keys, key, capacity).len() <= capacity,
        remember(keys, key, capacity).last() == key,
        remember(keys, key, capacity).contains(key),
        keys.len() < capacity ==> forall|k: MetricView|
            keys.contains(k) ==> remember(keys, key, capacity).contains(k),
        keys.len() == capacity ==> !remember(keys, key, capacity).contains(keys[0]),
        keys.len() == capacity ==> forall|i: int|
            1 <= i < keys.len() ==> remember(keys, key, capacity).contains(#[trigger] keys[i]),
{
    let a = remember(keys, key, capacity);
    assert(a[a.len() - 1] == key);
    assert forall|i: int, j: int| 0 <= i < j < a.len() implies a[i] != a[j] by {
        if keys.len() >= capacity {
            assert(a[i] == keys[i + 1]);
            if j < a.len() - 1 {
                assert(a[j] == keys[j + 1]);
            }
        } else {
            assert(a[i] == keys[i]);
        }
    }
    if keys.len() < capacity {
        assert forall|k: MetricView| keys.contains(k) implies a.contains(k) by {
            let i = choose|i: int| 0 <= i < keys.len() && keys[i] == k;
            assert(a[i] == k);
        }
    } else {
        if a.contains(keys[0]) {
            let i = choose|i: int| 0 <= i < a.len() && a[i] == keys[0];
            if i < a.len() - 1 {
                assert(a[i] == keys[i + 1]);
            }
        }
        assert forall|i: int| 1 <= i < keys.len() implies a.contains(#[trigger] keys[i]) by {
            assert(a[i - 1] == keys[i]);
        }
    }
}

/// The cached metrics after `key` was defined with success: used where the
/// cache held it, added where it did not.
pub open spec fn after_define(keys: Seq<MetricView>, key: MetricView, capacity: nat) -> Seq<
    MetricView,
> {
    if cached(keys, key) {
        touch(keys, keys.index_of(key))
    } else {
        remember(keys, key, capacity)
    }
}

/// The cached metrics after each of `defined` was defined with success, first
/// to last.
pub open spec fn after_defines(
    keys: Seq<MetricView>,
    defined: Seq<MetricView>,
    capacity: nat,
) -> Seq<MetricView>
    decreases defined.len(),
{
    if defined.len() == 0 {
        keys
    } else {
        after_define(after_defines(keys, defined.drop_last(), capacity), defined.last(), capacity)
    }
}

/// A metric that was defined with success is in the cache, so that to define
/// it again at once is answered from the cache and leaves the cache as it is.
pub proof fn lemma_define_twice(keys: Seq<MetricView>, key: MetricView, capacity: nat)
    requires
        distinct(keys),
        keys.len() <= capacity,
        capacity > 0,
    ensures
        cached(after_define(keys, key, capacity), key),
        after_define(after_define(keys, key, capacity), key, capacity) == after_define(
            keys,
            key,
            capacity,
        ),
{
    let once = after_define(keys, key, capacity);
    if keys.contains(key) {
        lemma_touch(keys, keys.index_of(key));
    } else {
        lemma_remember(keys, key, capacity);
    }
    assert(once.last() == key);
    assert(distinct(once));
    let i = once.index_of(key);
    assert(i == once.len() - 1);
    assert(touch(once, i) =~= once);
}

/// An empty cache in which distinct metrics were defined holds the last of
/// them, as many as it has room for, in the order of their definition: all
/// of them up to its capacity, and beyond it no longer the earliest, so that
/// to define one of those again calls the inner sink afresh.
pub proof fn lemma_cache_holds_latest(defined: Seq<MetricView>, capacity: nat)
    requires
        distinct(defined),
        capacity > 0,
    ensures
        after_defines(Seq::empty(), defined, capacity) == defined.skip(
            if defined.len() > capacity {
                defined.len() - capacity
            } else {
                0
            },
        ),
    decreases defined.len(),
{
    if defined.len() > 0 {
        let front = defined.drop_last();
        let key = defined.last();
        lemma_cache_holds_latest(front, capacity);
        let held = after_defines(Seq::empty(), front, capacity);
        let start: int = if front.len() > capacity {
            front.len() - capacity
        } else {
            0
        };
        assert(held == front.skip(start));
        if held.contains(key) {
            let i = choose|i: int| 0 <= i < held.len() && held[i] == key;
            assert(defined[start + i] == key);
        }
        assert(after_define(held, key, capacity) =~= defined.skip(
            if defined.len() > capacity {
                defined.len() - capacity
            } else {
                0
            },
        ));
    }
}

/// Whatever calls a cache goes through, its capacity stays what it was, and
/// its inner sink follows from where it was.
pub proof fn lemma_walked_cache<S: MetricSink>(
    before: CachedSink<S>,
    calls: Seq<SinkCall>,
    after: CachedSink<S>,
)
    requires
        walked(before, calls, after),
    ensures
        after.limit() == before.limit(),
        followed(before.inner(), after.inner()),
    decreases calls.len(),
{
    if calls.len() == 0 {
        lemma_walked_empty(before, calls, after);
        lemma_followed_self(before.inner());
    } else {
        let mid = lemma_walked_last(before, calls, after);
        lemma_walked_cache(before, calls.drop_last(), mid);
        if after.inner() == mid.inner() {
            lemma_followed_self(mid.inner());
        } else {
            lemma_received_followed(mid.inner(), after.inner(), calls.last().request());
        }
        lemma_followed_on(before.inner(), mid.inner(), after.inner());
    }
}

/// A sink that keeps the handles of the metrics most recently defined
/// through it, up to a fixed number of them. To define a metric that it holds
/// costs the inner sink nothing.
pub struct CachedSink<S: MetricSink> {
    inner: S,
    capacity: usize,
    entries: Vec<Metric>,
    log: Ghost<Seq<SinkCall>>,
}

impl<S: MetricSink> CachedSink<S> {
    /// The inner sink.
    pub closed spec fn inner(&self) -> S {
        self.inner
    }

    /// The cached metrics, the least recently used first.
    pub closed spec fn keys(&self) -> Seq<MetricView> {
        self.entries@.map_values(|m: Metric| m@)
    }

    /// The number of metrics that the cache holds at most.
    pub closed spec fn limit(&self) -> nat {
        self.capacity as nat
    }

    /// A cache of at most `capacity` metrics in front of `inner`, or an error
    /// where `capacity` is zero.
    pub fn new(inner: S, capacity: usize) -> (r: Result<CachedSink<S>, ConfigurationError>)
        requires
            inner.inv(),
        ensures
            r is Ok <==> capacity > 0,
            r is Err ==> r->Err_0 == ConfigurationError::ZeroCapacity,
            r matches Ok(c) ==> c.inv() && c.inner() == inner && c.limit() == capacity
                && c.keys().len() == 0 && c.trace().len() == 0,
    {
        if capacity == 0 {
            Err(ConfigurationError::ZeroCapacity)
        } else {
            Ok(CachedSink { inner, capacity, entries: Vec::new(), log: Ghost(Seq::empty()) })
        }
    }

    /// The number of metrics that the cache holds at most.
    pub fn capacity(&self) -> (r: usize)
        ensures
            r == self.limit(),
    {
        self.capacity
    }

    /// The number of metrics in the cache.
    pub fn len(&self) -> (r: usize)
        ensures
            r == self.keys().len(),
    {
        self.entries.len()
    }

    /// The inner sink.
    pub fn get_ref(&self) -> (r: &S)
        ensures
            *r == self.inner(),
            self.inv() ==> r.inv(),
    {
        &self.inner
    }

    /// Gives the inner sink back.
    pub fn into_inner(self) -> (r: S)
        ensures
            r == self.inner(),
            self.inv() ==> r.inv(),
    {
        self.inner
    }

    /// The place of `key` in the cache, if it is there.
    fn position(&self, key: &Metric) -> (r: Option<usize>)
        ensures
            r is Some <==> self.keys().contains(key@),
            r matches Some(i) ==> i < self.keys().len() && self.keys()[i as int] == key@,
    {
        let mut i: usize = 0;
        while i < self.entries.len()
            invariant
                0 <= i <= self.entries.len(),
                forall|j: int| 0 <= j < i ==> self.keys()[j] != key@,
            decreases self.entries.len() - i,
        {
            if self.entries[i].same_definition(key) {
                assert(self.keys()[i as int] == key@);
                return Some(i);
            }
            i = i + 1;
        }
        None
    }
}

impl<S: MetricSink> MetricSink for CachedSink<S> {
    closed spec fn inv(&self) -> bool {
        &&& self.inner.inv()
        &&& self.capacity > 0
        &&& self.entries.len() <= self.capacity
        &&& distinct(self.keys())
    }

    closed spec fn trace(&self) -> Seq<SinkCall> {
        self.log@
    }

    /// A definition that the cache holds changes the cache alone; any other
    /// call goes to the inner sink, whose answer is passed on, and a
    /// definition that it accepts is added to the cache.
    open spec fn step(before: Self, call: SinkCall, after: Self) -> bool {
        &&& after.limit() == before.limit()
        &&& match call {
            SinkCall::Define { metric, verdict } => {
                if cached(before.keys(), metric) {
                    &&& verdict == Ok::<(), DefinitionError>(())
                    &&& after.inner() == before.inner()
                    &&& after.keys() == after_define(before.keys(), metric, before.limit())
                } else {
                    &&& received(before.inner(), after.inner(), call.request())
                    &&& verdict == last_call(after.inner()).defined()
                    &&& after.keys() == if verdict is Ok {
                        after_define(before.keys(), metric, before.limit())
                    } else {
                        before.keys()
                    }
                }
            },
            SinkCall::Write { answer, .. } => {
                &&& received(before.inner(), after.inner(), call.request())
                &&& answer == last_call(after.inner()).written()
                &&& after.keys() == before.keys()
            },
            _ => {
                &&& received(before.inner(), after.inner(), call.request())
                &&& after.keys() == before.keys()
            },
        }
    }

    /// Defines a metric. One that the cache holds is answered from the cache,
    /// with the handle that the inner sink once gave, and becomes the most
    /// recently used; the inner sink is not called. Any other is defined on
    /// the inner sink and, where that succeeds, added to the cache.
    fn define(&mut self, kind: Kind, name: String, scale: Scale) -> (r: Result<
        Metric,
        DefinitionError,
    >)
        ensures
            final(self).limit() == old(self).limit(),
            ({
                let key = MetricView { name: name@, kind, scale };
                let keys = old(self).keys();
                if cached(keys, key) {
                    &&& r is Ok
                    &&& final(self).inner() == old(self).inner()
                    &&& final(self).keys() == after_define(keys, key, old(self).limit())
                } else {
                    &&& received(old(self).inner(), final(self).inner(), Request::Define(key))
                    &&& handle_dropped(r) == last_call(final(self).inner()).defined()
                    &&& final(self).keys() == if r is Ok {
                        after_define(keys, key, old(self).limit())
                    } else {
                        keys
                    }
                }
            }),
    {
        let ghost keys = self.keys();
        let ghost key = MetricView { name: name@, kind, scale };
        let wanted = Metric::new(kind, name, scale);
        match self.position(&wanted) {
            Some(i) => {
                let entry = self.entries.remove(i);
                let handle = entry.clone();
                self.entries.push(entry);
                proof {
                    assert(keys.index_of(key) == i);
                    assert(self.keys() =~= touch(keys, i as int));
                    lemma_touch(keys, i as int);
                    self.log@ = self.log@.push(SinkCall::Define { metric: key, verdict: Ok(()) });
                }
                Ok(handle)
            },
            None => {
                let outcome = self.inner.define(kind, wanted.name, scale);
                match outcome {
                    Ok(handle) => {
                        if self.entries.len() >= self.capacity {
                            self.entries.remove(0);
                        }
                        self.entries.push(handle.clone());
                        proof {
                            assert(self.keys() =~= remember(keys, key, self.capacity as nat));
                            lemma_remember(keys, key, self.capacity as nat);
                            self.log@ = self.log@.push(
                                SinkCall::Define { metric: key, verdict: Ok(()) },
                            );
                        }
                        Ok(handle)
                    },
                    Err(e) => {
                        proof {
                            self.log@ = self.log@.push(
                                SinkCall::Define { metric: key, verdict: Err(e) },
                            );
                        }
                        Err(e)
                    },
                }
            },
        }
    }

    /// Opens a scope on the inner sink.
    fn open_scope(&mut self)
        ensures
            received(old(self).inner(), final(self).inner(), Request::Open),
            final(self).keys() == old(self).keys(),
            final(self).limit() == old(self).limit(),
    {
        self.inner.open_scope();
        proof {
            self.log@ = self.log@.push(SinkCall::Open);
        }
    }

    /// Writes the value to the inner sink.
    fn write(&mut self, metric: &Metric, value: Quantity) -> (r: Result<(), WriteError>)
        ensures
            received(old(self).inner(), final(self).inner(), Request::Write(metric@, value)),
            r == last_call(final(self).inner()).written(),
            final(self).keys() == old(self).keys(),
            final(self).limit() == old(self).limit(),
    {
        let r = self.inner.write(metric, value);
        proof {
            self.log@ = self.log@.push(SinkCall::Write { metric: metric@, value, answer: r });
        }
        r
    }

    /// Closes the scope on the inner sink.
    fn close_scope(&mut self)
        ensures
            received(old(self).inner(), final(self).inner(), Request::Close),
            final(self).keys() == old(self).keys(),
            final(self).limit() == old(self).limit(),
    {
        self.inner.close_scope();
        proof {
            self.log@ = self.log@.push(SinkCall::Close);
        }
    }
}

} // verus!
