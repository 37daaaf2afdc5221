use dipstick::sample::{accepts, correct};
use dipstick::{
    AggregateScore, AggregateSink, BufferedSink, Buffering, CachedSink, Call, ConfigurationError,
    DefinitionError, DrawSource, Kind, MemorySink, Metric, MetricSink, Quantity, Registry,
    SampledSink, Scale, Scope, WriteError,
};

fn count_defines(sink: &MemorySink) -> usize {
    sink.calls().iter().filter(|c| matches!(c, Call::Define { .. })).count()
}

fn accepted_values(sink: &MemorySink) -> Vec<i128> {
    let mut out = Vec::new();
    for call in sink.calls() {
        if let Call::Write { value, answer: Ok(()), .. } = call {
            out.push(value.numer);
        }
    }
    out
}

fn shape(sink: &MemorySink) -> String {
    let mut out = String::new();
    for call in sink.calls() {
        out.push(match call {
            Call::Define { .. } => 'D',
            Call::Open => '(',
            Call::Write { .. } => 'w',
            Call::Close => ')',
        });
    }
    out
}

#[test]
fn cache_answers_a_repeated_define_itself() {
    let mut cache = CachedSink::new(MemorySink::new(), 5).unwrap();
    let first = cache.define(Kind::Counter, "blorf".to_string(), Scale::unit()).unwrap();
    let second = cache.define(Kind::Counter, "blorf".to_string(), Scale::unit()).unwrap();
    assert!(first.same_definition(&second));
    assert_eq!(second.name, "blorf");
    assert_eq!(count_defines(cache.get_ref()), 1);
    assert_eq!(cache.len(), 1);
    assert_eq!(cache.capacity(), 5);
}

#[test]
fn cache_key_includes_kind_and_scale() {
    let mut cache = CachedSink::new(MemorySink::new(), 5).unwrap();
    cache.define(Kind::Counter, "a".to_string(), Scale::unit()).unwrap();
    cache.define(Kind::Gauge, "a".to_string(), Scale::unit()).unwrap();
    cache.define(Kind::Counter, "a".to_string(), Scale::new(1, 2).unwrap()).unwrap();
    assert_eq!(count_defines(cache.get_ref()), 3);
    assert_eq!(cache.len(), 3);
}

#[test]
fn cache_holds_up_to_its_capacity() {
    let mut cache = CachedSink::new(MemorySink::new(), 3).unwrap();
    for name in ["a", "b", "c"] {
        cache.define(Kind::Counter, name.to_string(), Scale::unit()).unwrap();
    }
    for name in ["a", "b", "c", "c", "a"] {
        cache.define(Kind::Counter, name.to_string(), Scale::unit()).unwrap();
    }
    assert_eq!(count_defines(cache.get_ref()), 3);
    assert_eq!(cache.len(), 3);
}

#[test]
fn cache_evicts_the_least_recently_used() {
    let mut cache = CachedSink::new(MemorySink::new(), 2).unwrap();
    cache.define(Kind::Counter, "a".to_string(), Scale::unit()).unwrap();
    cache.define(Kind::Counter, "b".to_string(), Scale::unit()).unwrap();
    // Using `a` makes `b` the least recently used.
    cache.define(Kind::Counter, "a".to_string(), Scale::unit()).unwrap();
    cache.define(Kind::Counter, "c".to_string(), Scale::unit()).unwrap();
    assert_eq!(count_defines(cache.get_ref()), 3);
    assert_eq!(cache.len(), 2);
    cache.define(Kind::Counter, "a".to_string(), Scale::unit()).unwrap();
    assert_eq!(count_defines(cache.get_ref()), 3);
    // `b` was evicted: defining it again reaches the inner sink.
    cache.define(Kind::Counter, "b".to_string(), Scale::unit()).unwrap();
    assert_eq!(count_defines(cache.get_ref()), 4);
}

#[test]
fn cache_does_not_keep_a_refused_definition() {
    let mut cache = CachedSink::new(MemorySink::new(), 2).unwrap();
    let r = cache.define(Kind::Counter, String::new(), Scale::unit());
    assert_eq!(r.err(), Some(DefinitionError::InvalidName));
    assert_eq!(cache.len(), 0);
    cache.define(Kind::Counter, String::new(), Scale::unit()).unwrap_err();
    assert_eq!(count_defines(cache.get_ref()), 2);
}

#[test]
fn cache_needs_room() {
    let r = CachedSink::new(MemorySink::new(), 0);
    assert_eq!(r.err(), Some(ConfigurationError::ZeroCapacity));
}

#[test]
fn cache_passes_writes_through() {
    let mut cache = CachedSink::new(MemorySink::new(), 1).unwrap();
    let m = cache.define(Kind::Gauge, "g".to_string(), Scale::unit()).unwrap();
    assert_eq!(cache.write(&m, Quantity::whole(1)), Err(WriteError::ScopeClosed));
    cache.open_scope();
    assert_eq!(cache.write(&m, Quantity::whole(2)), Ok(()));
    cache.close_scope();
    let inner = cache.into_inner();
    assert_eq!(shape(&inner), "Dw(w)");
    assert_eq!(accepted_values(&inner), vec![2]);
}

#[test]
fn unlimited_buffer_flushes_on_close() {
    let mut buffer = BufferedSink::new(MemorySink::new(), Buffering::Unlimited).unwrap();
    let m = buffer.define(Kind::Counter, "c".to_string(), Scale::unit()).unwrap();
    buffer.open_scope();
    for v in 0..100 {
        assert_eq!(buffer.write(&m, Quantity::whole(v)), Ok(()));
    }
    assert_eq!(buffer.len(), 100);
    assert_eq!(shape(buffer.get_ref()), "D");
    buffer.close_scope();
    assert_eq!(buffer.len(), 0);
    let inner = buffer.into_inner();
    assert_eq!(inner.calls().len(), 103);
    assert_eq!(accepted_values(&inner), (0..100).collect::<Vec<i128>>());
    assert!(matches!(inner.calls()[1], Call::Open));
    assert!(matches!(inner.calls()[102], Call::Close));
    assert_eq!(inner.scope(), Scope::Closed);
}

#[test]
fn bounded_buffer_flushes_when_full() {
    let mut buffer = BufferedSink::new(MemorySink::new(), Buffering::Bounded(2)).unwrap();
    let m = buffer.define(Kind::Counter, "c".to_string(), Scale::unit()).unwrap();
    buffer.open_scope();
    buffer.write(&m, Quantity::whole(1)).unwrap();
    assert_eq!(shape(buffer.get_ref()), "D");
    buffer.write(&m, Quantity::whole(2)).unwrap();
    assert_eq!(shape(buffer.get_ref()), "D(ww)");
    assert_eq!(buffer.len(), 0);
    buffer.write(&m, Quantity::whole(3)).unwrap();
    assert_eq!(buffer.len(), 1);
    buffer.close_scope();
    let inner = buffer.into_inner();
    assert_eq!(shape(&inner), "D(ww)(w)");
    assert_eq!(accepted_values(&inner), vec![1, 2, 3]);
}

#[test]
fn buffer_refuses_writes_outside_a_scope() {
    let mut buffer = BufferedSink::new(MemorySink::new(), Buffering::Unlimited).unwrap();
    let m = Metric::new(Kind::Counter, "c".to_string(), Scale::unit());
    assert_eq!(buffer.write(&m, Quantity::whole(1)), Err(WriteError::ScopeClosed));
    buffer.open_scope();
    buffer.write(&m, Quantity::whole(2)).unwrap();
    buffer.close_scope();
    assert_eq!(buffer.write(&m, Quantity::whole(3)), Err(WriteError::ScopeClosed));
    assert_eq!(buffer.len(), 0);
    assert_eq!(accepted_values(buffer.get_ref()), vec![2]);
}

#[test]
fn buffer_closing_an_empty_scope_hands_on_an_empty_batch() {
    let mut buffer = BufferedSink::new(MemorySink::new(), Buffering::Bounded(4)).unwrap();
    buffer.open_scope();
    buffer.close_scope();
    assert_eq!(shape(buffer.get_ref()), "()");
}

#[test]
fn buffer_needs_room() {
    let r = BufferedSink::new(MemorySink::new(), Buffering::Bounded(0));
    assert_eq!(r.err(), Some(ConfigurationError::ZeroCapacity));
    assert!(BufferedSink::new(MemorySink::new(), Buffering::Bounded(1)).is_ok());
}

/// Draws that come round again and again.
struct Replay {
    draws: Vec<u32>,
    next: usize,
}

impl DrawSource for Replay {
    fn draw(&mut self) -> u32 {
        let d = self.draws[self.next % self.draws.len()];
        self.next += 1;
        d
    }
}

#[test]
fn sampling_decision() {
    let half = Scale::new(1, 2).unwrap();
    assert!(accepts(half, 0));
    assert!(accepts(half, 0x7fff_ffff));
    assert!(!accepts(half, 0x8000_0000));
    assert!(!accepts(half, u32::MAX));
    let all = Scale::unit();
    assert!(accepts(all, 0));
    assert!(accepts(all, u32::MAX));
    let none = Scale::new(0, 1).unwrap();
    assert!(!accepts(none, 0));
    assert!(!accepts(none, u32::MAX));
    let tenth = Scale::new(1, 10).unwrap();
    assert!(accepts(tenth, 429_496_729));
    assert!(!accepts(tenth, 429_496_730));
}

#[test]
fn sampled_sink_forwards_what_the_draw_selects() {
    let source = Replay { draws: vec![0, u32::MAX, 0x4000_0000, 0xc000_0000], next: 0 };
    let mut sink = SampledSink::new(MemorySink::new(), source, Scale::new(1, 2).unwrap()).unwrap();
    assert_eq!(sink.rate(), Scale { numer: 1, denom: 2 });
    let m = sink.define(Kind::Counter, "c".to_string(), Scale::unit()).unwrap();
    sink.open_scope();
    for v in 1..=8 {
        assert_eq!(sink.write(&m, Quantity::whole(v)), Ok(()));
    }
    sink.close_scope();
    let inner = sink.into_inner();
    assert_eq!(accepted_values(&inner), vec![1, 3, 5, 7]);
    assert_eq!(shape(&inner), "D(wwww)");
}

#[test]
fn sampled_sink_with_a_given_draw() {
    let source = Replay { draws: vec![0], next: 0 };
    let mut sink = SampledSink::new(MemorySink::new(), source, Scale::new(1, 4).unwrap()).unwrap();
    let m = Metric::new(Kind::Gauge, "g".to_string(), Scale::unit());
    // Kept, and refused by the inner sink, which has no scope open.
    assert_eq!(sink.write_with(0, &m, Quantity::whole(1)), Err(WriteError::ScopeClosed));
    // Dropped: the inner sink is not asked.
    assert_eq!(sink.write_with(u32::MAX, &m, Quantity::whole(2)), Ok(()));
    sink.open_scope();
    assert_eq!(sink.write_with(0x3fff_ffff, &m, Quantity::whole(3)), Ok(()));
    assert_eq!(sink.write_with(0x4000_0000, &m, Quantity::whole(4)), Ok(()));
    assert_eq!(shape(sink.get_ref()), "w(w");
    assert_eq!(accepted_values(sink.get_ref()), vec![3]);
}

#[test]
fn sampled_sink_needs_a_rate() {
    let bad = [Scale { numer: 1, denom: 0 }, Scale { numer: 3, denom: 2 }];
    for rate in bad {
        let r = SampledSink::new(MemorySink::new(), Replay { draws: vec![0], next: 0 }, rate);
        assert_eq!(r.err(), Some(ConfigurationError::InvalidRate));
    }
    assert!(SampledSink::new(MemorySink::new(), Replay { draws: vec![0], next: 0 }, Scale::unit())
        .is_ok());
}

#[test]
fn scope_life() {
    let mut scope = Scope::open();
    assert_eq!(scope, Scope::Open);
    assert!(!scope.is_closed());
    assert_eq!(scope.write(), Ok(()));
    assert_eq!(scope, Scope::Writing);
    assert_eq!(scope.write(), Ok(()));
    assert_eq!(scope, Scope::Writing);
    scope.close();
    assert_eq!(scope, Scope::Closed);
    assert!(scope.is_closed());
    assert_eq!(scope.write(), Err(WriteError::ScopeClosed));
    assert_eq!(scope, Scope::Closed);
    scope.close();
    assert_eq!(scope, Scope::Closed);
}

#[test]
fn decorators_stack() {
    let cache = CachedSink::new(MemorySink::new(), 4).unwrap();
    let mut sink = BufferedSink::new(cache, Buffering::Unlimited).unwrap();
    for cycle in 0..3 {
        let m = sink.define(Kind::Counter, "c".to_string(), Scale::unit()).unwrap();
        sink.open_scope();
        sink.write(&m, Quantity::whole(cycle)).unwrap();
        sink.close_scope();
    }
    let memory = sink.into_inner().into_inner();
    assert_eq!(shape(&memory), "D(w)(w)(w)");
    assert_eq!(accepted_values(&memory), vec![0, 1, 2]);
}

#[test]
fn buffer_release_hands_on_what_is_queued() {
    let mut buffer = BufferedSink::new(MemorySink::new(), Buffering::Unlimited).unwrap();
    let m = Metric::new(Kind::Counter, "c".to_string(), Scale::unit());
    buffer.open_scope();
    buffer.write(&m, Quantity::whole(1)).unwrap();
    buffer.write(&m, Quantity::whole(2)).unwrap();
    assert_eq!(shape(buffer.get_ref()), "");
    let inner = buffer.into_inner();
    assert_eq!(shape(&inner), "(ww)");
    assert_eq!(accepted_values(&inner), vec![1, 2]);
}

#[test]
fn sampling_correction() {
    let unit = Scale::unit();
    assert_eq!(correct(unit, Scale { numer: 1, denom: 10 }), Scale { numer: 10, denom: 1 });
    assert_eq!(
        correct(Scale { numer: 3, denom: 4 }, Scale { numer: 2, denom: 5 }),
        Scale { numer: 15, denom: 8 }
    );
    assert_eq!(correct(unit, unit), unit);
    // Nothing is kept at the rate zero, and nothing is corrected.
    assert_eq!(correct(unit, Scale { numer: 0, denom: 1 }), unit);
    // A quotient that cannot be held leaves the scale as it is.
    let wide = Scale { numer: u32::MAX, denom: 1 };
    assert_eq!(correct(wide, Scale { numer: 1, denom: 2 }), wide);
    let fine = Scale { numer: 1, denom: u32::MAX };
    assert_eq!(correct(fine, Scale { numer: 2, denom: 3 }), fine);
}

#[test]
fn sampled_sink_carries_the_rate_in_the_scale() {
    let source = Replay { draws: vec![0], next: 0 };
    let mut sink = SampledSink::new(MemorySink::new(), source, Scale::new(1, 4).unwrap()).unwrap();
    let m = sink.define(Kind::Counter, "c".to_string(), Scale::new(3, 2).unwrap()).unwrap();
    assert_eq!(m.scale, Scale { numer: 3, denom: 2 });
    sink.open_scope();
    sink.write(&m, Quantity::whole(1)).unwrap();
    let inner = sink.into_inner();
    let mut seen = Vec::new();
    for call in inner.calls() {
        match call {
            Call::Define { metric, .. } | Call::Write { metric, .. } => seen.push(metric.scale),
            _ => {}
        }
    }
    assert_eq!(seen, vec![Scale { numer: 12, denom: 2 }; 2]);
}

#[test]
fn sampled_sum_is_corrected_downstream() {
    let source = Replay { draws: vec![0, u32::MAX], next: 0 };
    let rollup = AggregateSink::new(Registry::new());
    let mut sink = SampledSink::new(rollup, source, Scale::new(1, 2).unwrap()).unwrap();
    let m = sink.define(Kind::Counter, "c".to_string(), Scale::unit()).unwrap();
    for _ in 0..8 {
        sink.write(&m, Quantity::whole(10)).unwrap();
    }
    let mut rollup = sink.into_inner();
    let es = rollup.scores().next().unwrap();
    // Four of eight values were kept; the sum stands for all eight.
    assert_eq!(
        es.score,
        AggregateScore::Value { hit: 4, sum: Quantity::whole(80), max: 10, min: 10 }
    );
}
