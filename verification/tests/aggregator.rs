use dipstick::{
    AggregateScore, AggregateSink, AggregateSource, CachedSink, Call, Kind, MemorySink, Metric,
    MetricSink, Quantity, Registry, Scale, WriteError,
};

#[test]
fn aggregating_sink_records_what_is_written() {
    let mut sink = AggregateSink::new(Registry::new());
    let hits = sink.define(Kind::Counter, "hits".to_string(), Scale::unit()).unwrap();
    let seen = sink.define(Kind::Marker, "seen".to_string(), Scale::unit()).unwrap();
    // No scope is needed.
    for v in [3, 5] {
        assert_eq!(sink.write(&hits, Quantity::whole(v)), Ok(()));
    }
    sink.open_scope();
    assert_eq!(sink.write(&seen, Quantity::whole(1)), Ok(()));
    sink.close_scope();
    assert_eq!(sink.write(&hits, Quantity::whole(-1)), Ok(()));
    assert_eq!(sink.registry().len(), 2);
    let mut scores = sink.scores();
    assert_eq!(
        scores.next().unwrap().score,
        AggregateScore::Value { hit: 3, sum: Quantity::whole(7), max: 5, min: -1 }
    );
    assert_eq!(scores.next().unwrap().score, AggregateScore::Event { hit: 1 });
    assert!(scores.next().is_none());
    assert_eq!(sink.registry().cell(0).unwrap().hits(), 0);
}

#[test]
fn aggregating_sink_defines_a_metric_once() {
    let mut sink = AggregateSink::new(Registry::new());
    let a = sink.define(Kind::Gauge, "a".to_string(), Scale::unit()).unwrap();
    sink.write(&a, Quantity::whole(1)).unwrap();
    let again = sink.define(Kind::Gauge, "a".to_string(), Scale::unit()).unwrap();
    assert!(a.same_definition(&again));
    let registry = sink.into_registry();
    assert_eq!(registry.len(), 1);
    assert_eq!(registry.cell(0).unwrap().hits(), 1);
}

#[test]
fn aggregating_sink_refuses_what_it_cannot_record() {
    let mut sink = AggregateSink::new(Registry::new());
    let stranger = Metric::new(Kind::Counter, "x".to_string(), Scale::unit());
    assert_eq!(sink.write(&stranger, Quantity::whole(1)), Err(WriteError::Undefined));
    let c = sink.define(Kind::Counter, "c".to_string(), Scale::unit()).unwrap();
    let half = Quantity { numer: 1, denom: 2 };
    assert_eq!(sink.write(&c, half), Err(WriteError::Unrepresentable));
    let wide = Quantity::whole(i64::MAX as i128 + 1);
    assert_eq!(sink.write(&c, wide), Err(WriteError::Unrepresentable));
    assert_eq!(sink.write(&stranger, half), Err(WriteError::Undefined));
    assert_eq!(sink.write(&c, Quantity::whole(i64::MIN as i128)), Ok(()));
    assert_eq!(sink.registry().cell(0).unwrap().hits(), 1);
    // A metric is found by name and kind, whatever the scale of the handle.
    let other_scale = Metric::new(Kind::Counter, "c".to_string(), Scale::new(1, 9).unwrap());
    assert_eq!(sink.write(&other_scale, Quantity::whole(2)), Ok(()));
    let wrong_kind = Metric::new(Kind::Timer, "c".to_string(), Scale::unit());
    assert_eq!(sink.write(&wrong_kind, Quantity::whole(2)), Err(WriteError::Undefined));
}

#[test]
fn from_handle_to_backend() {
    let mut rollup = AggregateSink::new(Registry::new());
    let load = rollup.define(Kind::Gauge, "load".to_string(), Scale::unit()).unwrap();
    let target = CachedSink::new(MemorySink::new(), 8).unwrap();
    let mut source = AggregateSource::new(target, rollup.scores());
    for cycle in 0..3 {
        for v in [10, 20, 30] {
            rollup.write(&load, Quantity::whole(v + cycle)).unwrap();
        }
        source.refill(rollup.scores());
        source.publish();
    }
    let memory = source.into_target().into_inner();
    let mut defines = 0;
    let mut averages = Vec::new();
    for call in memory.calls() {
        match call {
            Call::Define { .. } => defines += 1,
            Call::Write { metric, value, answer: Ok(()) } if metric.name == "load.avg" => {
                averages.push(value.numer as f64 / value.denom as f64)
            }
            _ => {}
        }
    }
    // Three derived metrics, each defined on the backend once for all cycles.
    assert_eq!(defines, 3);
    assert_eq!(averages, vec![20.0, 21.0, 22.0]);
}
