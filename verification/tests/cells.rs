use dipstick::{AggregateCell, AggregateScore, Kind, Metric, Quantity, Registry, Scale};

fn cell(kind: Kind, name: &str, scale: Scale) -> AggregateCell {
    AggregateCell::new(Metric::new(kind, name.to_string(), scale))
}

fn as_float(q: Quantity) -> f64 {
    q.numer as f64 / q.denom as f64
}

#[test]
fn counter_cell_counts_every_record() {
    let mut c = cell(Kind::Counter, "requests", Scale::unit());
    for v in [1i64, 2, 3, 4] {
        c.record(v);
    }
    assert_eq!(c.hits(), 4);
    let es = c.read_and_reset();
    assert_eq!(es.metric.name, "requests");
    assert_eq!(es.metric.kind, Kind::Counter);
    assert_eq!(
        es.score,
        AggregateScore::Value { hit: 4, sum: Quantity { numer: 10, denom: 1 }, max: 4, min: 1 }
    );
}

#[test]
fn many_records_lose_no_hit() {
    let mut c = cell(Kind::Timer, "t", Scale::unit());
    let mut expected: i128 = 0;
    for i in 0..10_000i64 {
        let v = (i * 7919) % 1000 - 500;
        expected += v as i128;
        c.record(v);
    }
    let es = c.read_and_reset();
    match es.score {
        AggregateScore::Value { hit, sum, max, min } => {
            assert_eq!(hit, 10_000);
            assert_eq!(sum, Quantity { numer: expected, denom: 1 });
            assert_eq!(max, 499);
            assert_eq!(min, -500);
            assert!(max >= min);
        }
        AggregateScore::Event { .. } => panic!("a timer has a value score"),
    }
}

#[test]
fn second_read_finds_no_hits() {
    let mut c = cell(Kind::Timer, "latency", Scale::unit());
    c.record(7);
    let first = c.read_and_reset();
    assert_eq!(first.score.hit(), 1);
    let second = c.read_and_reset();
    assert_eq!(second.score.hit(), 0);
    assert_eq!(
        second.score,
        AggregateScore::Value {
            hit: 0,
            sum: Quantity { numer: 0, denom: 1 },
            max: i64::MIN,
            min: i64::MAX
        }
    );
    assert_eq!(c.hits(), 0);
}

#[test]
fn records_after_a_read_start_afresh() {
    let mut c = cell(Kind::Gauge, "g", Scale::unit());
    c.record(100);
    c.read_and_reset();
    c.record(-3);
    let es = c.read_and_reset();
    assert_eq!(
        es.score,
        AggregateScore::Value { hit: 1, sum: Quantity { numer: -3, denom: 1 }, max: -3, min: -3 }
    );
}

#[test]
fn marker_cell_ignores_the_value() {
    let mut c = cell(Kind::Marker, "seen", Scale::unit());
    c.record(1000);
    c.record(-1000);
    let es = c.read_and_reset();
    assert_eq!(es.score, AggregateScore::Event { hit: 2 });
    assert_eq!(c.read_and_reset().score, AggregateScore::Event { hit: 0 });
}

#[test]
fn sum_is_scaled_and_extremes_are_not() {
    let scale = Scale::new(3, 2).unwrap();
    let mut c = cell(Kind::Counter, "scaled", scale);
    c.record(10);
    c.record(4);
    let es = c.read_and_reset();
    match es.score {
        AggregateScore::Value { hit, sum, max, min } => {
            assert_eq!(hit, 2);
            assert_eq!(sum, Quantity { numer: 42, denom: 2 });
            assert_eq!(as_float(sum), 21.0);
            assert_eq!(max, 10);
            assert_eq!(min, 4);
        }
        AggregateScore::Event { .. } => panic!("a counter has a value score"),
    }
}

#[test]
fn scaled_sum_is_clamped() {
    let scale = Scale::new(u32::MAX, 1).unwrap();
    assert_eq!(scale.apply(i128::MAX / 2), Quantity { numer: i128::MAX, denom: 1 });
    assert_eq!(scale.apply(i128::MIN / 2), Quantity { numer: i128::MIN, denom: 1 });
    assert_eq!(scale.apply(-2), Quantity { numer: -2 * (u32::MAX as i128), denom: 1 });
    assert_eq!(Scale::new(0, 5).unwrap().apply(i128::MIN), Quantity { numer: 0, denom: 5 });
}

#[test]
fn extreme_values_fit() {
    let mut c = cell(Kind::Gauge, "wide", Scale::unit());
    c.record(i64::MAX);
    c.record(i64::MAX);
    c.record(i64::MIN);
    let es = c.read_and_reset();
    assert_eq!(
        es.score,
        AggregateScore::Value {
            hit: 3,
            sum: Quantity { numer: i64::MAX as i128 - 1, denom: 1 },
            max: i64::MAX,
            min: i64::MIN
        }
    );
}

#[test]
fn scale_needs_a_denominator() {
    assert_eq!(Scale::new(1, 0), None);
    assert_eq!(Scale::new(0, 1), Some(Scale { numer: 0, denom: 1 }));
    assert_eq!(Scale::unit(), Scale { numer: 1, denom: 1 });
}

#[test]
fn quantity_division() {
    let q = Quantity { numer: 60, denom: 1 };
    assert_eq!(q.per(3), Some(Quantity { numer: 60, denom: 3 }));
    assert_eq!(as_float(q.per(3).unwrap()), 20.0);
    assert_eq!(q.per(0), None);
    assert_eq!(Quantity { numer: 1, denom: u128::MAX }.per(2), None);
    assert_eq!(Quantity::whole(-4), Quantity { numer: -4, denom: 1 });
}

#[test]
fn metric_identity_is_name_and_kind() {
    let a = Metric::new(Kind::Counter, "a".to_string(), Scale::unit());
    let scaled = Metric::new(Kind::Counter, "a".to_string(), Scale::new(1, 10).unwrap());
    let gauge = Metric::new(Kind::Gauge, "a".to_string(), Scale::unit());
    let b = Metric::new(Kind::Counter, "b".to_string(), Scale::unit());
    assert!(a.same_identity(&scaled));
    assert!(!a.same_definition(&scaled));
    assert!(a.same_definition(&a.clone()));
    assert!(!a.same_identity(&gauge));
    assert!(!a.same_identity(&b));
    assert!(a.is_named(Kind::Counter, &"a".to_string()));
    assert!(!a.is_named(Kind::Counter, &"b".to_string()));
    assert!(!a.is_named(Kind::Timer, &"a".to_string()));
}

#[test]
fn markers_a_a_b() {
    let mut registry = Registry::new();
    let a = registry.define(Kind::Marker, "A".to_string(), Scale::unit());
    let b = registry.define(Kind::Marker, "B".to_string(), Scale::unit());
    for id in [a, a, b] {
        assert!(registry.record(id, 1));
    }
    let mut first = registry.scores();
    assert_eq!(first.remaining(), 2);
    let score_a = first.next().unwrap();
    let score_b = first.next().unwrap();
    assert!(first.next().is_none());
    assert_eq!(score_a.metric.name, "A");
    assert_eq!(score_a.score, AggregateScore::Event { hit: 2 });
    assert_eq!(score_b.metric.name, "B");
    assert_eq!(score_b.score, AggregateScore::Event { hit: 1 });
    let mut second = registry.scores();
    assert_eq!(second.next().unwrap().score, AggregateScore::Event { hit: 0 });
    assert_eq!(second.next().unwrap().score, AggregateScore::Event { hit: 0 });
    assert!(second.next().is_none());
}

#[test]
fn registry_keeps_one_cell_per_metric() {
    let mut registry = Registry::new();
    assert_eq!(registry.len(), 0);
    let a = registry.define(Kind::Counter, "a".to_string(), Scale::unit());
    let g = registry.define(Kind::Gauge, "a".to_string(), Scale::unit());
    let again = registry.define(Kind::Counter, "a".to_string(), Scale::new(5, 1).unwrap());
    assert_eq!((a, g, again), (0, 1, 0));
    assert_eq!(registry.len(), 2);
    // The cell keeps the scale that it was first defined with.
    assert_eq!(registry.cell(a).unwrap().metric().scale, Scale::unit());
    assert_eq!(registry.find(Kind::Counter, &"a".to_string()), Some(0));
    assert_eq!(registry.find(Kind::Gauge, &"a".to_string()), Some(1));
    assert_eq!(registry.find(Kind::Timer, &"a".to_string()), None);
    assert_eq!(registry.find(Kind::Counter, &"b".to_string()), None);
    assert!(registry.cell(2).is_none());
}

#[test]
fn registry_records_by_index() {
    let mut registry = Registry::new();
    let a = registry.define(Kind::Counter, "a".to_string(), Scale::unit());
    let b = registry.define(Kind::Counter, "b".to_string(), Scale::unit());
    assert!(registry.record(a, 5));
    assert!(registry.record(a, 6));
    assert!(!registry.record(7, 1));
    assert_eq!(registry.cell(a).unwrap().hits(), 2);
    assert_eq!(registry.cell(b).unwrap().hits(), 0);
    let es = registry.read_and_reset(a).unwrap();
    assert_eq!(
        es.score,
        AggregateScore::Value { hit: 2, sum: Quantity { numer: 11, denom: 1 }, max: 6, min: 5 }
    );
    assert_eq!(registry.cell(a).unwrap().hits(), 0);
    assert!(registry.read_and_reset(2).is_none());
}

#[test]
fn order_of_recording_does_not_matter() {
    let values = [5i64, -2, 9, 9, 0, 7];
    let mut forward = cell(Kind::Counter, "c", Scale::new(2, 3).unwrap());
    let mut backward = cell(Kind::Counter, "c", Scale::new(2, 3).unwrap());
    let mut shuffled = cell(Kind::Counter, "c", Scale::new(2, 3).unwrap());
    for v in values {
        forward.record(v);
    }
    for v in values.iter().rev() {
        backward.record(*v);
    }
    for i in [3usize, 0, 5, 1, 4, 2] {
        shuffled.record(values[i]);
    }
    let expected =
        AggregateScore::Value { hit: 6, sum: Quantity { numer: 56, denom: 3 }, max: 9, min: -2 };
    assert_eq!(forward.read_and_reset().score, expected);
    assert_eq!(backward.read_and_reset().score, expected);
    assert_eq!(shuffled.read_and_reset().score, expected);
}
