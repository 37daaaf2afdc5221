use dipstick::score::derive_metrics;
use dipstick::{
    AggregateScore, AggregateSource, Backend, BackendSink, Call, DefinitionError, ExtractedScore,
    Kind, MemorySink, Metric, Quantity, Registry, Scale, ScoreIterator, WriteError,
};

fn as_float(q: Quantity) -> f64 {
    q.numer as f64 / q.denom as f64
}

fn accepted_writes(sink: &MemorySink) -> Vec<(String, Kind, Quantity)> {
    let mut out = Vec::new();
    for call in sink.calls() {
        if let Call::Write { metric, value, answer: Ok(()) } = call {
            out.push((metric.name.clone(), metric.kind, *value));
        }
    }
    out
}

fn publish_cycle(registry: &mut Registry) -> MemorySink {
    let mut source = AggregateSource::new(MemorySink::new(), registry.scores());
    source.publish();
    source.into_target()
}

#[test]
fn gauge_publishes_avg_max_min() {
    let mut registry = Registry::new();
    let g = registry.define(Kind::Gauge, "load".to_string(), Scale::unit());
    for v in [10, 20, 30] {
        registry.record(g, v);
    }
    let sink = publish_cycle(&mut registry);
    let written = accepted_writes(&sink);
    assert_eq!(
        written,
        vec![
            ("load.avg".to_string(), Kind::Gauge, Quantity { numer: 60, denom: 3 }),
            ("load.max".to_string(), Kind::Gauge, Quantity::whole(30)),
            ("load.min".to_string(), Kind::Gauge, Quantity::whole(10)),
        ]
    );
    assert_eq!(as_float(written[0].2), 20.0);
    assert!(written.iter().all(|w| w.0 != "load.sum"));
}

#[test]
fn gauge_average_is_not_truncated() {
    let mut registry = Registry::new();
    let g = registry.define(Kind::Gauge, "g".to_string(), Scale::unit());
    registry.record(g, 1);
    registry.record(g, 2);
    let written = accepted_writes(&publish_cycle(&mut registry));
    assert_eq!(written[0].2, Quantity { numer: 3, denom: 2 });
    assert_eq!(as_float(written[0].2), 1.5);
}

#[test]
fn counter_publishes_sum_max_min() {
    let mut registry = Registry::new();
    let c = registry.define(Kind::Counter, "hits".to_string(), Scale::unit());
    for v in [1, 2, 3, 4] {
        registry.record(c, v);
    }
    let written = accepted_writes(&publish_cycle(&mut registry));
    assert_eq!(
        written,
        vec![
            ("hits.sum".to_string(), Kind::Counter, Quantity::whole(10)),
            ("hits.max".to_string(), Kind::Gauge, Quantity::whole(4)),
            ("hits.min".to_string(), Kind::Gauge, Quantity::whole(1)),
        ]
    );
}

#[test]
fn timer_sum_keeps_its_kind() {
    let mut registry = Registry::new();
    let t = registry.define(Kind::Timer, "wait".to_string(), Scale::new(1, 1000).unwrap());
    registry.record(t, 1500);
    registry.record(t, 500);
    let written = accepted_writes(&publish_cycle(&mut registry));
    assert_eq!(
        written,
        vec![
            ("wait.sum".to_string(), Kind::Timer, Quantity { numer: 2000, denom: 1000 }),
            ("wait.max".to_string(), Kind::Gauge, Quantity::whole(1500)),
            ("wait.min".to_string(), Kind::Gauge, Quantity::whole(500)),
        ]
    );
    assert_eq!(as_float(written[0].2), 2.0);
}

#[test]
fn zero_hit_cells_publish_nothing_but_markers() {
    let mut registry = Registry::new();
    registry.define(Kind::Counter, "c".to_string(), Scale::unit());
    registry.define(Kind::Gauge, "g".to_string(), Scale::unit());
    registry.define(Kind::Timer, "t".to_string(), Scale::unit());
    registry.define(Kind::Marker, "m".to_string(), Scale::unit());
    let sink = publish_cycle(&mut registry);
    assert_eq!(
        accepted_writes(&sink),
        vec![("m.hit".to_string(), Kind::Counter, Quantity::whole(0))]
    );
    // One scope around the whole cycle.
    assert_eq!(sink.calls().len(), 4);
    assert!(matches!(sink.calls()[0], Call::Open));
    assert!(matches!(sink.calls()[1], Call::Define { verdict: Ok(()), .. }));
    assert!(matches!(sink.calls()[3], Call::Close));
}

#[test]
fn marker_publishes_its_hits() {
    let mut registry = Registry::new();
    let m = registry.define(Kind::Marker, "seen".to_string(), Scale::unit());
    registry.record(m, 0);
    registry.record(m, 0);
    let written = accepted_writes(&publish_cycle(&mut registry));
    assert_eq!(written, vec![("seen.hit".to_string(), Kind::Counter, Quantity::whole(2))]);
    let written = accepted_writes(&publish_cycle(&mut registry));
    assert_eq!(written, vec![("seen.hit".to_string(), Kind::Counter, Quantity::whole(0))]);
}

#[test]
fn derived_metrics_are_defined_with_unit_scale() {
    let mut registry = Registry::new();
    let c = registry.define(Kind::Counter, "c".to_string(), Scale::new(7, 3).unwrap());
    registry.record(c, 3);
    let sink = publish_cycle(&mut registry);
    let mut defined = 0;
    for call in sink.calls() {
        if let Call::Define { metric, verdict } = call {
            assert_eq!(*verdict, Ok(()));
            assert_eq!(metric.scale, Scale::unit());
            defined += 1;
        }
    }
    assert_eq!(defined, 3);
    assert_eq!(accepted_writes(&sink)[0].2, Quantity { numer: 21, denom: 3 });
}

#[test]
fn publish_goes_through_the_cells_in_order_within_one_scope() {
    let mut registry = Registry::new();
    let a = registry.define(Kind::Counter, "a".to_string(), Scale::unit());
    let b = registry.define(Kind::Gauge, "b".to_string(), Scale::unit());
    registry.record(a, 1);
    registry.record(b, 2);
    let sink = publish_cycle(&mut registry);
    let names: Vec<String> = accepted_writes(&sink).into_iter().map(|w| w.0).collect();
    assert_eq!(names, vec!["a.sum", "a.max", "a.min", "b.avg", "b.max", "b.min"]);
    let opens = sink.calls().iter().filter(|c| matches!(c, Call::Open)).count();
    let closes = sink.calls().iter().filter(|c| matches!(c, Call::Close)).count();
    assert_eq!((opens, closes), (1, 1));
    assert!(matches!(sink.calls()[0], Call::Open));
    assert!(matches!(sink.calls()[sink.calls().len() - 1], Call::Close));
}

#[test]
fn second_publish_has_nothing_left() {
    let mut registry = Registry::new();
    let a = registry.define(Kind::Counter, "a".to_string(), Scale::unit());
    registry.record(a, 1);
    let mut source = AggregateSource::new(MemorySink::new(), registry.scores());
    source.publish();
    assert_eq!(accepted_writes(source.target()).len(), 3);
    source.publish();
    assert_eq!(accepted_writes(source.target()).len(), 3);
    assert_eq!(source.target().calls().len(), 10);
    registry.record(a, 5);
    source.refill(registry.scores());
    source.publish();
    let written = accepted_writes(source.target());
    assert_eq!(written.len(), 6);
    assert_eq!(written[3], ("a.sum".to_string(), Kind::Counter, Quantity::whole(5)));
}

/// A backend that refuses maxima and fails to take minima.
struct Picky {
    taken: Vec<String>,
    scopes: (usize, usize),
}

impl Backend for Picky {
    fn define(&mut self, metric: &Metric) -> Result<(), DefinitionError> {
        if metric.name.ends_with(".max") {
            Err(DefinitionError::Rejected)
        } else {
            Ok(())
        }
    }

    fn open_scope(&mut self) {
        self.scopes.0 += 1;
    }

    fn write(&mut self, metric: &Metric, _value: Quantity) -> Result<(), WriteError> {
        if metric.name.ends_with(".min") {
            Err(WriteError::Failed)
        } else {
            self.taken.push(metric.name.clone());
            Ok(())
        }
    }

    fn close_scope(&mut self) {
        self.scopes.1 += 1;
    }
}

#[test]
fn a_failure_does_not_end_the_cycle() {
    let mut registry = Registry::new();
    let a = registry.define(Kind::Counter, "a".to_string(), Scale::unit());
    let b = registry.define(Kind::Gauge, "b".to_string(), Scale::unit());
    registry.record(a, 1);
    registry.record(b, 2);
    let target = BackendSink::new(Picky { taken: Vec::new(), scopes: (0, 0) });
    let mut source = AggregateSource::new(target, registry.scores());
    source.publish();
    let picky = source.into_target().into_inner();
    assert_eq!(picky.taken, vec!["a.sum", "b.avg"]);
    assert_eq!(picky.scopes, (1, 1));
}

#[test]
fn derive_for_a_score_made_by_hand() {
    let es = ExtractedScore {
        metric: Metric::new(Kind::Marker, "odd".to_string(), Scale::unit()),
        score: AggregateScore::Value { hit: 1, sum: Quantity::whole(5), max: 5, min: 5 },
    };
    let derived = derive_metrics(&es);
    let names: Vec<&str> = derived.iter().map(|d| d.name.as_str()).collect();
    assert_eq!(names, vec!["odd.max", "odd.min"]);
    let mut source = AggregateSource::new(MemorySink::new(), ScoreIterator::new(vec![es]));
    source.publish();
    assert_eq!(accepted_writes(source.target()).len(), 2);
}
