//! In-process metric aggregation.
//!
//! Observations are recorded in the cells of a [`Registry`], one cell per
//! metric. Once per cycle the cells are read and emptied, and an
//! [`AggregateSource`] turns each score into derived metrics (a sum or an
//! average, a maximum, a minimum, a hit count) and writes them to a sink.
//! A sink is anything that implements [`MetricSink`]: a [`BackendSink`]
//! around a backend, a [`MemorySink`], the aggregating [`AggregateSink`], or
//! one of the decorators that wrap another sink to buffer, cache, sample or
//! fan out.
//!
//! Values are exact: a cell holds integers, and what is written to a sink is
//! a ratio of integers, so that an average loses nothing to division.
//!
//! Every sink keeps, for the proofs, the trace of the calls it has received,
//! and says in `step` what one call does to it. What a publish cycle or a
//! decorator does is stated over these, and [`walk`] has what follows for
//! whole sequences of calls.

pub mod aggregator;
pub mod backend;
pub mod buffer;
pub mod cache;
pub mod cell;
pub mod memory;
pub mod metric;
pub mod multi;
pub mod number;
pub mod registry;
pub mod sample;
pub mod scope;
pub mod score;
pub mod sink;
pub mod source;
pub mod walk;

pub use aggregator::AggregateSink;
pub use backend::{Backend, BackendSink};
pub use buffer::{BufferedSink, Buffering};
pub use cache::CachedSink;
pub use cell::{AggregateCell, CellView, Tally};
pub use memory::{Call, MemorySink};
pub use metric::{Kind, Metric, MetricView};
pub use multi::MultiSink;
pub use number::{Quantity, Scale};
pub use registry::Registry;
pub use sample::{DrawSource, SampledSink};
pub use scope::Scope;
pub use score::{
    AggregateScore, Derived, DerivedView, ExtractedScore, ExtractedView, ScoreIterator,
};
pub use sink::{
    ConfigurationError, DefinitionError, MetricSink, Request, SinkCall, WriteError,
};
pub use source::AggregateSource;
