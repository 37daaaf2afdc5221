//! Metric identities.

use vstd::prelude::*;
use crate::number::Scale;

verus! {

/// What a metric measures.
#[derive(Clone, Copy, Debug, PartialEq, Eq, Structural, Hash)]
pub enum Kind {
    Counter,
    Gauge,
    Timer,
    Marker,
}

/// The description of a metric: its name, its kind and its scale. It never
/// changes once made, and serves as the handle that a sink gives out.
#[derive(Debug)]
pub struct Metric {
    pub name: String,
    pub kind: Kind,
    pub scale: Scale,
}

/// A metric as contracts see it.
pub struct MetricView {
    pub name: Seq<char>,
    pub kind: Kind,
    pub scale: Scale,
}

impl MetricView {
    /// Two metrics are the same metric when name and kind agree, whatever
    /// their scales.
    pub open spec fn same_identity(self, other: MetricView) -> bool {
        self.name == other.name && self.kind == other.kind
    }

    /// Whether this metric has the given name and kind.
    pub open spec fn is_named(self, kind: Kind, name: Seq<char>) -> bool {
        self.name == name && self.kind == kind
    }
}

impl View for Metric {
    type V = MetricView;

    open spec fn view(&self) -> MetricView {
        MetricView { name: self.name@, kind: self.kind, scale: self.scale }
    }
}

impl Clone for Metric {
    fn clone(&self) -> (r: Self)
        ensures
            r@ == self@,
    {
        Metric { name: self.name.clone(), kind: self.kind, scale: self.scale }
    }
}

impl Metric {
    /// The metric with the given kind, name and scale.
    pub fn new(kind: Kind, name: String, scale: Scale) -> (r: Metric)
        ensures
            r@ == (MetricView { name: name@, kind, scale }),
    {
        Metric { name, kind, scale }
    }

    /// Whether `self` and `other` are the same metric.
    pub fn same_identity(&self, other: &Metric) -> (r: bool)
        ensures
            r == self@.same_identity(other@),
    {
        self.kind == other.kind && self.name == other.name
    }

    /// Whether this metric has the given name and kind.
    pub fn is_named(&self, kind: Kind, name: &String) -> (r: bool)
        ensures
            r == self@.is_named(kind, name@),
    {
        self.kind == kind && self.name == *name
    }

    /// Whether `self` and `other` agree in name, kind and scale.
    pub fn same_definition(&self, other: &Metric) -> (r: bool)
        ensures
            r == (self@ == other@),
    {
        self.kind == other.kind && self.scale == other.scale && self.name == other.name
    }
}

} // verus!
