//! Which distance an index measures.

use vstd::prelude::*;

verus! {

/// The four metrics that need no parameter.
#[derive(Debug, Clone, Copy, PartialEq, Eq, Structural)]
pub enum Distance {
    /// Straight-line distance.
    Euclidean,
    /// One minus the cosine of the angle between the vectors.
    Cosine,
    /// Sum of the absolute coordinate differences.
    Manhattan,
    /// Largest absolute coordinate difference.
    Chebyshev,
}

impl Distance {
    /// The name under which the metric is shown.
    pub fn repr(&self) -> (s: &'static str)
        ensures
            s@ == (match *self {
                Distance::Euclidean => "Distance.EUCLIDEAN"@,
                Distance::Cosine => "Distance.COSINE"@,
                Distance::Manhattan => "Distance.MANHATTAN"@,
                Distance::Chebyshev => "Distance.CHEBYSHEV"@,
            }),
    {
        match self {
            Distance::Euclidean => "Distance.EUCLIDEAN",
            Distance::Cosine => "Distance.COSINE",
            Distance::Manhattan => "Distance.MANHATTAN",
            Distance::Chebyshev => "Distance.CHEBYSHEV",
        }
    }
}

/// The metric that is in force for an index: one of the four, or the
/// Minkowski distance with the exponent whose bit pattern is given.
#[derive(Debug, Clone, Copy, PartialEq, Eq, Structural)]
pub enum Metric {
    Euclidean,
    Cosine,
    Manhattan,
    Chebyshev,
    Minkowski(u32),
}

/// The metric in force where `metric` was selected and `minkowski_p`, if
/// present, is a Minkowski exponent: an exponent overrides the selection.
pub open spec fn metric_in_force(metric: Distance, minkowski_p: Option<u32>) -> Metric {
    match minkowski_p {
        Some(p) => Metric::Minkowski(p),
        None => match metric {
            Distance::Euclidean => Metric::Euclidean,
            Distance::Cosine => Metric::Cosine,
            Distance::Manhattan => Metric::Manhattan,
            Distance::Chebyshev => Metric::Chebyshev,
        },
    }
}

/// Decides which metric is in force.
pub fn resolve_metric(metric: Distance, minkowski_p: Option<u32>) -> (m: Metric)
    ensures
        m == metric_in_force(metric, minkowski_p),
{
    match minkowski_p {
        Some(p) => Metric::Minkowski(p),
        None => match metric {
            Distance::Euclidean => Metric::Euclidean,
            Distance::Cosine => Metric::Cosine,
            Distance::Manhattan => Metric::Manhattan,
            Distance::Chebyshev => Metric::Chebyshev,
        },
    }
}

} // verus!
