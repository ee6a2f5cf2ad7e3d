//! The distance metrics that an index can be bound to, and their names.

use crate::error::NnError;
use crate::text::same_text;
use vstd::prelude::*;

verus! {

/// A distance metric between two vectors of equal length.
#[derive(Clone, Copy, Debug, PartialEq, Eq, Hash, Structural)]
pub enum Metric {
    /// One minus the cosine of the angle between the vectors.
    Cosine,
    /// The length of the difference of the vectors.
    Euclidean,
    /// The sum of the absolute differences of the components.
    Manhattan,
}

/// The metric that `name` stands for, if any. Names are matched exactly.
pub open spec fn metric_named(name: Seq<char>) -> Option<Metric> {
    if name == "cosine"@ {
        Some(Metric::Cosine)
    } else if name == "euclidean"@ {
        Some(Metric::Euclidean)
    } else if name == "manhattan"@ {
        Some(Metric::Manhattan)
    } else {
        None
    }
}

impl Metric {
    /// The name of the metric.
    pub open spec fn name_spec(self) -> Seq<char> {
        match self {
            Metric::Cosine => "cosine"@,
            Metric::Euclidean => "euclidean"@,
            Metric::Manhattan => "manhattan"@,
        }
    }

    /// The name of the metric.
    pub fn name(&self) -> (name: &'static str)
        ensures
            name@ == self.name_spec(),
    {
        match self {
            Metric::Cosine => "cosine",
            Metric::Euclidean => "euclidean",
            Metric::Manhattan => "manhattan",
        }
    }
}

/// Every metric is the one that its name stands for.
pub proof fn lemma_name_selects_metric(metric: Metric)
    ensures
        metric_named(metric.name_spec()) == Some(metric),
{
    reveal_strlit("cosine");
    reveal_strlit("euclidean");
    reveal_strlit("manhattan");
    assert("cosine"@.len() == 6);
    assert("euclidean"@.len() == 9);
    assert("manhattan"@[0] == 'm');
    assert("euclidean"@[0] == 'e');
}

/// Selects the metric that `metric` names: one of `"cosine"`, `"euclidean"`
/// and `"manhattan"`. Any other name is an error that holds the name.
pub fn metric_factory(metric: &str) -> (found: Result<Metric, NnError>)
    ensures
        match metric_named(metric@) {
            Some(m) => found == Ok::<Metric, NnError>(m),
            None => found matches Err(NnError::UnknownMetric(name)) && name@ == metric@,
        },
{
    if same_text(metric, "cosine") {
        Ok(Metric::Cosine)
    } else if same_text(metric, "manhattan") {
        proof {
            lemma_name_selects_metric(Metric::Manhattan);
        }
        Ok(Metric::Manhattan)
    } else if same_text(metric, "euclidean") {
        Ok(Metric::Euclidean)
    } else {
        Err(NnError::UnknownMetric(metric.to_owned()))
    }
}

} // verus!
