//! The errors that the index reports.

use vstd::prelude::*;
use vstd::string::StringExecFns;

verus! {

/// Why an index could not be made.
#[derive(Debug, PartialEq, Eq)]
pub enum NnError {
    /// The metric name is not one that the index knows; holds the name.
    UnknownMetric(String),
    /// The text is not a JSON document; holds the parser's message.
    InvalidJson(String),
    /// The JSON document is not an object whose values are arrays of numbers.
    UnexpectedJson,
}

impl NnError {
    /// The text of [`NnError::message`].
    pub open spec fn message_spec(self) -> Seq<char> {
        match self {
            NnError::UnknownMetric(name) => "Did not recognise metric "@ + name@,
            NnError::InvalidJson(reason) => "Could not read the vectors: "@ + reason@,
            NnError::UnexpectedJson => "Expected a JSON object of arrays of numbers"@,
        }
    }

    /// A description of the error for the user.
    pub fn message(&self) -> (text: String)
        ensures
            text@ == self.message_spec(),
    {
        match self {
            NnError::UnknownMetric(name) => String::from_str("Did not recognise metric ").concat(
                name.as_str(),
            ),
            NnError::InvalidJson(reason) => String::from_str(
                "Could not read the vectors: ",
            ).concat(reason.as_str()),
            NnError::UnexpectedJson => String::from_str(
                "Expected a JSON object of arrays of numbers",
            ),
        }
    }
}

} // verus!
