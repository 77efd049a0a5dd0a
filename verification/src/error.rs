//! The error of the data layer.
use vstd::prelude::*;
use vstd::string::*;

verus! {

/// What can be wrong with measured data.
#[derive(Debug, Clone, PartialEq, Eq)]
pub enum CoreError {
    /// A value is outside its valid range.
    InvalidMetric {
        /// The field that holds it.
        field: String,
        /// Why it is rejected.
        reason: String,
    },
}

impl CoreError {
    /// The error in words.
    pub open spec fn words(self) -> Seq<char> {
        match self {
            CoreError::InvalidMetric { field, reason } => "invalid metric value for "@ + field@
                + ": "@ + reason@,
        }
    }

    /// The error in words.
    pub fn message(&self) -> (text: String)
        ensures
            text@ == self.words(),
    {
        match self {
            CoreError::InvalidMetric { field, reason } => {
                let mut text: String = String::from_str("invalid metric value for ");
                text.append(field.as_str());
                text.append(": ");
                text.append(reason.as_str());
                text
            },
        }
    }
}

} // verus!
