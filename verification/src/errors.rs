//! What the rate limiter reports when it cannot answer.

use vstd::prelude::*;
use vstd::string::StringExecFns;
use crate::storage::StorageErr;

verus! {

/// Why the rate limiter could not do what it was asked.
#[derive(Debug, PartialEq, Eq)]
pub enum LimitadorError {
    /// The labels of the request do not name a namespace.
    MissingNamespace,
    /// A condition of the limit does not have the form `left == right`. The
    /// condition is given.
    MalformedCondition(String),
    /// The store failed. Its message is given.
    Storage(String),
}

impl LimitadorError {
    /// The text that `message` gives.
    pub open spec fn message_text(self) -> Seq<char> {
        match self {
            LimitadorError::MissingNamespace => "Missing namespace"@,
            LimitadorError::MalformedCondition(condition) => "malformed condition: "@ + condition@,
            LimitadorError::Storage(msg) => "error while accessing the limits storage: "@ + msg@,
        }
    }

    /// Says in words what went wrong.
    pub fn message(&self) -> (text: String)
        ensures
            text@ == self.message_text(),
    {
        match self {
            LimitadorError::MissingNamespace => String::from_str("Missing namespace"),
            LimitadorError::MalformedCondition(condition) => {
                let mut text = String::from_str("malformed condition: ");
                text.append(condition.as_str());
                text
            },
            LimitadorError::Storage(msg) => {
                let mut text = String::from_str("error while accessing the limits storage: ");
                text.append(msg.as_str());
                text
            },
        }
    }
}

impl From<StorageErr> for LimitadorError {
    fn from(err: StorageErr) -> (e: LimitadorError) {
        LimitadorError::Storage(err.into_message())
    }
}

impl vstd::std_specs::convert::FromSpecImpl<StorageErr> for LimitadorError {
    open spec fn obeys_from_spec() -> bool {
        true
    }

    open spec fn from_spec(err: StorageErr) -> LimitadorError {
        LimitadorError::Storage(err.message())
    }
}

} // verus!
