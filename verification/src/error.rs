//! The failures that the library reports.

use vstd::prelude::*;

verus! {

/// Why an operation of this library did not succeed. Each kind carries the
/// message that a caller would show.
#[derive(Debug, PartialEq, Eq)]
pub enum CliTestError {
    /// A configuration value was rejected; nothing was run.
    InvalidArgument(String),
    /// The command ran to its end and did not report success.
    CommandFailed(String),
}

impl CliTestError {
    /// The message that the error carries.
    pub open spec fn text(&self) -> Seq<char> {
        match self {
            CliTestError::InvalidArgument(m) => m@,
            CliTestError::CommandFailed(m) => m@,
        }
    }

    /// The message that the error carries.
    pub fn message(&self) -> (m: String)
        ensures
            m@ == self.text(),
    {
        match self {
            CliTestError::InvalidArgument(m) => m.clone(),
            CliTestError::CommandFailed(m) => m.clone(),
        }
    }
}

} // verus!
