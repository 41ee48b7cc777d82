//! The ways in which the metadata of one distribution can fail to give a node.

use vstd::prelude::*;

verus! {

/// Why no node could be built from the lines of a distribution.
#[derive(Clone, Copy, Debug, PartialEq, Eq, Structural)]
pub enum NodeError {
    /// No line is a name declaration.
    MissingName,
    /// No line is a version declaration.
    MissingVersion,
    /// The requirement text of a dependency declaration is no version comparison.
    InvalidDependencyConstraint,
}

impl NodeError {
    /// The message of each error.
    pub open spec fn message_text(self) -> Seq<char> {
        match self {
            NodeError::MissingName => "Can not parse package name from file"@,
            NodeError::MissingVersion => "Can not parse version name from file"@,
            NodeError::InvalidDependencyConstraint => {
                "Failed to parse dependency version expression"@
            },
        }
    }

    /// A sentence for the user that says what went wrong.
    pub fn message(&self) -> (text: &'static str)
        ensures
            text@ == self.message_text(),
    {
        match self {
            NodeError::MissingName => "Can not parse package name from file",
            NodeError::MissingVersion => "Can not parse version name from file",
            NodeError::InvalidDependencyConstraint => {
                "Failed to parse dependency version expression"
            },
        }
    }
}

} // verus!
