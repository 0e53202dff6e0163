//! Why a run was given up.

use vstd::prelude::*;
use vstd::string::StringExecFns;

verus! {

/// The ways in which generating a wordlist can fail.
#[derive(Clone, Copy, Debug, PartialEq, Eq, Structural)]
pub enum GenError {
    /// A literal field did not yield a single candidate.
    MalformedField,
    /// A pattern is not written in the supported syntax.
    InvalidPattern,
    /// A pattern may repeat a part without an upper bound.
    UnboundedPattern,
    /// A field has no candidate at all.
    EmptyField,
    /// There are more combinations than the counter can hold.
    CountOverflow,
    /// The sink refused a word.
    SinkWriteFailed,
}

impl GenError {
    /// The text of `message`.
    pub open spec fn message_text(self) -> Seq<char> {
        match self {
            GenError::MalformedField => "a literal field holds no candidate"@,
            GenError::InvalidPattern => "a pattern is not in the supported syntax"@,
            GenError::UnboundedPattern => "a pattern repeats without an upper bound"@,
            GenError::EmptyField => "a field has no candidates"@,
            GenError::CountOverflow => "the number of combinations does not fit the counter"@,
            GenError::SinkWriteFailed => "writing a word to the sink failed"@,
        }
    }

    /// A sentence for the user that names the failure.
    pub fn message(&self) -> (text: String)
        ensures
            text@ == self.message_text(),
    {
        match self {
            GenError::MalformedField => String::from_str("a literal field holds no candidate"),
            GenError::InvalidPattern => String::from_str("a pattern is not in the supported syntax"),
            GenError::UnboundedPattern => String::from_str(
                "a pattern repeats without an upper bound",
            ),
            GenError::EmptyField => String::from_str("a field has no candidates"),
            GenError::CountOverflow => String::from_str(
                "the number of combinations does not fit the counter",
            ),
            GenError::SinkWriteFailed => String::from_str("writing a word to the sink failed"),
        }
    }
}

} // verus!
