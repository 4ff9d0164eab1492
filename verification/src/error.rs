//! Why an assignment can be refused.

use vstd::prelude::*;

verus! {

/// The shape of the arguments that made a call fail.
#[derive(Debug, Clone, Copy, PartialEq, Eq, Structural)]
pub enum ShapeFault {
    /// The call did not receive exactly two columns.
    ArgumentCount,
    /// The two columns do not hold the same physical type.
    TypeMismatch,
    /// The columns hold something other than an integer of at most 64 bits.
    UnsupportedType,
    /// The two columns differ in length.
    LengthMismatch,
}

/// The ways in which a batch of intervals is refused. A refused batch
/// produces no room at all.
#[derive(Debug, Clone, Copy, PartialEq, Eq, Structural)]
pub enum AssignError {
    /// Some interval with both endpoints present ends before it starts.
    InvalidInterval,
    /// The arguments do not form two equally long columns of one integer type.
    ArgumentShape(ShapeFault),
}

impl AssignError {
    /// The text of `message`.
    pub open spec fn message_text(self) -> Seq<char> {
        match self {
            AssignError::InvalidInterval => "End time before start time"@,
            AssignError::ArgumentShape(fault) => match fault {
                ShapeFault::ArgumentCount => "Required 2 arguments (start, end)"@,
                ShapeFault::TypeMismatch => "Physical dtypes must match"@,
                ShapeFault::UnsupportedType => "Unsupported physical type"@,
                ShapeFault::LengthMismatch => "Start and end must have equal length"@,
            },
        }
    }

    /// A sentence that says what was wrong.
    pub fn message(&self) -> (text: String)
        ensures
            text@ == self.message_text(),
    {
        match self {
            AssignError::InvalidInterval => "End time before start time".to_owned(),
            AssignError::ArgumentShape(fault) => match fault {
                ShapeFault::ArgumentCount => "Required 2 arguments (start, end)".to_owned(),
                ShapeFault::TypeMismatch => "Physical dtypes must match".to_owned(),
                ShapeFault::UnsupportedType => "Unsupported physical type".to_owned(),
                ShapeFault::LengthMismatch => "Start and end must have equal length".to_owned(),
            },
        }
    }
}

} // verus!
