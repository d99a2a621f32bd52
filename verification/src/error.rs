//! What can go wrong in a transform.

use vstd::prelude::*;

verus! {

/// The reasons for which a transform refuses its input.
#[derive(Debug, Clone, Copy, PartialEq, Eq, Structural)]
pub enum CsvError {
    /// A directive of a ramp command is neither a hold nor a ramp.
    Format,
    /// A count of samples is too large for 64 bits.
    Number,
    /// A pattern of the ramp grammar was not accepted by the matcher.
    Pattern,
    /// The final sampling interval is not a multiple of the original one.
    NotAMultiple,
    /// The final sampling interval is not greater than the original one.
    FinalGreaterOrEqual,
}

impl CsvError {
    /// The text that `message` returns.
    pub open spec fn message_text(self) -> Seq<char> {
        match self {
            CsvError::Format => "Wrong format inserted"@,
            CsvError::Number => "number too large to fit in target type"@,
            CsvError::Pattern => "Directive pattern not accepted"@,
            CsvError::NotAMultiple => "Original sampling is not a multiple of final sampling"@,
            CsvError::FinalGreaterOrEqual =>
                "New sampling is equal or greater than the original sampling"@,
        }
    }

    /// A sentence for the user.
    pub fn message(&self) -> (s: String)
        ensures
            s@ == self.message_text(),
    {
        match self {
            CsvError::Format => "Wrong format inserted".to_owned(),
            CsvError::Number => "number too large to fit in target type".to_owned(),
            CsvError::Pattern => "Directive pattern not accepted".to_owned(),
            CsvError::NotAMultiple =>
                "Original sampling is not a multiple of final sampling".to_owned(),
            CsvError::FinalGreaterOrEqual =>
                "New sampling is equal or greater than the original sampling".to_owned(),
        }
    }
}

} // verus!
