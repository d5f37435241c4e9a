//! What can be wrong with an input.

use crate::text::{decimal, push_decimal};
use vstd::prelude::*;
use vstd::string::*;

verus! {

/// Why an input cannot be read or analysed.
#[derive(Clone, Copy, PartialEq, Eq, Debug, Structural)]
pub enum AnalysisError {
    /// Minimum and maximum were asked of no symbols.
    EmptyInput,
    /// The number of bytes is no multiple of the symbol width, which is `bytes`.
    LengthNotMultiple { bytes: u8 },
    /// Every zeroth symbol was to be kept.
    KeepEveryZero,
}

impl AnalysisError {
    /// The message for this error.
    pub open spec fn text(self) -> Seq<char> {
        match self {
            AnalysisError::EmptyInput => "Cannot calculate min/max on empty input"@,
            AnalysisError::LengthNotMultiple { bytes } => {
                "Vector length needs to be a multiple of T's size ("@ + decimal(bytes as nat)
                    + " bytes)"@
            },
            AnalysisError::KeepEveryZero => {
                "Cannot keep every 0.th element, parameter needs to be > 0"@
            },
        }
    }

    /// The message for this error.
    pub fn message(&self) -> (message: String)
        ensures
            message@ == self.text(),
    {
        match self {
            AnalysisError::EmptyInput => String::from_str(
                "Cannot calculate min/max on empty input",
            ),
            AnalysisError::LengthNotMultiple { bytes } => {
                let mut message = String::from_str(
                    "Vector length needs to be a multiple of T's size (",
                );
                push_decimal(&mut message, *bytes as u128);
                message.append(" bytes)");
                message
            },
            AnalysisError::KeepEveryZero => String::from_str(
                "Cannot keep every 0.th element, parameter needs to be > 0",
            ),
        }
    }
}

} // verus!
