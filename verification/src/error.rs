use vstd::prelude::*;

verus! {

/// Why a text could not be read as an array index.
#[derive(Debug, Clone, Copy, PartialEq, Eq, Structural)]
pub enum IndexErrorKind {
    /// The text is empty.
    Empty,
    /// The text holds something that is not a decimal digit.
    InvalidDigit,
    /// The digits name a number larger than `usize::MAX`.
    PosOverflow,
}

/// An error met while rendering.
#[derive(Debug, Clone, PartialEq, Eq)]
pub enum RenderError {
    /// A path segment that names an element of an array is not a valid index.
    InvalidArrayIndex { segment: String, kind: IndexErrorKind },
    /// A value could not be turned into JSON data; `message` tells why.
    Serialization { message: String },
}

impl IndexErrorKind {
    /// The text that describes this kind of failure.
    pub open spec fn spec_message(self) -> Seq<char> {
        match self {
            IndexErrorKind::Empty => "cannot parse integer from empty string"@,
            IndexErrorKind::InvalidDigit => "invalid digit found in string"@,
            IndexErrorKind::PosOverflow => "number too large to fit in target type"@,
        }
    }

    pub fn message(&self) -> (r: String)
        ensures
            r@ == self.spec_message(),
    {
        match self {
            IndexErrorKind::Empty => "cannot parse integer from empty string".to_string(),
            IndexErrorKind::InvalidDigit => "invalid digit found in string".to_string(),
            IndexErrorKind::PosOverflow => "number too large to fit in target type".to_string(),
        }
    }
}

impl RenderError {
    /// The description of the error.
    pub open spec fn spec_desc(&self) -> Seq<char> {
        match self {
            RenderError::InvalidArrayIndex { segment, kind } => kind.spec_message(),
            RenderError::Serialization { message } => "Failed to access JSON data."@,
        }
    }

    pub fn desc(&self) -> (r: String)
        ensures
            r@ == self.spec_desc(),
    {
        match self {
            RenderError::InvalidArrayIndex { segment, kind } => kind.message(),
            RenderError::Serialization { message } => "Failed to access JSON data.".to_string(),
        }
    }
}

} // verus!
