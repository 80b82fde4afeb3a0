//! Error taxonomy for construction of a flattened store.
//!
//! Every variant is terminal for the construction call that produced it:
//! there is no partial store on failure and no retry.

use vstd::prelude::*;

verus! {

/// The ways construction of a flattened store can fail.
#[derive(Debug)]
pub enum Error {
    /// Reading the backing source failed; carries the I/O diagnostic.
    Io(String),
    /// The raw text is not well-formed YAML; carries the scanner's diagnostic.
    Parse(String),
    /// The top-level parsed value is not a mapping.
    NotAMapping,
    /// A mapping key somewhere in the document is not string-typed.
    UnexpectedKey,
    /// A leaf value is neither a nested mapping nor a string scalar.
    UnexpectedValue,
}

impl Error {
    /// A human-readable description of the error.
    pub fn message(&self) -> (r: String)
        ensures
            match self {
                Error::Io(m) => r@ == "IO error: "@ + m@,
                Error::Parse(m) => r@ == "YAML error: "@ + m@,
                Error::NotAMapping => r@ == "Other error: Could not parse YAML document as Hash"@,
                Error::UnexpectedKey => r@
                    == "Other error: Unexpected key found while parsing YAML document"@,
                Error::UnexpectedValue => r@
                    == "Other error: Unexpected value found while parsing YAML document"@,
            },
    {
        match self {
            Error::Io(m) => String::from_str("IO error: ").concat(m.as_str()),
            Error::Parse(m) => String::from_str("YAML error: ").concat(m.as_str()),
            Error::NotAMapping => String::from_str(
                "Other error: Could not parse YAML document as Hash",
            ),
            Error::UnexpectedKey => String::from_str(
                "Other error: Unexpected key found while parsing YAML document",
            ),
            Error::UnexpectedValue => String::from_str(
                "Other error: Unexpected value found while parsing YAML document",
            ),
        }
    }
}

} // verus!
