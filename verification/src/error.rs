//! The classified failures a reader can produce.

use vstd::prelude::*;

verus! {

/// `std::io::Error` as an opaque type, so that a line source's failure can be
/// carried to the caller unchanged. Relies on the type alone; nothing is
/// assumed about its values.
#[verifier::external_type_specification]
#[verifier::external_body]
pub struct ExIoError(std::io::Error);

/// What can go wrong while turning lines into records.
#[derive(Debug)]
pub enum ReaderError {
    /// The line source failed before a full line was available.
    Io(std::io::Error),
    /// The line had no characters at all.
    EmptyLine,
    /// At the character position carried first, fewer characters remained
    /// than the declared field width carried second, and flexible widths
    /// were disabled.
    WidthMismatch(usize, usize),
}

impl From<std::io::Error> for ReaderError {
    fn from(value: std::io::Error) -> (r: Self) {
        ReaderError::Io(value)
    }
}

impl vstd::std_specs::convert::FromSpecImpl<std::io::Error> for ReaderError {
    open spec fn obeys_from_spec() -> bool {
        true
    }

    open spec fn from_spec(value: std::io::Error) -> Self {
        ReaderError::Io(value)
    }
}

} // verus!
