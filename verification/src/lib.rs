//! A reader for line-oriented fixed-width text: each line is one record, and
//! fields are identified by declared character widths rather than delimiters.
//!
//! The tokenizer turns one line plus a width declaration into field ranges,
//! counted in characters so that multi-byte text never desynchronizes field
//! boundaries. A `Reader` couples a `LineSource` with that tokenizer to
//! produce `Record`s one line at a time, optionally splitting off a header
//! record at construction.

mod error;
mod reader;
pub mod tokenize;

pub use error::ReaderError;
pub use reader::{line_error, FwrFieldIter, LineSource, Reader, Record, RecordIter, VecSource};
