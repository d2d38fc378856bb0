//! Errors raised while reading and parsing SLK data.

use vstd::prelude::*;

use crate::slkparser::slk_type::RecordType;

verus! {

/// SLK reading and parsing errors.
///
/// `record_index` is the 1-based ordinal of the record in the file, blank
/// lines excluded.
#[allow(inconsistent_fields)]
#[derive(Debug)]
pub enum SLKError {
    /// I/O failure while opening or reading the file.
    IoError(std::io::Error),
    /// Unknown record type (RTD).
    InvalidType { record_index: usize, record_type: String },
    /// Unreadable numeric field (`X`/`Y`).
    ParseInt {
        record_index: usize,
        record_type: RecordType,
        field: String,
        source: std::num::ParseIntError,
    },
    /// Structurally invalid record (non UTF-8 bytes in a numeric field).
    Malformed { record_index: usize, reason: String },
    /// File context added by a caller.
    InFile { path: String, source: Box<SLKError> },
    /// Unreadable numeric field of a cell given as text.
    Parsing { record_type: RecordType, content: String, source: std::num::ParseIntError },
}

} // verus!
