//! The records of an Intel HEX text and the ways in which a text fails to
//! decode.

use crate::chunk::{Chunk, Data, StartSegmentAddr};
use vstd::prelude::*;

verus! {

/// Why a text could not be decoded.  `line` counts the lines of the text from
/// one.
#[derive(Debug, Clone, Copy, PartialEq, Eq, Structural)]
pub enum DecodeError {
    /// The line is empty or does not begin with `:`.
    MalformedLine { line: usize },
    /// A number of the line is cut off by the end of the line, or holds a
    /// character that is no hexadecimal digit.
    InvalidHex { line: usize },
    /// A data record holds `found` bytes where it declares `expected`.
    TruncatedData { line: usize, expected: u8, found: usize },
    /// The record type is none of data, end of file, start segment address
    /// and extended segment address.
    UnknownRecordType { line: usize, kind: u8 },
    /// The text goes on at `line`, behind its end-of-file record.
    TrailingDataAfterEof { line: usize },
    /// The text ends after `line` lines without an end-of-file record.
    MissingEof { line: usize },
}

/// A record as it is handed out by the decoder.
#[derive(Debug, PartialEq, Eq)]
pub enum Record {
    Data(Data),
    Eof,
    StartSegmentAddr(StartSegmentAddr),
}

/// What one line of the text says.
pub enum Event {
    /// Bytes at an absolute address.
    Data(Chunk),
    /// The end of the text.
    Eof,
    /// The entry descriptor.
    StartSegmentAddr(StartSegmentAddr),
    /// The upper 16 bits of the addresses of the data records that follow.
    ExtendedSegmentAddr(u16),
}

impl View for Record {
    type V = Event;

    open spec fn view(&self) -> Event {
        match *self {
            Record::Data(d) => Event::Data(d@),
            Record::Eof => Event::Eof,
            Record::StartSegmentAddr(s) => Event::StartSegmentAddr(s),
        }
    }
}

/// What a handed-out record says, if one was handed out.
pub open spec fn record_view(record: Option<Record>) -> Option<Event> {
    match record {
        Some(r) => Some(r@),
        None => None,
    }
}

/// What the decoder hands out for an event: an extended segment address
/// changes the decoder's state and nothing is handed out.
pub open spec fn reported(event: Option<Event>) -> Option<Event> {
    match event {
        Some(Event::ExtendedSegmentAddr(_)) => None,
        other => other,
    }
}

} // verus!
