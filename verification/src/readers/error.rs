//! What can be wrong with a text file.

use crate::text;
use vstd::prelude::*;
use vstd::utf8;

verus! {

/// Why a text file cannot be read. Rows count from 1, behind the header.
#[derive(Debug)]
pub enum ReadError {
    /// The bytes are not UTF-8.
    NotUtf8,
    /// The header row is missing.
    NoHeader,
    /// A row has fewer columns than are needed.
    ShortRow { row: usize, got: usize, need: usize },
    /// A time cell that cannot be read, and its row.
    BadTime(String, usize),
    /// A cell that is no number, its row and its column.
    BadNumber(String, usize, usize),
    /// There are fewer than two data rows.
    Empty,
    /// The first line of a DAT file does not say when the scan started.
    DatBadHeader(String),
}

/// The error with its text as sequences of characters.
pub enum ReadFault {
    NotUtf8,
    NoHeader,
    ShortRow { row: int, got: int, need: int },
    BadTime(Seq<char>, int),
    BadNumber(Seq<char>, int, int),
    Empty,
    DatBadHeader(Seq<char>),
}

impl View for ReadError {
    type V = ReadFault;

    open spec fn view(&self) -> ReadFault {
        match *self {
            ReadError::NotUtf8 => ReadFault::NotUtf8,
            ReadError::NoHeader => ReadFault::NoHeader,
            ReadError::ShortRow { row, got, need } => ReadFault::ShortRow {
                row: row as int,
                got: got as int,
                need: need as int,
            },
            ReadError::BadTime(cell, row) => ReadFault::BadTime(cell@, row as int),
            ReadError::BadNumber(cell, row, column) => ReadFault::BadNumber(
                cell@,
                row as int,
                column as int,
            ),
            ReadError::Empty => ReadFault::Empty,
            ReadError::DatBadHeader(line) => ReadFault::DatBadHeader(line@),
        }
    }
}

/// The text that the bytes encode.
pub open spec fn text_of(bytes: Seq<u8>) -> Result<Seq<char>, ReadFault> {
    if utf8::valid_utf8(bytes) {
        Ok(utf8::decode_utf8(bytes))
    } else {
        Err(ReadFault::NotUtf8)
    }
}

/// Decodes a file.
pub fn decode(bytes: &[u8]) -> (r: Result<Vec<char>, ReadError>)
    ensures
        match text_of(bytes@) {
            Ok(s) => r matches Ok(v) && v@ == s,
            Err(e) => r matches Err(x) && x@ == e,
        },
{
    match text::utf8_text(bytes) {
        Some(s) => Ok(text::chars_of(s)),
        None => Err(ReadError::NotUtf8),
    }
}

} // verus!
