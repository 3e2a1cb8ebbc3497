//! The metadata record a successful examination produces: the dialect of
//! the file and the shape and types of its columns.

use vstd::prelude::*;
use crate::field_type::Type;

verus! {

/// Information about the header of the CSV file.
#[derive(Debug, Clone, PartialEq, Eq, Structural)]
pub struct Header {
    /// Whether or not this CSV file has a header row (a row containing
    /// column labels).
    pub has_header_row: bool,
    /// Number of rows that occur before either the header row (if
    /// `has_header_row` is true), or the first data row.
    pub num_preamble_rows: usize,
}

/// Information about the quoting style of the CSV file.
#[derive(Debug, Clone, Copy, PartialEq, Eq, Structural)]
pub enum Quote {
    /// Quotes are not used in the CSV file.
    Disabled,
    /// The character used as the quote character.
    Enabled(u8),
}

/// The escape character, or `Disabled` if escaping is disabled.
#[derive(Debug, Clone, Copy, PartialEq, Eq, Structural)]
pub enum Escape {
    Enabled(u8),
    Disabled,
}

impl Escape {
    /// The escape byte, if escaping is enabled.
    pub fn to_opt(self) -> (r: Option<u8>)
        ensures
            r == (match self {
                Escape::Enabled(c) => Some(c),
                Escape::Disabled => None::<u8>,
            }),
    {
        match self {
            Escape::Enabled(c) => Some(c),
            Escape::Disabled => None,
        }
    }
}

/// The comment character, or `Disabled` if commenting does not exist in
/// this dialect.
#[derive(Debug, Clone, Copy, PartialEq, Eq, Structural)]
pub enum Comment {
    Enabled(u8),
    Disabled,
}

impl Comment {
    /// The comment byte, if commenting is enabled.
    pub fn to_opt(self) -> (r: Option<u8>)
        ensures
            r == (match self {
                Comment::Enabled(c) => Some(c),
                Comment::Disabled => None::<u8>,
            }),
    {
        match self {
            Comment::Enabled(c) => Some(c),
            Comment::Disabled => None,
        }
    }
}

/// The syntactic parameters needed to parse a CSV file.
#[derive(Debug, Clone, PartialEq, Eq, Structural)]
pub struct Dialect {
    /// Byte between fields of a record.
    pub delimiter: u8,
    /// Header row and preamble information.
    pub header: Header,
    /// Quoting style.
    pub quote: Quote,
    /// Whether records may have unequal numbers of fields.
    pub flexible: bool,
    /// Whether everything examined was valid UTF-8.
    pub is_utf8: bool,
}

impl Dialect {
    /// The delimiter is 7-bit ASCII and differs from the quote byte.
    pub open spec fn wf(&self) -> bool {
        &&& self.delimiter < 128
        &&& (self.quote matches Quote::Enabled(q) ==> q != self.delimiter)
    }
}

/// Everything the examination infers about a CSV file.
#[derive(Debug, Clone)]
pub struct Metadata {
    /// The dialect to read the file with.
    pub dialect: Dialect,
    /// Average data-byte length of the sampled records.
    pub avg_record_len: usize,
    /// Number of fields per record.
    pub num_fields: usize,
    /// Labels of the header row, empty when there is none.
    pub fields: Vec<String>,
    /// The narrowest admissible type of each column.
    pub types: Vec<Type>,
}

impl Metadata {
    /// The shape invariants of a finished record: as many types as fields,
    /// labels exactly when a header row was found, and a well-formed
    /// dialect.
    pub open spec fn wf(&self) -> bool {
        &&& self.dialect.wf()
        &&& self.types@.len() == self.num_fields
        &&& self.num_fields > 0
        &&& (self.dialect.header.has_header_row ==> self.fields@.len() == self.num_fields)
        &&& (!self.dialect.header.has_header_row ==> self.fields@.len() == 0)
    }
}

} // verus!
