//! Error types for CSV examination.

use vstd::prelude::*;

verus! {

/// The error type of the `csv` crate, carried through opaquely.
#[verifier::external_type_specification]
#[verifier::external_body]
pub struct ExCsvError(csv::Error);

/// The error type of `std::io`, carried through opaquely.
#[verifier::external_type_specification]
#[verifier::external_body]
pub struct ExIoError(std::io::Error);

/// An error that occurs while examining a CSV data file.
#[derive(Debug)]
pub enum SnifferError {
    /// An I/O error
    Io(std::io::Error),
    /// A CSV parsing error (from the csv crate)
    Csv(csv::Error),
    /// A CSV sniffing error
    SniffingFailed(String),
}

} // verus!
