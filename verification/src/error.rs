//! Error and log values of the import core.
//!
//! Every failure is fatal to the current import; errors carry the sheet, row
//! and offending value so an operator can fix the source data and rerun.
//! Formatting and presentation belong to the orchestration layer.

use vstd::prelude::*;

verus! {

/// A fatal import failure.
#[derive(Debug, Clone, PartialEq, Eq)]
pub enum ImportError {
    /// An input workbook or sheet could not be found or opened.
    SourceMissing { name: String },
    /// A reference that should have been cataloged earlier did not resolve.
    Resolution { sheet: String, row: usize, value: String },
    /// A municipal type code outside the closed set of known types.
    UnknownType { row: usize, value: String },
    /// A precinct row names a FIPS code with no cataloged municipality.
    UnresolvedMunicipality { row: usize, fips: String },
    /// A precinct row with no FIPS codes at all.
    UnassignedPrecinct { row: usize, precinct: String, county: String },
    /// The first result cell does not begin with a parsable date.
    DateFormat,
    /// The relational store rejected an operation.
    Store { message: String },
}

/// A line surfaced to the operator, by severity.
#[derive(Debug, Clone, PartialEq, Eq)]
pub enum Log<S> {
    Info(S),
    Warning(S),
    Error(S),
}

} // verus!
