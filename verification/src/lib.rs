//! Verified core of a county election importer.
//!
//! The library ingests reference tables (county abbreviations, municipal
//! codes, precinct-to-municipality mappings) and per-election result sheets
//! as plain grids of cell text, resolves them into a normalized
//! County -> Municipality -> Precinct hierarchy, merges municipalities whose
//! territory is split across a single precinct row's multiple FIPS codes,
//! and emits a relational load plan together with the byproduct filter and
//! merge logs.  Decoding of spreadsheet files, the relational store itself,
//! and the HTTP query surface are external collaborators; the logic that
//! decides what they are handed lives here, verified.

pub mod catalog;
pub mod dates;
pub mod entities;
pub mod error;
pub mod lookup;
pub mod partition;
pub mod pipeline;
pub mod query;
pub mod resolve;
pub mod results;
pub mod shapes;
pub mod text;
