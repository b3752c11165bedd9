//! Ranked Spreadsheet Format: a deterministic canonical form for tabular data.
//!
//! Columns are ordered by descending cardinality (count of distinct normalized
//! cell values), ties broken by original position; rows are then sorted
//! lexicographically under the new column order.  A schema descriptor records
//! the ranking so that a table can later be checked for conformance.

pub mod errors;
pub mod ranking;
pub mod reorder;
pub mod sorting;
pub mod stats;
pub mod text;
pub mod validate;
