//! The error taxonomy of the format: every engine operation returns either a
//! result or one of these kinds, carrying enough structured detail (names,
//! positions, expected/found values) to render a precise diagnostic.

use vstd::prelude::*;
use vstd::string::StringExecFns;
use crate::text::append_dec;
use crate::text::dec_of;

verus! {

/// Spec-level image of an error, with strings as character sequences and
/// counts as unbounded integers.
pub ghost enum RsfErrorView {
    IoError { path: Seq<char>, message: Seq<char> },
    CsvError { message: Seq<char> },
    SchemaError { message: Seq<char> },
    ColumnOrderError { position: int, expected: Seq<char>, found: Seq<char> },
    CardinalityError { column: Seq<char>, expected: int, found: int },
    SortError,
    Unknown { message: Seq<char> },
}

/// An error of the format engine.
#[derive(Debug)]
pub enum RsfError {
    /// File I/O failure: the offending path and the underlying cause.
    IoError { path: String, message: String },
    /// Malformed tabular input.
    CsvError { message: String },
    /// Schema-shape error: count mismatch, missing column, bad rank,
    /// cardinality disagreement.
    SchemaError { message: String },
    /// Header order does not follow the schema.
    ColumnOrderError { position: usize, expected: String, found: String },
    /// Schema columns are not in descending cardinality order.
    CardinalityError { column: String, expected: usize, found: usize },
    /// Rows are not in canonical sorted order.
    SortError,
    /// Anything else.
    Unknown(String),
}

impl View for RsfError {
    type V = RsfErrorView;

    open spec fn view(&self) -> RsfErrorView {
        match self {
            RsfError::IoError { path, message } => RsfErrorView::IoError {
                path: path@,
                message: message@,
            },
            RsfError::CsvError { message } => RsfErrorView::CsvError { message: message@ },
            RsfError::SchemaError { message } => RsfErrorView::SchemaError { message: message@ },
            RsfError::ColumnOrderError { position, expected, found } => (
            RsfErrorView::ColumnOrderError {
                position: *position as int,
                expected: expected@,
                found: found@,
            }),
            RsfError::CardinalityError { column, expected, found } => (
            RsfErrorView::CardinalityError {
                column: column@,
                expected: *expected as int,
                found: *found as int,
            }),
            RsfError::SortError => RsfErrorView::SortError,
            RsfError::Unknown(message) => RsfErrorView::Unknown { message: message@ },
        }
    }
}

/// Result type of the engine's operations.
pub type RsfResult<T> = Result<T, RsfError>;

impl RsfError {
    /// Create an I/O error from the offending path and the cause's rendering.
    pub fn io_error(path: String, message: String) -> (r: Self)
        ensures
            r@ == (RsfErrorView::IoError { path: path@, message: message@ }),
    {
        RsfError::IoError { path, message }
    }

    /// Create a tabular-input error.
    pub fn csv_error(message: String) -> (r: Self)
        ensures
            r@ == (RsfErrorView::CsvError { message: message@ }),
    {
        RsfError::CsvError { message }
    }

    /// Create a schema-shape error.
    pub fn schema_error(message: String) -> (r: Self)
        ensures
            r@ == (RsfErrorView::SchemaError { message: message@ }),
    {
        RsfError::SchemaError { message }
    }

    /// Create a column-order error.
    pub fn column_order_error(position: usize, expected: String, found: String) -> (r: Self)
        ensures
            r@ == (RsfErrorView::ColumnOrderError {
                position: position as int,
                expected: expected@,
                found: found@,
            }),
    {
        RsfError::ColumnOrderError { position, expected, found }
    }

    /// Create a cardinality-ordering error.
    pub fn cardinality_error(column: String, expected: usize, found: usize) -> (r: Self)
        ensures
            r@ == (RsfErrorView::CardinalityError {
                column: column@,
                expected: expected as int,
                found: found as int,
            }),
    {
        RsfError::CardinalityError { column, expected, found }
    }

    /// Create a sort-order error.
    pub fn sort_error() -> (r: Self)
        ensures
            r@ == RsfErrorView::SortError,
    {
        RsfError::SortError
    }

    /// Create an unknown error.
    pub fn unknown(message: String) -> (r: Self)
        ensures
            r@ == (RsfErrorView::Unknown { message: message@ }),
    {
        RsfError::Unknown(message)
    }

    /// The human-readable rendering of the error.
    pub fn message(&self) -> (r: String)
        ensures
            r@ == error_message(self@),
    {
        let mut s = String::new();
        match self {
            RsfError::IoError { path, message } => {
                s.append("Failed to open file '");
                s.append(path.as_str());
                s.append("': ");
                s.append(message.as_str());
            },
            RsfError::CsvError { message } => {
                s.append("CSV error: ");
                s.append(message.as_str());
            },
            RsfError::SchemaError { message } => {
                s.append("Schema error: ");
                s.append(message.as_str());
            },
            RsfError::ColumnOrderError { position, expected, found } => {
                s.append("Column order mismatch at position ");
                append_dec(&mut s, *position);
                s.append(": expected '");
                s.append(expected.as_str());
                s.append("', found '");
                s.append(found.as_str());
                s.append("'");
            },
            RsfError::CardinalityError { column, expected, found } => {
                s.append("Column '");
                s.append(column.as_str());
                s.append("' has invalid cardinality: expected ");
                append_dec(&mut s, *expected);
                s.append(", found ");
                append_dec(&mut s, *found);
            },
            RsfError::SortError => {
                s.append("Rows are not in canonical sorted order");
            },
            RsfError::Unknown(message) => {
                s.append("Unknown error: ");
                s.append(message.as_str());
            },
        }
        proof {
            assert(s@ =~= error_message(self@));
        }
        s
    }
}

/// The rendering that `RsfError::message` produces for each kind.
pub open spec fn error_message(e: RsfErrorView) -> Seq<char> {
    match e {
        RsfErrorView::IoError { path, message } => "Failed to open file '"@ + path + "': "@
            + message,
        RsfErrorView::CsvError { message } => "CSV error: "@ + message,
        RsfErrorView::SchemaError { message } => "Schema error: "@ + message,
        RsfErrorView::ColumnOrderError { position, expected, found } => (
        "Column order mismatch at position "@ + dec_of(position) + ": expected '"@ + expected
            + "', found '"@ + found + "'"@),
        RsfErrorView::CardinalityError { column, expected, found } => "Column '"@ + column
            + "' has invalid cardinality: expected "@ + dec_of(expected) + ", found "@ + dec_of(
            found,
        ),
        RsfErrorView::SortError => "Rows are not in canonical sorted order"@,
        RsfErrorView::Unknown { message } => "Unknown error: "@ + message,
    }
}

} // verus!
