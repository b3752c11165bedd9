use rsf::errors::RsfError;
use rsf::ranking::rank_columns;
use rsf::ranking::ColumnMeta;
use rsf::reorder::reorder_data;
use rsf::sorting::sort_rows_canonical;
use rsf::validate::validate;
use rsf::validate::validate_cardinality_order;
use rsf::validate::validate_column_order;
use rsf::validate::validate_rank_sequence;
use rsf::validate::validate_sorted;

fn table(cells: &[&[&str]]) -> Vec<Vec<String>> {
    cells
        .iter()
        .map(|row| row.iter().map(|c| c.to_string()).collect())
        .collect()
}

fn names(list: &[&str]) -> Vec<String> {
    list.iter().map(|n| n.to_string()).collect()
}

fn canonicalize(
    headers: &[String],
    rows: &[Vec<String>],
) -> (Vec<String>, Vec<Vec<String>>, Vec<ColumnMeta>) {
    let ranked = rank_columns(headers, rows, Default::default()).unwrap();
    let (new_headers, new_rows) = reorder_data(headers, rows, &ranked).unwrap();
    let sorted = sort_rows_canonical(&new_rows);
    (new_headers, sorted, ranked)
}

#[test]
fn round_trip_validates() {
    let headers = names(&["id", "city", "flag"]);
    let rows = table(&[
        &["1", "oslo", "y"],
        &["2", "oslo", "n"],
        &["3", "bergen", "y"],
        &["4", "bergen", "y"],
    ]);
    let (new_headers, sorted, ranked) = canonicalize(&headers, &rows);
    let r = validate(&new_headers, &sorted, &ranked, Default::default());
    assert!(r.is_ok());
}

#[test]
fn round_trip_validates_with_blanks_and_ties() {
    let headers = names(&["a", "b"]);
    let rows = table(&[&["", "x"], &["  ", "y"], &["v", "x"]]);
    let (new_headers, sorted, ranked) = canonicalize(&headers, &rows);
    assert!(validate(&new_headers, &sorted, &ranked, Default::default()).is_ok());
}

#[test]
fn round_trip_validates_empty_table() {
    let (new_headers, sorted, ranked) = canonicalize(&[], &[]);
    assert!(validate(&new_headers, &sorted, &ranked, Default::default()).is_ok());
}

#[test]
fn broken_sort_order_is_reported() {
    let headers = names(&["id", "city"]);
    let rows = table(&[&["1", "oslo"], &["2", "bergen"]]);
    let (new_headers, mut sorted, ranked) = canonicalize(&headers, &rows);
    // mutate one cell so the rows are no longer in canonical order
    sorted[0][0] = "zzz".to_string();
    let err = validate(&new_headers, &sorted, &ranked, Default::default()).unwrap_err();
    assert!(matches!(err, RsfError::SortError));
    assert_eq!(err.message(), "Rows are not in canonical sorted order");
}

#[test]
fn swapped_headers_are_reported_at_first_position() {
    let headers = names(&["id", "city", "flag"]);
    let rows = table(&[
        &["1", "oslo", "y"],
        &["2", "oslo", "n"],
        &["3", "bergen", "y"],
    ]);
    let (mut new_headers, sorted, ranked) = canonicalize(&headers, &rows);
    new_headers.swap(0, 1);
    let err = validate(&new_headers, &sorted, &ranked, Default::default()).unwrap_err();
    match err {
        RsfError::ColumnOrderError {
            position,
            expected,
            found,
        } => {
            assert_eq!(position, 0);
            assert_eq!(expected, ranked[0].name);
            assert_eq!(found, ranked[1].name);
        }
        other => panic!("expected a column order error, got {:?}", other),
    }
}

#[test]
fn cardinality_off_by_one_is_reported_with_values() {
    let headers = names(&["id", "flag"]);
    let rows = table(&[&["1", "y"], &["2", "y"], &["3", "n"]]);
    let (new_headers, sorted, mut ranked) = canonicalize(&headers, &rows);
    // the id column has cardinality 3; claim 4 in the schema
    assert_eq!(ranked[0].name, "id");
    ranked[0].cardinality = 4;
    let err = validate(&new_headers, &sorted, &ranked, Default::default()).unwrap_err();
    match &err {
        RsfError::SchemaError { message } => {
            assert_eq!(
                message,
                "Column 'id' cardinality mismatch: schema 4, actual 3"
            );
        }
        other => panic!("expected a schema error, got {:?}", other),
    }
}

#[test]
fn column_count_mismatch_is_a_schema_error() {
    let headers = names(&["a"]);
    let schema = vec![
        ColumnMeta {
            name: "a".to_string(),
            rank: 1,
            cardinality: 0,
            col_type: None,
        },
        ColumnMeta {
            name: "b".to_string(),
            rank: 2,
            cardinality: 0,
            col_type: None,
        },
    ];
    let err = validate_column_order(&headers, &schema).unwrap_err();
    match &err {
        RsfError::SchemaError { message } => {
            assert_eq!(
                message,
                "Schema column count (2) does not match CSV column count (1)"
            );
        }
        other => panic!("expected a schema error, got {:?}", other),
    }
}

#[test]
fn empty_schema_needs_empty_headers() {
    let headers = names(&["a", "b"]);
    let err = validate_column_order(&headers, &[]).unwrap_err();
    match &err {
        RsfError::SchemaError { message } => {
            assert_eq!(
                message,
                "Schema column count (0) does not match CSV column count (2)"
            );
        }
        other => panic!("expected a schema error, got {:?}", other),
    }
    assert!(validate_column_order(&[], &[]).is_ok());
}

#[test]
fn non_sequential_rank_is_reported() {
    let schema = vec![
        ColumnMeta {
            name: "a".to_string(),
            rank: 1,
            cardinality: 1,
            col_type: None,
        },
        ColumnMeta {
            name: "b".to_string(),
            rank: 3,
            cardinality: 1,
            col_type: None,
        },
    ];
    let err = validate_rank_sequence(&schema).unwrap_err();
    match &err {
        RsfError::SchemaError { message } => {
            assert_eq!(message, "Column 'b' has invalid rank: expected 2, found 3");
        }
        other => panic!("expected a schema error, got {:?}", other),
    }
}

#[test]
fn schema_column_missing_from_data_is_reported() {
    let headers = names(&["a"]);
    let rows = table(&[&["1"]]);
    let schema = vec![ColumnMeta {
        name: "nope".to_string(),
        rank: 1,
        cardinality: 1,
        col_type: None,
    }];
    let err = validate_cardinality_order(&headers, &rows, &schema, Default::default()).unwrap_err();
    match &err {
        RsfError::SchemaError { message } => {
            assert_eq!(message, "Column 'nope' not found in data");
        }
        other => panic!("expected a schema error, got {:?}", other),
    }
}

#[test]
fn ascending_cardinality_is_a_cardinality_error() {
    let headers = names(&["low", "high"]);
    let rows = table(&[&["x", "1"], &["x", "2"], &["x", "3"]]);
    // schema claims the low-cardinality column first, with the true counts
    let schema = vec![
        ColumnMeta {
            name: "low".to_string(),
            rank: 1,
            cardinality: 1,
            col_type: None,
        },
        ColumnMeta {
            name: "high".to_string(),
            rank: 2,
            cardinality: 3,
            col_type: None,
        },
    ];
    let err = validate_cardinality_order(&headers, &rows, &schema, Default::default()).unwrap_err();
    match err {
        RsfError::CardinalityError {
            column,
            expected,
            found,
        } => {
            assert_eq!(column, "low");
            assert_eq!(expected, 3);
            assert_eq!(found, 1);
        }
        other => panic!("expected a cardinality error, got {:?}", other),
    }
}

#[test]
fn validate_sorted_accepts_sorted_rows() {
    let rows = table(&[&["a", "2"], &["b", "1"]]);
    assert!(validate_sorted(&rows).is_ok());
    assert!(validate_sorted(&[]).is_ok());
}

#[test]
fn validate_sorted_rejects_unsorted_rows() {
    let rows = table(&[&["b", "1"], &["a", "2"]]);
    let err = validate_sorted(&rows).unwrap_err();
    assert!(matches!(err, RsfError::SortError));
}

#[test]
fn error_constructors_carry_their_fields() {
    let e = RsfError::io_error("data.csv".to_string(), "permission denied".to_string());
    assert_eq!(
        e.message(),
        "Failed to open file 'data.csv': permission denied"
    );

    let e = RsfError::csv_error("bad quoting".to_string());
    assert_eq!(e.message(), "CSV error: bad quoting");

    let e = RsfError::schema_error("broken".to_string());
    assert_eq!(e.message(), "Schema error: broken");

    let e = RsfError::column_order_error(3, "want".to_string(), "got".to_string());
    assert_eq!(
        e.message(),
        "Column order mismatch at position 3: expected 'want', found 'got'"
    );

    let e = RsfError::cardinality_error("c".to_string(), 10, 7);
    assert_eq!(
        e.message(),
        "Column 'c' has invalid cardinality: expected 10, found 7"
    );

    let e = RsfError::sort_error();
    assert_eq!(e.message(), "Rows are not in canonical sorted order");

    let e = RsfError::unknown("what".to_string());
    assert_eq!(e.message(), "Unknown error: what");
}

#[test]
fn decimal_rendering_handles_large_numbers() {
    let e = RsfError::cardinality_error("wide".to_string(), 1204507, 0);
    assert_eq!(
        e.message(),
        "Column 'wide' has invalid cardinality: expected 1204507, found 0"
    );
}
