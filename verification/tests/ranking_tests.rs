use rsf::ranking::rank_columns;
use rsf::ranking::ColumnMeta;
use rsf::ranking::ColumnType;
use rsf::ranking::Schema;
use rsf::reorder::reorder_data;
use rsf::sorting::sort_rows_canonical;
use rsf::stats::compute_cardinality;
use rsf::stats::normalize_value;
use rsf::stats::ColumnStats;
use rsf::stats::RankingOptions;

fn table(cells: &[&[&str]]) -> Vec<Vec<String>> {
    cells
        .iter()
        .map(|row| row.iter().map(|c| c.to_string()).collect())
        .collect()
}

fn names(list: &[&str]) -> Vec<String> {
    list.iter().map(|n| n.to_string()).collect()
}

#[test]
fn test_rank_columns_basic() {
    let headers = vec!["A".to_string(), "B".to_string()];
    let rows = vec![
        vec!["1".to_string(), "x".to_string()],
        vec!["2".to_string(), "x".to_string()],
        vec!["1".to_string(), "y".to_string()],
    ];

    let ranked = rank_columns(&headers, &rows, Default::default()).unwrap();

    assert_eq!(ranked.len(), 2);
    assert_eq!(ranked[0].name, "A");
    assert_eq!(ranked[0].cardinality, 2);
    assert_eq!(ranked[1].name, "B");
    assert_eq!(ranked[1].cardinality, 2);
}

#[test]
fn test_rank_columns_with_tiebreaker() {
    let headers = vec!["A".to_string(), "B".to_string(), "C".to_string()];
    let rows = vec![
        vec!["1".to_string(), "x".to_string(), "alpha".to_string()],
        vec!["2".to_string(), "x".to_string(), "beta".to_string()],
        vec!["1".to_string(), "y".to_string(), "gamma".to_string()],
    ];

    let ranked = rank_columns(&headers, &rows, Default::default()).unwrap();

    assert_eq!(ranked.len(), 3);
    // A and B have same cardinality (2), so C (3) should be first
    assert_eq!(ranked[0].name, "C");
    assert_eq!(ranked[1].name, "A");
    assert_eq!(ranked[2].name, "B");
}

#[test]
fn test_reorder_data() {
    let headers = vec!["A".to_string(), "B".to_string()];
    let rows = vec![
        vec!["1".to_string(), "x".to_string()],
        vec!["2".to_string(), "y".to_string()],
    ];

    let ranked = vec![
        ColumnMeta {
            name: "B".to_string(),
            rank: 1,
            cardinality: 2,
            col_type: None,
        },
        ColumnMeta {
            name: "A".to_string(),
            rank: 2,
            cardinality: 2,
            col_type: None,
        },
    ];

    let (new_headers, new_rows) = reorder_data(&headers, &rows, &ranked).unwrap();

    assert_eq!(new_headers, vec!["B".to_string(), "A".to_string()]);
    assert_eq!(new_rows[0], vec!["x".to_string(), "1".to_string()]);
    assert_eq!(new_rows[1], vec!["y".to_string(), "2".to_string()]);
}

#[test]
fn test_sort_rows_canonical() {
    let rows = vec![
        vec!["b".to_string(), "2".to_string()],
        vec!["a".to_string(), "1".to_string()],
        vec!["c".to_string(), "3".to_string()],
    ];

    let sorted = sort_rows_canonical(&rows);

    assert_eq!(sorted[0], vec!["a".to_string(), "1".to_string()]);
    assert_eq!(sorted[1], vec!["b".to_string(), "2".to_string()]);
    assert_eq!(sorted[2], vec!["c".to_string(), "3".to_string()]);
}

#[test]
fn test_empty_input() {
    let ranked = rank_columns(&[], &[], Default::default()).unwrap();
    assert!(ranked.is_empty());

    let (new_headers, new_rows) = reorder_data(&[], &[], &[]).unwrap();
    assert!(new_headers.is_empty());
    assert!(new_rows.is_empty());

    let sorted = sort_rows_canonical(&[]);
    assert!(sorted.is_empty());
}

#[test]
fn test_trailing_columns() {
    let headers = vec!["A".to_string(), "B".to_string()];
    let rows = vec![
        vec!["1".to_string(), "x".to_string()],
        vec!["2".to_string(), "y".to_string()],
    ];

    let ranked = rank_columns(&headers, &rows, Default::default()).unwrap();
    assert_eq!(ranked.len(), 2);

    let (new_headers, new_rows) = reorder_data(&headers, &rows, &ranked).unwrap();
    assert_eq!(new_headers.len(), 2);
    assert_eq!(new_rows.len(), 2);
}

#[test]
fn ranking_is_deterministic() {
    let headers = names(&["id", "city", "flag"]);
    let rows = table(&[
        &["1", "oslo", "y"],
        &["2", "oslo", "n"],
        &["3", "bergen", "y"],
    ]);
    let first = rank_columns(&headers, &rows, Default::default()).unwrap();
    let second = rank_columns(&headers, &rows, Default::default()).unwrap();
    assert_eq!(first.len(), second.len());
    for (a, b) in first.iter().zip(second.iter()) {
        assert_eq!(a.name, b.name);
        assert_eq!(a.rank, b.rank);
        assert_eq!(a.cardinality, b.cardinality);
    }
}

#[test]
fn ranks_are_contiguous_from_one() {
    let headers = names(&["a", "b", "c", "d"]);
    let rows = table(&[&["1", "1", "1", "1"], &["2", "1", "2", "1"]]);
    let ranked = rank_columns(&headers, &rows, Default::default()).unwrap();
    assert_eq!(ranked.len(), 4);
    for (i, col) in ranked.iter().enumerate() {
        assert_eq!(col.rank, i + 1);
    }
}

#[test]
fn tie_break_follows_original_order() {
    // cardinalities [2, 2, 3]: the high-cardinality column leads, the tied
    // pair keeps its original relative order
    let headers = names(&["A", "B", "C"]);
    let rows = table(&[&["1", "x", "p"], &["2", "x", "q"], &["1", "y", "r"]]);
    let ranked = rank_columns(&headers, &rows, Default::default()).unwrap();
    assert_eq!(ranked[0].name, "C");
    assert_eq!(ranked[1].name, "A");
    assert_eq!(ranked[2].name, "B");
    assert_eq!(ranked[0].rank, 1);
    assert_eq!(ranked[1].rank, 2);
    assert_eq!(ranked[2].rank, 3);
}

#[test]
fn cardinality_counts_distinct_values() {
    // column values ["1", "2", "1"] have cardinality 2
    let headers = names(&["n"]);
    let rows = table(&[&["1"], &["2"], &["1"]]);
    let stats = compute_cardinality(&headers, &rows, Default::default()).unwrap();
    assert_eq!(stats.len(), 1);
    assert_eq!(stats[0].cardinality(), 2);
}

#[test]
fn cardinality_ignores_missing_trailing_cells() {
    let headers = names(&["A", "B"]);
    let rows = table(&[&["x"], &["y", "z"]]);
    let stats = compute_cardinality(&headers, &rows, Default::default()).unwrap();
    assert_eq!(stats[0].cardinality(), 2);
    assert_eq!(stats[1].cardinality(), 1);
}

#[test]
fn cardinality_ignores_cells_beyond_headers() {
    let headers = names(&["A"]);
    let rows = table(&[&["x", "extra"], &["y", "extra2"]]);
    let stats = compute_cardinality(&headers, &rows, Default::default()).unwrap();
    assert_eq!(stats.len(), 1);
    assert_eq!(stats[0].cardinality(), 2);
}

#[test]
fn zero_rows_gives_zero_cardinality_and_header_order() {
    let headers = names(&["B", "A"]);
    let ranked = rank_columns(&headers, &[], Default::default()).unwrap();
    assert_eq!(ranked.len(), 2);
    assert_eq!(ranked[0].name, "B");
    assert_eq!(ranked[0].rank, 1);
    assert_eq!(ranked[0].cardinality, 0);
    assert_eq!(ranked[1].name, "A");
    assert_eq!(ranked[1].rank, 2);
    assert_eq!(ranked[1].cardinality, 0);
}

#[test]
fn column_stats_deduplicates_values() {
    let mut stats = ColumnStats::new("c".to_string());
    assert_eq!(stats.cardinality(), 0);
    stats.add_value("a");
    stats.add_value("b");
    stats.add_value("a");
    assert_eq!(stats.cardinality(), 2);
    assert_eq!(stats.distinct_values().len(), 2);
    assert!(stats.distinct_values().contains(&"a".to_string()));
    assert!(stats.distinct_values().contains(&"b".to_string()));
}

#[test]
fn normalize_blank_cells_to_null_marker() {
    let opts = RankingOptions::default();
    assert_eq!(normalize_value("", opts), "NULL");
    assert_eq!(normalize_value("   ", opts), "NULL");
    assert_eq!(normalize_value("\t\n", opts), "NULL");
    assert_eq!(normalize_value("a", opts), "a");
    // non-blank values are not trimmed
    assert_eq!(normalize_value(" a ", opts), " a ");
}

#[test]
fn normalize_keeps_blanks_when_disabled() {
    let opts = RankingOptions {
        treat_empty_as_null: false,
        include_nulls: false,
    };
    assert_eq!(normalize_value("", opts), "");
    assert_eq!(normalize_value("  ", opts), "  ");
}

#[test]
fn include_nulls_flag_is_inert() {
    let with = RankingOptions {
        treat_empty_as_null: true,
        include_nulls: true,
    };
    let without = RankingOptions {
        treat_empty_as_null: true,
        include_nulls: false,
    };
    assert_eq!(normalize_value(" ", with), normalize_value(" ", without));
}

#[test]
fn blank_and_empty_cells_collapse_to_one_value() {
    let headers = names(&["c"]);
    let rows = table(&[&[""], &["  "], &["\t"]]);
    let stats = compute_cardinality(&headers, &rows, Default::default()).unwrap();
    assert_eq!(stats[0].cardinality(), 1);
    assert_eq!(stats[0].distinct_values()[0], "NULL");
}

#[test]
fn reorder_missing_column_yields_empty_cells() {
    let headers = names(&["A"]);
    let rows = table(&[&["1"], &["2"]]);
    let ranked = vec![
        ColumnMeta {
            name: "ghostly".to_string(),
            rank: 1,
            cardinality: 0,
            col_type: None,
        },
        ColumnMeta {
            name: "A".to_string(),
            rank: 2,
            cardinality: 2,
            col_type: None,
        },
    ];
    let (new_headers, new_rows) = reorder_data(&headers, &rows, &ranked).unwrap();
    assert_eq!(new_headers, names(&["ghostly", "A"]));
    assert_eq!(new_rows[0], names(&["", "1"]));
    assert_eq!(new_rows[1], names(&["", "2"]));
}

#[test]
fn reorder_ragged_row_fills_empty_cells() {
    let headers = names(&["A", "B"]);
    let rows = table(&[&["1"], &["2", "x"]]);
    let ranked = vec![
        ColumnMeta {
            name: "B".to_string(),
            rank: 1,
            cardinality: 1,
            col_type: None,
        },
        ColumnMeta {
            name: "A".to_string(),
            rank: 2,
            cardinality: 2,
            col_type: None,
        },
    ];
    let (_, new_rows) = reorder_data(&headers, &rows, &ranked).unwrap();
    // the short row has no cell for B; the output is materialized at the
    // ranked width with an empty cell there
    assert_eq!(new_rows[0], names(&["", "1"]));
    assert_eq!(new_rows[1], names(&["x", "2"]));
}

#[test]
fn sort_is_idempotent() {
    let rows = table(&[&["b", "1"], &["a", "2"], &["a", "1"], &["b", "1"]]);
    let once = sort_rows_canonical(&rows);
    let twice = sort_rows_canonical(&once);
    assert_eq!(once, twice);
}

#[test]
fn sorted_result_is_totally_ordered() {
    let rows = table(&[&["c"], &["a"], &["b"], &["a"]]);
    let sorted = sort_rows_canonical(&rows);
    for i in 0..sorted.len() {
        for j in (i + 1)..sorted.len() {
            assert!(sorted[i] <= sorted[j]);
        }
    }
}

#[test]
fn sort_compares_cells_left_to_right() {
    let rows = table(&[&["b", "a"], &["a", "z"], &["a", "b"]]);
    let sorted = sort_rows_canonical(&rows);
    assert_eq!(sorted[0], names(&["a", "b"]));
    assert_eq!(sorted[1], names(&["a", "z"]));
    assert_eq!(sorted[2], names(&["b", "a"]));
}

#[test]
fn schema_wraps_ranked_columns() {
    let headers = names(&["k", "v"]);
    let rows = table(&[&["1", "a"], &["2", "a"]]);
    let mut ranked = rank_columns(&headers, &rows, Default::default()).unwrap();
    ranked[0].col_type = Some(ColumnType::Key);
    ranked[1].col_type = Some(ColumnType::Value);
    let schema = Schema {
        version: "0.1".to_string(),
        columns: ranked,
    };
    assert_eq!(schema.version, "0.1");
    assert_eq!(schema.columns.len(), 2);
    assert!(matches!(schema.columns[0].col_type, Some(ColumnType::Key)));
    assert!(matches!(schema.columns[1].col_type, Some(ColumnType::Value)));
}

#[test]
fn sort_keeps_multiset_of_rows() {
    let rows = table(&[&["x"], &["x"], &["a"]]);
    let sorted = sort_rows_canonical(&rows);
    assert_eq!(sorted.len(), 3);
    assert_eq!(sorted[0], names(&["a"]));
    assert_eq!(sorted[1], names(&["x"]));
    assert_eq!(sorted[2], names(&["x"]));
}
