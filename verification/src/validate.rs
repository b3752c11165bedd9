//! Validation of a table against a schema: column-order conformance, rank
//! sequencing, cardinality agreement and ordering, and canonical row sort
//! order.  The four checks are independently callable; `validate` runs them in
//! order and stops at the first violation.

use vstd::prelude::*;
use vstd::string::StringExecFns;
use crate::errors::RsfError;
use crate::errors::RsfErrorView;
use crate::errors::RsfResult;
use crate::ranking::ColumnMeta;
use crate::ranking::ColumnMetaView;
use crate::ranking::cards_of;
use crate::ranking::key_lt;
use crate::ranking::lemma_sort_idx_ensures;
use crate::ranking::ranking_spec;
use crate::ranking::sort_idx;
use crate::reorder::find_idx;
use crate::reorder::lemma_find_idx_ensures;
use crate::reorder::ranked_names;
use crate::reorder::reorder_row_spec;
use crate::reorder::reorder_rows_spec;
use crate::stats::ColumnStats;
use crate::stats::RankingOptions;
use crate::stats::card_of;
use crate::stats::col_set;
use crate::stats::compute_cardinality;
use crate::stats::lemma_col_set_multiset_invariant;
use crate::stats::lemma_col_set_take_step;
use crate::sorting::row_sorted;
use crate::sorting::sort_rows_spec;
use crate::sorting::lemma_sort_rows_ensures;
use crate::sorting::lemma_sort_of_sorted;
use crate::sorting::sort_rows_canonical;
use crate::text::append_dec;
use crate::text::dec_of;
use crate::text::str_equal;

verus! {

/// The spec-level image of an engine result.
pub open spec fn result_view(r: RsfResult<()>) -> Result<(), RsfErrorView> {
    match r {
        Ok(()) => Ok(()),
        Err(e) => Err(e@),
    }
}

pub open spec fn count_mismatch_msg(schema_n: int, csv_n: int) -> Seq<char> {
    "Schema column count ("@ + dec_of(schema_n) + ") does not match CSV column count ("@ + dec_of(
        csv_n,
    ) + ")"@
}

pub open spec fn rank_msg(name: Seq<char>, expected: int, found: int) -> Seq<char> {
    "Column '"@ + name + "' has invalid rank: expected "@ + dec_of(expected) + ", found "@
        + dec_of(found)
}

pub open spec fn not_found_msg(name: Seq<char>) -> Seq<char> {
    "Column '"@ + name + "' not found in data"@
}

pub open spec fn card_mismatch_msg(name: Seq<char>, schema_card: int, actual: int) -> Seq<char> {
    "Column '"@ + name + "' cardinality mismatch: schema "@ + dec_of(schema_card) + ", actual "@
        + dec_of(actual)
}

fn build_count_mismatch_msg(schema_n: usize, csv_n: usize) -> (r: String)
    ensures
        r@ == count_mismatch_msg(schema_n as int, csv_n as int),
{
    let mut s = String::new();
    s.append("Schema column count (");
    append_dec(&mut s, schema_n);
    s.append(") does not match CSV column count (");
    append_dec(&mut s, csv_n);
    s.append(")");
    proof {
        assert(s@ =~= count_mismatch_msg(schema_n as int, csv_n as int));
    }
    s
}

fn build_rank_msg(name: &str, expected: usize, found: usize) -> (r: String)
    ensures
        r@ == rank_msg(name@, expected as int, found as int),
{
    let mut s = String::new();
    s.append("Column '");
    s.append(name);
    s.append("' has invalid rank: expected ");
    append_dec(&mut s, expected);
    s.append(", found ");
    append_dec(&mut s, found);
    proof {
        assert(s@ =~= rank_msg(name@, expected as int, found as int));
    }
    s
}

fn build_not_found_msg(name: &str) -> (r: String)
    ensures
        r@ == not_found_msg(name@),
{
    let mut s = String::new();
    s.append("Column '");
    s.append(name);
    s.append("' not found in data");
    proof {
        assert(s@ =~= not_found_msg(name@));
    }
    s
}

fn build_card_mismatch_msg(name: &str, schema_card: usize, actual: usize) -> (r: String)
    ensures
        r@ == card_mismatch_msg(name@, schema_card as int, actual as int),
{
    let mut s = String::new();
    s.append("Column '");
    s.append(name);
    s.append("' cardinality mismatch: schema ");
    append_dec(&mut s, schema_card);
    s.append(", actual ");
    append_dec(&mut s, actual);
    proof {
        assert(s@ =~= card_mismatch_msg(name@, schema_card as int, actual as int));
    }
    s
}

/// Column-order conformance from position `k` on: the first name mismatch is
/// the error.
pub open spec fn column_order_check_from(
    headers: Seq<Seq<char>>,
    metas: Seq<ColumnMetaView>,
    k: int,
) -> Result<(), RsfErrorView>
    decreases metas.len() - k,
{
    if k < 0 || k >= metas.len() {
        Ok(())
    } else if headers[k] != metas[k].name {
        Err(
            RsfErrorView::ColumnOrderError {
                position: k,
                expected: metas[k].name,
                found: headers[k],
            },
        )
    } else {
        column_order_check_from(headers, metas, k + 1)
    }
}

/// Column-order conformance (§`validate_column_order`): the schema column
/// count must equal the header count — a mismatch is a schema error —
/// and each position must carry the schema's name.
pub open spec fn column_order_check(headers: Seq<Seq<char>>, metas: Seq<ColumnMetaView>) -> Result<
    (),
    RsfErrorView,
> {
    if headers.len() != metas.len() {
        Err(
            RsfErrorView::SchemaError {
                message: count_mismatch_msg(metas.len() as int, headers.len() as int),
            },
        )
    } else {
        column_order_check_from(headers, metas, 0)
    }
}

pub proof fn lemma_column_order_check_from_ok(
    headers: Seq<Seq<char>>,
    metas: Seq<ColumnMetaView>,
    k: int,
)
    requires
        0 <= k,
    ensures
        (column_order_check_from(headers, metas, k) is Ok) <==> (forall|j: int|
            k <= j < metas.len() ==> #[trigger] headers[j] == metas[j].name),
    decreases metas.len() - k,
{
    if 0 <= k < metas.len() && headers[k] == metas[k].name {
        lemma_column_order_check_from_ok(headers, metas, k + 1);
    }
}

/// Column-order conformance passes exactly when the counts agree and the
/// header row carries the schema's names, position for position.
pub proof fn lemma_column_order_check_ok(headers: Seq<Seq<char>>, metas: Seq<ColumnMetaView>)
    ensures
        (column_order_check(headers, metas) is Ok) <==> (headers.len() == metas.len() && forall|
            j: int,
        | 0 <= j < metas.len() ==> #[trigger] headers[j] == metas[j].name),
{
    lemma_column_order_check_from_ok(headers, metas, 0);
}

/// Rank sequencing from position `k` on: rank must be position + 1.
pub open spec fn rank_check_from(metas: Seq<ColumnMetaView>, k: int) -> Result<(), RsfErrorView>
    decreases metas.len() - k,
{
    if k < 0 || k >= metas.len() {
        Ok(())
    } else if metas[k].rank != k + 1 {
        Err(RsfErrorView::SchemaError { message: rank_msg(metas[k].name, k + 1, metas[k].rank) })
    } else {
        rank_check_from(metas, k + 1)
    }
}

pub open spec fn rank_check(metas: Seq<ColumnMetaView>) -> Result<(), RsfErrorView> {
    rank_check_from(metas, 0)
}

pub proof fn lemma_rank_check_from_ok(metas: Seq<ColumnMetaView>, k: int)
    requires
        0 <= k,
    ensures
        (rank_check_from(metas, k) is Ok) <==> (forall|j: int|
            k <= j < metas.len() ==> #[trigger] metas[j].rank == j + 1),
    decreases metas.len() - k,
{
    if 0 <= k < metas.len() && metas[k].rank == k + 1 {
        lemma_rank_check_from_ok(metas, k + 1);
    }
}

/// The last index at which `name` occurs in `headers`, or -1: the occurrence
/// whose cardinality a lookup by name observes when names repeat.
pub open spec fn rfind_idx(headers: Seq<Seq<char>>, name: Seq<char>) -> int
    decreases headers.len(),
{
    if headers.len() == 0 {
        -1
    } else if headers.last() == name {
        headers.len() - 1
    } else {
        rfind_idx(headers.drop_last(), name)
    }
}

pub proof fn lemma_rfind_idx_ensures(headers: Seq<Seq<char>>, name: Seq<char>)
    ensures
        rfind_idx(headers, name) == -1 ==> forall|i: int|
            0 <= i < headers.len() ==> #[trigger] headers[i] != name,
        rfind_idx(headers, name) != -1 ==> {
            &&& 0 <= rfind_idx(headers, name) < headers.len()
            &&& headers[rfind_idx(headers, name)] == name
            &&& forall|j: int|
                rfind_idx(headers, name) < j < headers.len() ==> #[trigger] headers[j] != name
        },
    decreases headers.len(),
{
    if headers.len() != 0 && headers.last() != name {
        let prefix = headers.drop_last();
        lemma_rfind_idx_ensures(prefix, name);
        let r = rfind_idx(headers, name);
        if r == -1 {
            assert forall|i: int| 0 <= i < headers.len() implies #[trigger] headers[i] != name by {
                if i < headers.len() - 1 {
                    assert(prefix[i] == headers[i]);
                    assert(prefix[i] != name);
                }
            }
        } else {
            assert(prefix[r] == headers[r]);
            assert forall|j: int| r < j < headers.len() implies #[trigger] headers[j] != name by {
                if j < headers.len() - 1 {
                    assert(prefix[j] == headers[j]);
                    assert(prefix[j] != name);
                }
            }
        }
    }
}

/// In a duplicate-free header row, the lookup of a header's name finds exactly
/// its position.
pub proof fn lemma_rfind_idx_unique(headers: Seq<Seq<char>>, k: int)
    requires
        headers.no_duplicates(),
        0 <= k < headers.len(),
    ensures
        rfind_idx(headers, headers[k]) == k,
{
    lemma_rfind_idx_ensures(headers, headers[k]);
    let r = rfind_idx(headers, headers[k]);
    if r == -1 {
        assert(headers[k] != headers[k]);
    }
    assert(headers[r] == headers[k]);
}

/// The recomputed cardinality that a lookup by column name observes.
pub open spec fn card_lookup(
    headers: Seq<Seq<char>>,
    rows: Seq<Seq<Seq<char>>>,
    opts: RankingOptions,
    name: Seq<char>,
) -> Option<int> {
    let i = rfind_idx(headers, name);
    if i == -1 {
        None
    } else {
        Some(card_of(rows, i, opts) as int)
    }
}

/// Cardinality agreement from schema position `k` on: each schema column must
/// name a column of the data, whose recomputed cardinality equals the stored
/// one.
pub open spec fn card_match_check_from(
    headers: Seq<Seq<char>>,
    rows: Seq<Seq<Seq<char>>>,
    metas: Seq<ColumnMetaView>,
    opts: RankingOptions,
    k: int,
) -> Result<(), RsfErrorView>
    decreases metas.len() - k,
{
    if k < 0 || k >= metas.len() {
        Ok(())
    } else {
        match card_lookup(headers, rows, opts, metas[k].name) {
            None => Err(RsfErrorView::SchemaError { message: not_found_msg(metas[k].name) }),
            Some(actual) => {
                if actual != metas[k].cardinality {
                    Err(
                        RsfErrorView::SchemaError {
                            message: card_mismatch_msg(
                                metas[k].name,
                                metas[k].cardinality,
                                actual,
                            ),
                        },
                    )
                } else {
                    card_match_check_from(headers, rows, metas, opts, k + 1)
                }
            },
        }
    }
}

pub proof fn lemma_card_match_check_from_ok(
    headers: Seq<Seq<char>>,
    rows: Seq<Seq<Seq<char>>>,
    metas: Seq<ColumnMetaView>,
    opts: RankingOptions,
    k: int,
)
    requires
        0 <= k,
    ensures
        (card_match_check_from(headers, rows, metas, opts, k) is Ok) <==> (forall|j: int|
            k <= j < metas.len() ==> #[trigger] card_lookup(headers, rows, opts, metas[j].name)
                == Some(metas[j].cardinality)),
    decreases metas.len() - k,
{
    if 0 <= k < metas.len() {
        if card_lookup(headers, rows, opts, metas[k].name) == Some(metas[k].cardinality) {
            lemma_card_match_check_from_ok(headers, rows, metas, opts, k + 1);
        }
    }
}

/// Descending-cardinality ordering over adjacent schema columns, from pair
/// `(k, k + 1)` on, in terms of the recomputed cardinalities.
pub open spec fn card_order_check_from(
    headers: Seq<Seq<char>>,
    rows: Seq<Seq<Seq<char>>>,
    metas: Seq<ColumnMetaView>,
    opts: RankingOptions,
    k: int,
) -> Result<(), RsfErrorView>
    decreases metas.len() - k,
{
    if k < 0 || k + 1 >= metas.len() {
        Ok(())
    } else {
        let curr = card_lookup(headers, rows, opts, metas[k].name);
        let next = card_lookup(headers, rows, opts, metas[k + 1].name);
        if curr is Some && next is Some && curr.unwrap() < next.unwrap() {
            Err(
                RsfErrorView::CardinalityError {
                    column: metas[k].name,
                    expected: next.unwrap(),
                    found: curr.unwrap(),
                },
            )
        } else {
            card_order_check_from(headers, rows, metas, opts, k + 1)
        }
    }
}

pub proof fn lemma_card_order_check_from_ok(
    headers: Seq<Seq<char>>,
    rows: Seq<Seq<Seq<char>>>,
    metas: Seq<ColumnMetaView>,
    opts: RankingOptions,
    k: int,
)
    requires
        0 <= k,
    ensures
        (card_order_check_from(headers, rows, metas, opts, k) is Ok) <==> (forall|j: int|
            k <= j < metas.len() - 1 ==> {
                let curr = #[trigger] card_lookup(headers, rows, opts, metas[j].name);
                let next = card_lookup(headers, rows, opts, metas[j + 1].name);
                (curr is Some && next is Some) ==> curr.unwrap() >= next.unwrap()
            }),
    decreases metas.len() - k,
{
    if 0 <= k && k + 1 < metas.len() {
        let curr = card_lookup(headers, rows, opts, metas[k].name);
        let next = card_lookup(headers, rows, opts, metas[k + 1].name);
        if !(curr is Some && next is Some && curr.unwrap() < next.unwrap()) {
            lemma_card_order_check_from_ok(headers, rows, metas, opts, k + 1);
        }
    }
}

/// Cardinality agreement and ordering (§`validate_cardinality_order`).
pub open spec fn cardinality_check(
    headers: Seq<Seq<char>>,
    rows: Seq<Seq<Seq<char>>>,
    metas: Seq<ColumnMetaView>,
    opts: RankingOptions,
) -> Result<(), RsfErrorView> {
    if metas.len() == 0 {
        Ok(())
    } else {
        match card_match_check_from(headers, rows, metas, opts, 0) {
            Err(e) => Err(e),
            Ok(()) => card_order_check_from(headers, rows, metas, opts, 0),
        }
    }
}

/// Canonical sort conformance: the rows must equal their own canonical sort.
pub open spec fn sorted_check(rows: Seq<Seq<Seq<char>>>) -> Result<(), RsfErrorView> {
    if sort_rows_spec(rows) == rows {
        Ok(())
    } else {
        Err(RsfErrorView::SortError)
    }
}

/// The full validation: the four checks in order, stopping at the first
/// violation.
pub open spec fn validate_check(
    headers: Seq<Seq<char>>,
    rows: Seq<Seq<Seq<char>>>,
    metas: Seq<ColumnMetaView>,
    opts: RankingOptions,
) -> Result<(), RsfErrorView> {
    match column_order_check(headers, metas) {
        Err(e) => Err(e),
        Ok(()) => match rank_check(metas) {
            Err(e) => Err(e),
            Ok(()) => match cardinality_check(headers, rows, metas, opts) {
                Err(e) => Err(e),
                Ok(()) => sorted_check(rows),
            },
        },
    }
}

/// Validate that the header row follows the schema's column order.
pub fn validate_column_order(headers: &[String], schema_columns: &[ColumnMeta]) -> (r: RsfResult<
    (),
>)
    ensures
        result_view(r) == column_order_check(headers.deep_view(), schema_columns.deep_view()),
{
    let ghost gheaders = headers.deep_view();
    let ghost gmetas = schema_columns.deep_view();
    if headers.len() != schema_columns.len() {
        return Err(
            RsfError::schema_error(build_count_mismatch_msg(schema_columns.len(), headers.len())),
        );
    }
    let n = schema_columns.len();
    let mut k: usize = 0;
    while k < n
        invariant
            0 <= k <= n,
            n == schema_columns@.len(),
            n == headers@.len(),
            gheaders == headers.deep_view(),
            gmetas == schema_columns.deep_view(),
            column_order_check_from(gheaders, gmetas, 0) == column_order_check_from(
                gheaders,
                gmetas,
                k as int,
            ),
        decreases n - k,
    {
        let col = &schema_columns[k];
        if !str_equal(headers[k].as_str(), col.name.as_str()) {
            proof {
                assert(gheaders[k as int] != gmetas[k as int].name);
            }
            return Err(
                RsfError::column_order_error(k, col.name.clone(), headers[k].clone()),
            );
        }
        proof {
            assert(gheaders[k as int] == gmetas[k as int].name);
        }
        k = k + 1;
    }
    Ok(())
}

/// Validate that the schema's ranks are exactly 1, 2, … in order.
pub fn validate_rank_sequence(schema_columns: &[ColumnMeta]) -> (r: RsfResult<()>)
    ensures
        result_view(r) == rank_check(schema_columns.deep_view()),
{
    let ghost gmetas = schema_columns.deep_view();
    let n = schema_columns.len();
    let mut k: usize = 0;
    while k < n
        invariant
            0 <= k <= n,
            n == schema_columns@.len(),
            gmetas == schema_columns.deep_view(),
            rank_check_from(gmetas, 0) == rank_check_from(gmetas, k as int),
        decreases n - k,
    {
        let col = &schema_columns[k];
        if col.rank != k + 1 {
            return Err(RsfError::schema_error(build_rank_msg(col.name.as_str(), k + 1, col.rank)));
        }
        k = k + 1;
    }
    Ok(())
}

/// Look up the recomputed cardinality of the column named `name`; when names
/// repeat, the last occurrence wins.
fn lookup_card(
    headers: &[String],
    stats: &Vec<ColumnStats>,
    name: &str,
    Ghost(grows): Ghost<Seq<Seq<Seq<char>>>>,
    Ghost(gopts): Ghost<RankingOptions>,
) -> (r: Option<usize>)
    requires
        stats@.len() == headers@.len(),
        forall|m: int|
            0 <= m < headers@.len() ==> #[trigger] stats@[m].name@ == headers.deep_view()[m],
        forall|m: int|
            0 <= m < headers@.len() ==> #[trigger] stats@[m].cardinality == card_of(
                grows,
                m,
                gopts,
            ),
    ensures
        match r {
            Some(c) => card_lookup(headers.deep_view(), grows, gopts, name@) == Some(c as int),
            None => card_lookup(headers.deep_view(), grows, gopts, name@) is None,
        },
{
    let ghost gheaders = headers.deep_view();
    let n = headers.len();
    let mut best: Option<usize> = None;
    let mut i: usize = 0;
    proof {
        assert(gheaders.take(0) =~= Seq::<Seq<char>>::empty());
    }
    while i < n
        invariant
            0 <= i <= n,
            n == headers@.len(),
            gheaders == headers.deep_view(),
            stats@.len() == n,
            forall|m: int| 0 <= m < n ==> #[trigger] stats@[m].name@ == gheaders[m],
            forall|m: int| 0 <= m < n ==> #[trigger] stats@[m].cardinality == card_of(
                grows,
                m,
                gopts,
            ),
            match best {
                Some(b) => b < i && rfind_idx(gheaders.take(i as int), name@) == b as int,
                None => rfind_idx(gheaders.take(i as int), name@) == -1,
            },
        decreases n - i,
    {
        proof {
            assert(gheaders.take(i + 1).drop_last() =~= gheaders.take(i as int));
            assert(gheaders.take(i + 1).last() == gheaders[i as int]);
        }
        if str_equal(stats[i].name.as_str(), name) {
            best = Some(i);
        }
        i = i + 1;
    }
    proof {
        assert(gheaders.take(n as int) =~= gheaders);
    }
    match best {
        Some(b) => Some(stats[b].cardinality),
        None => None,
    }
}

/// Validate cardinality agreement: recompute each column's cardinality from
/// the table, require every schema column's stored cardinality to match, and
/// require the schema sequence to be non-increasing in (recomputed)
/// cardinality.
pub fn validate_cardinality_order(
    headers: &[String],
    rows: &[Vec<String>],
    schema_columns: &[ColumnMeta],
    options: RankingOptions,
) -> (r: RsfResult<()>)
    ensures
        result_view(r) == cardinality_check(
            headers.deep_view(),
            rows.deep_view(),
            schema_columns.deep_view(),
            options,
        ),
{
    let ghost gheaders = headers.deep_view();
    let ghost grows = rows.deep_view();
    let ghost gmetas = schema_columns.deep_view();
    if schema_columns.is_empty() {
        return Ok(());
    }
    let stats: Vec<ColumnStats> = match compute_cardinality(headers, rows, options) {
        Ok(s) => s,
        Err(e) => {
            return Err(e);
        },
    };
    let n = schema_columns.len();
    // First pass: every schema column must be found with the stored cardinality.
    let mut actuals: Vec<usize> = Vec::new();
    let mut k: usize = 0;
    while k < n
        invariant
            0 <= k <= n,
            n == schema_columns@.len(),
            n > 0,
            gheaders == headers.deep_view(),
            grows == rows.deep_view(),
            gmetas == schema_columns.deep_view(),
            stats@.len() == headers@.len(),
            forall|m: int|
                0 <= m < headers@.len() ==> #[trigger] stats@[m].name@ == gheaders[m],
            forall|m: int|
                0 <= m < headers@.len() ==> #[trigger] stats@[m].cardinality == card_of(
                    grows,
                    m,
                    options,
                ),
            actuals@.len() == k,
            forall|m: int|
                0 <= m < k ==> card_lookup(gheaders, grows, options, gmetas[m].name) == Some(
                    #[trigger] actuals@[m] as int,
                ),
            card_match_check_from(gheaders, grows, gmetas, options, 0) == card_match_check_from(
                gheaders,
                grows,
                gmetas,
                options,
                k as int,
            ),
        decreases n - k,
    {
        let col = &schema_columns[k];
        match lookup_card(headers, &stats, col.name.as_str(), Ghost(grows), Ghost(options)) {
            None => {
                return Err(RsfError::schema_error(build_not_found_msg(col.name.as_str())));
            },
            Some(actual) => {
                if actual != col.cardinality {
                    return Err(
                        RsfError::schema_error(
                            build_card_mismatch_msg(col.name.as_str(), col.cardinality, actual),
                        ),
                    );
                }
                actuals.push(actual);
            },
        }
        k = k + 1;
    }
    // Second pass: adjacent schema columns must be non-increasing in
    // recomputed cardinality.
    let mut k2: usize = 0;
    while k2 < n - 1
        invariant
            0 <= k2 <= n,
            n == schema_columns@.len(),
            n > 0,
            gheaders == headers.deep_view(),
            grows == rows.deep_view(),
            gmetas == schema_columns.deep_view(),
            actuals@.len() == n,
            forall|m: int|
                0 <= m < n ==> card_lookup(gheaders, grows, options, gmetas[m].name) == Some(
                    #[trigger] actuals@[m] as int,
                ),
            card_match_check_from(gheaders, grows, gmetas, options, 0) is Ok,
            card_order_check_from(gheaders, grows, gmetas, options, 0) == card_order_check_from(
                gheaders,
                grows,
                gmetas,
                options,
                k2 as int,
            ),
        decreases n - k2,
    {
        let curr = actuals[k2];
        let next = actuals[k2 + 1];
        if curr < next {
            let col = &schema_columns[k2];
            return Err(RsfError::cardinality_error(col.name.clone(), next, curr));
        }
        k2 = k2 + 1;
    }
    Ok(())
}

/// Validate that the rows are in canonical sorted order.
pub fn validate_sorted(rows: &[Vec<String>]) -> (r: RsfResult<()>)
    ensures
        result_view(r) == sorted_check(rows.deep_view()),
        r is Ok <==> row_sorted(rows.deep_view()),
{
    let ghost grows = rows.deep_view();
    proof {
        lemma_sort_rows_ensures(grows);
        if row_sorted(grows) {
            lemma_sort_of_sorted(grows);
        }
    }
    let sorted = sort_rows_canonical(rows);
    let n = rows.len();
    // The sort keeps the row count, so only cell content needs comparing.
    let mut i: usize = 0;
    while i < n
        invariant
            0 <= i <= n,
            n == rows@.len(),
            grows == rows.deep_view(),
            sorted@.len() == n,
            sorted.deep_view() == sort_rows_spec(grows),
            row_sorted(grows) ==> sort_rows_spec(grows) == grows,
            forall|m: int| 0 <= m < i ==> #[trigger] sorted.deep_view()[m] == grows[m],
        decreases n - i,
    {
        if !rows_equal_at(rows, &sorted, i) {
            proof {
                assert(sort_rows_spec(grows) != grows);
            }
            return Err(RsfError::sort_error());
        }
        i = i + 1;
    }
    proof {
        assert(sorted.deep_view() =~= grows);
        lemma_sort_rows_ensures(grows);
    }
    Ok(())
}

/// Compare row `i` of the input with row `i` of its sorted copy, cell by cell.
fn rows_equal_at(rows: &[Vec<String>], sorted: &Vec<Vec<String>>, i: usize) -> (r: bool)
    requires
        i < rows@.len(),
        i < sorted@.len(),
    ensures
        r == (sorted.deep_view()[i as int] == rows.deep_view()[i as int]),
{
    let a = &sorted[i];
    let b = &rows[i];
    let ghost da = sorted.deep_view()[i as int];
    let ghost db = rows.deep_view()[i as int];
    proof {
        assert(da == a.deep_view());
        assert(db == b.deep_view());
    }
    if a.len() != b.len() {
        proof {
            assert(da.len() != db.len());
        }
        return false;
    }
    let w = a.len();
    let mut k: usize = 0;
    while k < w
        invariant
            0 <= k <= w,
            w == a@.len(),
            w == b@.len(),
            da == a.deep_view(),
            db == b.deep_view(),
            a == &sorted@[i as int],
            b == &rows@[i as int],
            i < rows@.len(),
            i < sorted@.len(),
            forall|m: int| 0 <= m < k ==> #[trigger] da[m] == db[m],
        decreases w - k,
    {
        if !str_equal(a[k].as_str(), b[k].as_str()) {
            proof {
                assert(da[k as int] != db[k as int]);
            }
            return false;
        }
        k = k + 1;
    }
    proof {
        assert(da =~= db);
    }
    true
}

/// Column `k` of the reordered table carries exactly the values of original
/// column `oi`, row for row, when every row is as wide as the header row.
proof fn lemma_col_set_reorder(
    headers: Seq<Seq<char>>,
    rows: Seq<Seq<Seq<char>>>,
    metas: Seq<ColumnMetaView>,
    k: int,
    oi: int,
    opts: RankingOptions,
    m: int,
)
    requires
        0 <= k < metas.len(),
        0 <= oi < headers.len(),
        find_idx(headers, metas[k].name) == oi,
        forall|i: int| 0 <= i < rows.len() ==> #[trigger] rows[i].len() == headers.len(),
        0 <= m <= rows.len(),
    ensures
        col_set(reorder_rows_spec(headers, rows, metas).take(m), k, opts) == col_set(
            rows.take(m),
            oi,
            opts,
        ),
    decreases m,
{
    let r2 = reorder_rows_spec(headers, rows, metas);
    if m == 0 {
        assert(r2.take(0) =~= Seq::<Seq<Seq<char>>>::empty());
        assert(rows.take(0) =~= Seq::<Seq<Seq<char>>>::empty());
    } else {
        lemma_col_set_reorder(headers, rows, metas, k, oi, opts, m - 1);
        lemma_col_set_take_step(r2, m - 1, k, opts);
        lemma_col_set_take_step(rows, m - 1, oi, opts);
        assert(r2[m - 1] == reorder_row_spec(headers, rows[m - 1], metas));
        assert(rows[m - 1].len() == headers.len());
        assert(r2[m - 1][k] == rows[m - 1][oi]);
        assert(r2[m - 1].len() == metas.len());
    }
}

/// Validator round trip: rank a table whose header names are unique and whose
/// rows are all as wide as the header row, reorder it to ranked order, sort
/// the rows canonically — the result passes all four validation checks
/// against the ranking it was built from, under the same options.
pub proof fn lemma_validator_round_trip(
    headers: Seq<Seq<char>>,
    rows: Seq<Seq<Seq<char>>>,
    opts: RankingOptions,
)
    requires
        headers.no_duplicates(),
        forall|i: int| 0 <= i < rows.len() ==> #[trigger] rows[i].len() == headers.len(),
    ensures
        ({
            let metas = ranking_spec(headers, rows, opts);
            let new_headers = ranked_names(metas);
            let reordered = if metas.len() == 0 {
                Seq::<Seq<Seq<char>>>::empty()
            } else {
                reorder_rows_spec(headers, rows, metas)
            };
            let sorted = sort_rows_spec(reordered);
            validate_check(new_headers, sorted, metas, opts) == Ok::<(), RsfErrorView>(())
        }),
{
    let n = headers.len() as int;
    let cards = cards_of(headers, rows, opts);
    let p = sort_idx(cards);
    let metas = ranking_spec(headers, rows, opts);
    let new_headers = ranked_names(metas);
    let reordered = if metas.len() == 0 {
        Seq::<Seq<Seq<char>>>::empty()
    } else {
        reorder_rows_spec(headers, rows, metas)
    };
    let sorted = sort_rows_spec(reordered);
    lemma_sort_idx_ensures(cards);
    assert(metas.len() == n);
    assert(new_headers.len() == n);
    assert(forall|kk: int| 0 <= kk < n ==> #[trigger] new_headers[kk] == metas[kk].name);
    // Column order and rank sequencing hold by construction.
    lemma_column_order_check_ok(new_headers, metas);
    lemma_rank_check_from_ok(metas, 0);
    assert(column_order_check(new_headers, metas) is Ok);
    assert(rank_check(metas) is Ok);
    // Canonical sort conformance: the sorted rows are a fixed point.
    lemma_sort_rows_ensures(reordered);
    lemma_sort_of_sorted(sorted);
    assert(sorted_check(sorted) is Ok);
    // The ranking permutation hits distinct positions, so the new header row
    // inherits uniqueness from the original one.
    assert forall|k1: int, k2: int| 0 <= k1 < k2 < n implies #[trigger] new_headers[k1]
        != #[trigger] new_headers[k2] by {
        assert(key_lt(cards, p[k1], p[k2]));
        assert(p[k1] != p[k2]);
    }
    assert(new_headers.no_duplicates());
    if n > 0 {
        // Each ranked column's recomputed cardinality is its original one.
        assert forall|k: int| 0 <= k < n implies #[trigger] card_lookup(
            new_headers,
            sorted,
            opts,
            metas[k].name,
        ) == Some(metas[k].cardinality) by {
            lemma_rfind_idx_unique(new_headers, k);
            assert(rfind_idx(new_headers, metas[k].name) == k);
            // the ranked name sits at its sorted position in the original headers
            lemma_find_idx_ensures(headers, metas[k].name);
            let f = find_idx(headers, metas[k].name);
            assert(metas[k].name == headers[p[k]]);
            if f == -1 {
                assert(headers[p[k]] != metas[k].name);
            }
            assert(headers[f] == headers[p[k]]);
            assert(f == p[k]);
            lemma_col_set_reorder(headers, rows, metas, k, p[k], opts, rows.len() as int);
            assert(reordered.take(rows.len() as int) =~= reordered);
            assert(rows.take(rows.len() as int) =~= rows);
            assert(col_set(reordered, k, opts) == col_set(rows, p[k], opts));
            lemma_col_set_multiset_invariant(sorted, reordered, k, opts);
            assert(card_of(sorted, k, opts) == card_of(rows, p[k], opts));
            assert(metas[k].cardinality == cards[p[k]]);
        }
        lemma_card_match_check_from_ok(new_headers, sorted, metas, opts, 0);
        assert(card_match_check_from(new_headers, sorted, metas, opts, 0) is Ok);
        // Adjacent ranked columns are non-increasing in cardinality.
        assert forall|j: int| 0 <= j < n - 1 implies {
            let curr = #[trigger] card_lookup(new_headers, sorted, opts, metas[j].name);
            let next = card_lookup(new_headers, sorted, opts, metas[j + 1].name);
            (curr is Some && next is Some) ==> curr.unwrap() >= next.unwrap()
        } by {
            assert(key_lt(cards, p[j], p[j + 1]));
            assert(metas[j].cardinality == cards[p[j]]);
            assert(metas[j + 1].cardinality == cards[p[j + 1]]);
        }
        lemma_card_order_check_from_ok(new_headers, sorted, metas, opts, 0);
        assert(card_order_check_from(new_headers, sorted, metas, opts, 0) is Ok);
    }
    assert(cardinality_check(new_headers, sorted, metas, opts) is Ok);
}

/// Run the four validation checks in order, stopping at the first violation.
pub fn validate(
    headers: &[String],
    rows: &[Vec<String>],
    schema_columns: &[ColumnMeta],
    options: RankingOptions,
) -> (r: RsfResult<()>)
    ensures
        result_view(r) == validate_check(
            headers.deep_view(),
            rows.deep_view(),
            schema_columns.deep_view(),
            options,
        ),
{
    match validate_column_order(headers, schema_columns) {
        Err(e) => {
            return Err(e);
        },
        Ok(()) => {},
    }
    match validate_rank_sequence(schema_columns) {
        Err(e) => {
            return Err(e);
        },
        Ok(()) => {},
    }
    match validate_cardinality_order(headers, rows, schema_columns, options) {
        Err(e) => {
            return Err(e);
        },
        Ok(()) => {},
    }
    validate_sorted(rows)
}

} // verus!
