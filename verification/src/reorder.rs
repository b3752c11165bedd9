//! Table reordering: permute header and row cells from original column order
//! to ranked order.
//!
//! Each output row is materialized at the ranked column count: a target slot
//! whose column is found in the original headers receives that column's cell
//! (or the empty string where a ragged source row has no such cell); a slot
//! whose column is absent receives the empty string for every row.  This keeps
//! ragged-row quirks out of the canonical output while never fabricating cell
//! values that were not in the source row.

use vstd::prelude::*;
use crate::errors::RsfResult;
use crate::ranking::ColumnMeta;
use crate::ranking::ColumnMetaView;
use crate::text::str_equal;

verus! {

/// The first index at which `name` occurs in `headers`, or -1 when it does not.
pub open spec fn find_idx(headers: Seq<Seq<char>>, name: Seq<char>) -> int
    decreases headers.len(),
{
    if headers.len() == 0 {
        -1
    } else if headers[0] == name {
        0
    } else {
        let r = find_idx(headers.drop_first(), name);
        if r == -1 {
            -1
        } else {
            r + 1
        }
    }
}

/// `find_idx` is the first match: a hit names the least matching index, a miss
/// means no index matches.
pub proof fn lemma_find_idx_ensures(headers: Seq<Seq<char>>, name: Seq<char>)
    ensures
        find_idx(headers, name) == -1 ==> forall|i: int|
            0 <= i < headers.len() ==> #[trigger] headers[i] != name,
        find_idx(headers, name) != -1 ==> {
            &&& 0 <= find_idx(headers, name) < headers.len()
            &&& headers[find_idx(headers, name)] == name
            &&& forall|j: int| 0 <= j < find_idx(headers, name) ==> #[trigger] headers[j] != name
        },
    decreases headers.len(),
{
    if headers.len() != 0 && headers[0] != name {
        let rest = headers.drop_first();
        lemma_find_idx_ensures(rest, name);
        assert(forall|m: int| 0 <= m < rest.len() ==> #[trigger] rest[m] == headers[m + 1]);
        if find_idx(headers, name) == -1 {
            assert forall|i: int| 0 <= i < headers.len() implies #[trigger] headers[i] != name by {
                if i > 0 {
                    assert(rest[i - 1] == headers[i]);
                }
            }
        } else {
            assert forall|j: int| 0 <= j < find_idx(headers, name) implies #[trigger] headers[j]
                != name by {
                if j > 0 {
                    assert(rest[j - 1] == headers[j]);
                }
            }
        }
    }
}

/// The names of the ranked columns, in rank order: the reordered header row.
pub open spec fn ranked_names(metas: Seq<ColumnMetaView>) -> Seq<Seq<char>> {
    Seq::new(metas.len(), |k: int| metas[k].name)
}

/// One reordered row: slot `k` takes the cell of the ranked column's original
/// position when that column exists and the source row reaches it, and the
/// empty string otherwise.
pub open spec fn reorder_row_spec(
    headers: Seq<Seq<char>>,
    row: Seq<Seq<char>>,
    metas: Seq<ColumnMetaView>,
) -> Seq<Seq<char>> {
    Seq::new(
        metas.len(),
        |k: int|
            {
                let oi = find_idx(headers, metas[k].name);
                if 0 <= oi < row.len() {
                    row[oi]
                } else {
                    Seq::empty()
                }
            },
    )
}

/// All rows reordered, in their original order.
pub open spec fn reorder_rows_spec(
    headers: Seq<Seq<char>>,
    rows: Seq<Seq<Seq<char>>>,
    metas: Seq<ColumnMetaView>,
) -> Seq<Seq<Seq<char>>> {
    Seq::new(rows.len(), |i: int| reorder_row_spec(headers, rows[i], metas))
}

/// Reorder correctness for a found column: its original values move to its
/// target position in every row.
pub proof fn lemma_reorder_found(
    headers: Seq<Seq<char>>,
    rows: Seq<Seq<Seq<char>>>,
    metas: Seq<ColumnMetaView>,
    k: int,
)
    requires
        0 <= k < metas.len(),
        find_idx(headers, metas[k].name) >= 0,
    ensures
        forall|i: int|
            0 <= i < rows.len() ==> #[trigger] reorder_rows_spec(headers, rows, metas)[i][k] == (
            if find_idx(headers, metas[k].name) < rows[i].len() {
                rows[i][find_idx(headers, metas[k].name)]
            } else {
                Seq::<char>::empty()
            }),
{
}

/// Reorder correctness for a missing column: its target position holds the
/// empty string in every row.
pub proof fn lemma_reorder_missing(
    headers: Seq<Seq<char>>,
    rows: Seq<Seq<Seq<char>>>,
    metas: Seq<ColumnMetaView>,
    k: int,
)
    requires
        0 <= k < metas.len(),
        find_idx(headers, metas[k].name) == -1,
    ensures
        forall|i: int|
            0 <= i < rows.len() ==> #[trigger] reorder_rows_spec(headers, rows, metas)[i][k]
                == Seq::<char>::empty(),
{
}

/// The first index of `name` in `headers`, scanning forward.
fn find_position(headers: &[String], name: &str) -> (r: Option<usize>)
    ensures
        match r {
            Some(i) => find_idx(headers.deep_view(), name@) == i as int,
            None => find_idx(headers.deep_view(), name@) == -1,
        },
{
    proof {
        lemma_find_idx_ensures(headers.deep_view(), name@);
    }
    let n = headers.len();
    let mut i: usize = 0;
    while i < n
        invariant
            0 <= i <= n,
            n == headers@.len(),
            forall|j: int| 0 <= j < i ==> #[trigger] headers.deep_view()[j] != name@,
        decreases n - i,
    {
        if str_equal(headers[i].as_str(), name) {
            proof {
                lemma_find_idx_ensures(headers.deep_view(), name@);
                let f = find_idx(headers.deep_view(), name@);
                assert(headers.deep_view()[i as int] == name@);
                if f == -1 {
                    assert(false);
                }
                if f < i as int {
                    assert(headers.deep_view()[f] == name@);
                    assert(false);
                }
                if f > i as int {
                    assert(headers.deep_view()[i as int] != name@);
                    assert(false);
                }
            }
            return Some(i);
        }
        i = i + 1;
    }
    proof {
        lemma_find_idx_ensures(headers.deep_view(), name@);
        let f = find_idx(headers.deep_view(), name@);
        if f != -1 {
            assert(headers.deep_view()[f] == name@);
            assert(false);
        }
    }
    None
}

/// Reorder a table to ranked column order.  Always succeeds: a ranked column
/// missing from the original headers silently yields empty-string cells, and
/// an empty ranked list yields an empty table.
pub fn reorder_data(headers: &[String], rows: &[Vec<String>], ranked_columns: &[ColumnMeta]) -> (r:
    RsfResult<(Vec<String>, Vec<Vec<String>>)>)
    ensures
        r is Ok,
        r->Ok_0.0.deep_view() == ranked_names(ranked_columns.deep_view()),
        ranked_columns@.len() == 0 ==> r->Ok_0.1@.len() == 0,
        ranked_columns@.len() > 0 ==> r->Ok_0.1.deep_view() == reorder_rows_spec(
            headers.deep_view(),
            rows.deep_view(),
            ranked_columns.deep_view(),
        ),
{
    let ghost gheaders = headers.deep_view();
    let ghost gmetas = ranked_columns.deep_view();
    if ranked_columns.is_empty() {
        proof {
            assert(Seq::<String>::empty().map_values(|s: String| s@) =~= ranked_names(gmetas));
        }
        let empty_headers: Vec<String> = Vec::new();
        let empty_rows: Vec<Vec<String>> = Vec::new();
        proof {
            assert(empty_headers.deep_view() =~= ranked_names(gmetas));
        }
        return Ok((empty_headers, empty_rows));
    }
    let ntargets = ranked_columns.len();
    // Locate each ranked column's source position, and collect the new headers.
    let mut sources: Vec<Option<usize>> = Vec::new();
    let mut new_headers: Vec<String> = Vec::new();
    let mut k: usize = 0;
    while k < ntargets
        invariant
            0 <= k <= ntargets,
            ntargets == ranked_columns@.len(),
            gheaders == headers.deep_view(),
            gmetas == ranked_columns.deep_view(),
            sources@.len() == k,
            new_headers@.len() == k,
            forall|m: int|
                0 <= m < k ==> match #[trigger] sources@[m] {
                    Some(i) => find_idx(gheaders, gmetas[m].name) == i as int,
                    None => find_idx(gheaders, gmetas[m].name) == -1,
                },
            forall|m: int| 0 <= m < k ==> #[trigger] new_headers.deep_view()[m] == gmetas[m].name,
        decreases ntargets - k,
    {
        let col = &ranked_columns[k];
        sources.push(find_position(headers, col.name.as_str()));
        let ghost before = new_headers.deep_view();
        new_headers.push(col.name.clone());
        proof {
            assert(new_headers.deep_view()[k as int] == gmetas[k as int].name);
            assert(forall|m: int|
                0 <= m < k ==> #[trigger] new_headers.deep_view()[m] == before[m]);
        }
        k = k + 1;
    }
    proof {
        assert(new_headers.deep_view() =~= ranked_names(gmetas));
    }
    // Materialize the rows at the ranked width.
    let grows = Ghost(rows.deep_view());
    let nrows = rows.len();
    let mut new_rows: Vec<Vec<String>> = Vec::new();
    let mut i: usize = 0;
    while i < nrows
        invariant
            0 <= i <= nrows,
            nrows == rows@.len(),
            ntargets == ranked_columns@.len(),
            gheaders == headers.deep_view(),
            gmetas == ranked_columns.deep_view(),
            grows@ == rows.deep_view(),
            sources@.len() == ntargets,
            forall|m: int|
                0 <= m < ntargets ==> match #[trigger] sources@[m] {
                    Some(idx) => find_idx(gheaders, gmetas[m].name) == idx as int,
                    None => find_idx(gheaders, gmetas[m].name) == -1,
                },
            new_rows@.len() == i,
            forall|m: int|
                0 <= m < i ==> #[trigger] new_rows.deep_view()[m] == reorder_rows_spec(
                    gheaders,
                    grows@,
                    gmetas,
                )[m],
        decreases nrows - i,
    {
        let row = &rows[i];
        let mut new_row: Vec<String> = Vec::new();
        let mut k2: usize = 0;
        while k2 < ntargets
            invariant
                0 <= k2 <= ntargets,
                0 <= i < nrows,
                nrows == rows@.len(),
                ntargets == ranked_columns@.len(),
                gheaders == headers.deep_view(),
                gmetas == ranked_columns.deep_view(),
                grows@ == rows.deep_view(),
                row == &rows@[i as int],
                sources@.len() == ntargets,
                forall|m: int|
                    0 <= m < ntargets ==> match #[trigger] sources@[m] {
                        Some(idx) => find_idx(gheaders, gmetas[m].name) == idx as int,
                        None => find_idx(gheaders, gmetas[m].name) == -1,
                    },
                new_row@.len() == k2,
                forall|m: int|
                    0 <= m < k2 ==> #[trigger] new_row.deep_view()[m] == reorder_row_spec(
                        gheaders,
                        row.deep_view(),
                        gmetas,
                    )[m],
            decreases ntargets - k2,
        {
            let cell: String = match sources[k2] {
                Some(oi) => {
                    if oi < row.len() {
                        row[oi].clone()
                    } else {
                        String::new()
                    }
                },
                None => String::new(),
            };
            proof {
                assert(cell@ == reorder_row_spec(gheaders, row.deep_view(), gmetas)[k2 as int]);
            }
            let ghost before_row = new_row.deep_view();
            let ghost gcell = cell@;
            new_row.push(cell);
            proof {
                assert(new_row.deep_view()[k2 as int] == gcell);
                assert(forall|m: int|
                    0 <= m < k2 ==> #[trigger] new_row.deep_view()[m] == before_row[m]);
            }
            k2 = k2 + 1;
        }
        proof {
            assert(new_row.deep_view() =~= reorder_row_spec(gheaders, row.deep_view(), gmetas));
            assert(row.deep_view() == grows@[i as int]);
        }
        let ghost before_rows = new_rows.deep_view();
        let ghost grow = new_row.deep_view();
        new_rows.push(new_row);
        proof {
            assert(new_rows.deep_view()[i as int] == grow);
            assert(forall|m: int|
                0 <= m < i ==> #[trigger] new_rows.deep_view()[m] == before_rows[m]);
        }
        i = i + 1;
    }
    proof {
        assert(new_rows.deep_view() =~= reorder_rows_spec(gheaders, grows@, gmetas));
    }
    Ok((new_headers, new_rows))
}

} // verus!
