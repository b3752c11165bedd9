//! Cardinality analysis: per column, the number of distinct normalized cell
//! values across all rows.

use vstd::prelude::*;
use vstd::seq_lib::*;
use vstd::string::StrSliceExecFns;
use vstd::string::StringExecFns;
use crate::errors::RsfResult;
use crate::text::is_blank;
use crate::text::str_equal;
use crate::text::str_is_blank;

verus! {

/// Options controlling cell normalization before cardinality counting.
#[derive(Debug, Clone, Copy)]
pub struct RankingOptions {
    /// Normalize whitespace-only cells to the null marker before counting.
    pub treat_empty_as_null: bool,
    /// Accepted for compatibility; normalization applies whenever
    /// `treat_empty_as_null` does, so this flag does not change behavior.
    pub include_nulls: bool,
}

impl Default for RankingOptions {
    fn default() -> (r: Self)
        ensures
            r.treat_empty_as_null == true,
            r.include_nulls == false,
    {
        Self { treat_empty_as_null: true, include_nulls: false }
    }
}

/// The sentinel that stands for a null (whitespace-only) cell.
pub open spec fn null_marker() -> Seq<char> {
    "NULL"@
}

/// Normalization of a cell value: a whitespace-only cell becomes the null
/// marker when `treat_empty_as_null` is set; anything else is kept unchanged
/// (in particular, non-blank values are not trimmed).
pub open spec fn normalize_spec(v: Seq<char>, opts: RankingOptions) -> Seq<char> {
    if opts.treat_empty_as_null && is_blank(v) {
        null_marker()
    } else {
        v
    }
}

/// Normalize a cell value for cardinality counting.
pub fn normalize_value(value: &str, options: RankingOptions) -> (r: String)
    ensures
        r@ == normalize_spec(value@, options),
{
    if options.treat_empty_as_null && str_is_blank(value) {
        String::from_str("NULL")
    } else {
        value.to_owned()
    }
}

/// The set of normalized values that column `j` takes over `rows`; a cell
/// beyond a short row's length is simply not counted for that row.
pub open spec fn col_set(rows: Seq<Seq<Seq<char>>>, j: int, opts: RankingOptions) -> Set<
    Seq<char>,
>
    decreases rows.len(),
{
    if rows.len() == 0 {
        Set::empty()
    } else {
        let prev = col_set(rows.drop_last(), j, opts);
        if 0 <= j < rows.last().len() {
            prev.insert(normalize_spec(rows.last()[j], opts))
        } else {
            prev
        }
    }
}

/// The cardinality of column `j`: how many distinct normalized values it takes.
pub open spec fn card_of(rows: Seq<Seq<Seq<char>>>, j: int, opts: RankingOptions) -> nat {
    col_set(rows, j, opts).len()
}

pub proof fn lemma_col_set_take_step(rows: Seq<Seq<Seq<char>>>, i: int, j: int, opts: RankingOptions)
    requires
        0 <= i < rows.len(),
    ensures
        col_set(rows.take(i + 1), j, opts) == if 0 <= j < rows[i].len() {
            col_set(rows.take(i), j, opts).insert(normalize_spec(rows[i][j], opts))
        } else {
            col_set(rows.take(i), j, opts)
        },
{
    assert(rows.take(i + 1).drop_last() =~= rows.take(i));
    assert(rows.take(i + 1).last() == rows[i]);
}

/// A column's value set is determined by which rows occur, not by their
/// order: membership says some row reaches column `j` with that normalized
/// value.
pub proof fn lemma_col_set_characterize(rows: Seq<Seq<Seq<char>>>, j: int, opts: RankingOptions)
    ensures
        forall|v: Seq<char>|
            #[trigger] col_set(rows, j, opts).contains(v) <==> (exists|row: Seq<Seq<char>>|
                #[trigger] rows.contains(row) && 0 <= j < row.len() && v == normalize_spec(
                    row[j],
                    opts,
                )),
    decreases rows.len(),
{
    if rows.len() != 0 {
        let prefix = rows.drop_last();
        let last = rows.last();
        lemma_col_set_characterize(prefix, j, opts);
        assert(forall|m: int| 0 <= m < prefix.len() ==> #[trigger] prefix[m] == rows[m]);
        assert forall|v: Seq<char>| #[trigger] col_set(rows, j, opts).contains(v) implies (
        exists|row: Seq<Seq<char>>|
            #[trigger] rows.contains(row) && 0 <= j < row.len() && v == normalize_spec(
                row[j],
                opts,
            )) by {
            if col_set(prefix, j, opts).contains(v) {
                let row = choose|row: Seq<Seq<char>>|
                    #[trigger] prefix.contains(row) && 0 <= j < row.len() && v == normalize_spec(
                        row[j],
                        opts,
                    );
                let m = choose|m: int| 0 <= m < prefix.len() && prefix[m] == row;
                assert(rows[m] == row);
                assert(rows.contains(row));
            } else {
                assert(0 <= j < last.len() && v == normalize_spec(last[j], opts));
                assert(rows[rows.len() - 1] == last);
                assert(rows.contains(last));
            }
        }
        assert forall|v: Seq<char>|
            (exists|row: Seq<Seq<char>>|
                #[trigger] rows.contains(row) && 0 <= j < row.len() && v == normalize_spec(
                    row[j],
                    opts,
                )) implies #[trigger] col_set(rows, j, opts).contains(v) by {
            let row = choose|row: Seq<Seq<char>>|
                #[trigger] rows.contains(row) && 0 <= j < row.len() && v == normalize_spec(
                    row[j],
                    opts,
                );
            let m = choose|m: int| 0 <= m < rows.len() && rows[m] == row;
            if m < rows.len() - 1 {
                assert(prefix[m] == row);
                assert(prefix.contains(row));
                assert(col_set(prefix, j, opts).contains(v));
            } else {
                assert(row == last);
            }
        }
    }
}

/// Two row sequences with the same rows (as a multiset) have the same column
/// value sets, hence the same cardinalities.
pub proof fn lemma_col_set_multiset_invariant(
    a: Seq<Seq<Seq<char>>>,
    b: Seq<Seq<Seq<char>>>,
    j: int,
    opts: RankingOptions,
)
    requires
        a.to_multiset() == b.to_multiset(),
    ensures
        col_set(a, j, opts) == col_set(b, j, opts),
{
    lemma_col_set_characterize(a, j, opts);
    lemma_col_set_characterize(b, j, opts);
    a.to_multiset_ensures();
    b.to_multiset_ensures();
    assert forall|row: Seq<Seq<char>>| #[trigger] a.contains(row) <==> b.contains(row) by {
        assert(a.contains(row) <==> a.to_multiset().count(row) > 0);
        assert(b.contains(row) <==> b.to_multiset().count(row) > 0);
    }
    assert forall|v: Seq<char>| #[trigger] col_set(a, j, opts).contains(v) <==> col_set(
        b,
        j,
        opts,
    ).contains(v) by {
        if col_set(a, j, opts).contains(v) {
            let row = choose|row: Seq<Seq<char>>|
                #[trigger] a.contains(row) && 0 <= j < row.len() && v == normalize_spec(
                    row[j],
                    opts,
                );
            assert(b.contains(row));
        }
        if col_set(b, j, opts).contains(v) {
            let row = choose|row: Seq<Seq<char>>|
                #[trigger] b.contains(row) && 0 <= j < row.len() && v == normalize_spec(
                    row[j],
                    opts,
                );
            assert(a.contains(row));
        }
    }
    assert(col_set(a, j, opts) =~= col_set(b, j, opts));
}

/// Per-column working state: the column's name and the distinct normalized
/// values seen so far, kept without duplicates so that the derived
/// `cardinality` field is the size of the value set.
#[derive(Debug, Clone)]
pub struct ColumnStats {
    pub name: String,
    pub cardinality: usize,
    pub distinct_values: Vec<String>,
}

impl ColumnStats {
    /// Well-formedness: no value is recorded twice, and the cached
    /// cardinality is the number of recorded values.
    pub open spec fn wf(&self) -> bool {
        &&& self.distinct_values.deep_view().no_duplicates()
        &&& self.cardinality == self.distinct_values@.len()
    }

    /// The set of distinct normalized values recorded so far.
    pub open spec fn value_set(&self) -> Set<Seq<char>> {
        self.distinct_values.deep_view().to_set()
    }

    pub fn new(name: String) -> (r: Self)
        ensures
            r.wf(),
            r.name@ == name@,
            r.value_set() == Set::<Seq<char>>::empty(),
            r.cardinality == 0,
    {
        let r = Self { name, cardinality: 0, distinct_values: Vec::new() };
        proof {
            assert(r.value_set() =~= Set::<Seq<char>>::empty());
        }
        r
    }

    /// Record one observed (already normalized) value.
    pub fn add_value(&mut self, value: &str)
        requires
            old(self).wf(),
        ensures
            final(self).wf(),
            final(self).name == old(self).name,
            final(self).value_set() == old(self).value_set().insert(value@),
            final(self).cardinality == final(self).distinct_values@.len(),
    {
        let n = self.distinct_values.len();
        let mut i: usize = 0;
        while i < n
            invariant
                *self == *old(self),
                old(self).wf(),
                0 <= i <= n,
                n == self.distinct_values@.len(),
                forall|k: int| 0 <= k < i ==> self.distinct_values.deep_view()[k] != value@,
            decreases n - i,
        {
            if str_equal(self.distinct_values[i].as_str(), value) {
                proof {
                    assert(self.distinct_values.deep_view()[i as int] == value@);
                    assert(self.distinct_values.deep_view().contains(value@));
                    assert(self.value_set().contains(value@));
                    assert(self.value_set() =~= self.value_set().insert(value@));
                }
                return ;
            }
            i = i + 1;
        }
        let ghost old_deep = self.distinct_values.deep_view();
        proof {
            assert(!old_deep.contains(value@));
        }
        self.distinct_values.push(value.to_owned());
        self.cardinality = self.distinct_values.len();
        proof {
            assert(self.distinct_values.deep_view() =~= old_deep.push(value@));
            assert(old_deep.push(value@).no_duplicates()) by {
                assert forall|p: int, q: int|
                    0 <= p < q < old_deep.push(value@).len() implies old_deep.push(value@)[p]
                    != old_deep.push(value@)[q] by {
                    if q == old_deep.len() {
                        assert(old_deep[p] != value@);
                    }
                }
            }
            assert forall|x: Seq<char>| self.value_set().contains(x) <==> old(
                self,
            ).value_set().insert(value@).contains(x) by {
                let pushed = old_deep.push(value@);
                if pushed.contains(x) {
                    let idx = choose|idx: int| 0 <= idx < pushed.len() && pushed[idx] == x;
                    if idx < old_deep.len() {
                        assert(old_deep[idx] == x);
                    }
                }
                if old_deep.contains(x) {
                    let idx = choose|idx: int| 0 <= idx < old_deep.len() && old_deep[idx] == x;
                    assert(pushed[idx] == x);
                }
                if x == value@ {
                    assert(pushed[old_deep.len() as int] == x);
                }
            }
            assert(self.value_set() =~= old(self).value_set().insert(value@));
        }
    }

    /// The column's cardinality; under well-formedness this is exactly the
    /// size of the set of distinct recorded values.
    pub fn cardinality(&self) -> (r: usize)
        ensures
            r == self.cardinality,
            self.wf() ==> r == self.value_set().len(),
    {
        proof {
            if self.wf() {
                self.distinct_values.deep_view().unique_seq_to_set();
            }
        }
        self.cardinality
    }

    /// The distinct normalized values recorded so far.
    pub fn distinct_values(&self) -> (r: &Vec<String>)
        ensures
            r == &self.distinct_values,
    {
        &self.distinct_values
    }
}

/// Compute per-column cardinality statistics: one record per header, in
/// header order; for each row, each cell within `min(row length, header
/// count)` is normalized and recorded for its column.  There are no error
/// conditions; the result is always `Ok`.
pub fn compute_cardinality(
    headers: &[String],
    rows: &[Vec<String>],
    options: RankingOptions,
) -> (r: RsfResult<Vec<ColumnStats>>)
    ensures
        r is Ok,
        r->Ok_0@.len() == headers@.len(),
        forall|k: int|
            0 <= k < headers@.len() ==> {
                let s = #[trigger] r->Ok_0@[k];
                &&& s.wf()
                &&& s.name@ == headers.deep_view()[k]
                &&& s.value_set() == col_set(rows.deep_view(), k, options)
                &&& s.cardinality == card_of(rows.deep_view(), k, options)
            },
{
    let ncols = headers.len();
    let mut stats: Vec<ColumnStats> = Vec::new();
    let mut k: usize = 0;
    while k < ncols
        invariant
            0 <= k <= ncols,
            ncols == headers@.len(),
            stats@.len() == k,
            forall|m: int|
                0 <= m < k ==> {
                    let s = #[trigger] stats@[m];
                    &&& s.wf()
                    &&& s.name@ == headers.deep_view()[m]
                    &&& s.value_set() == Set::<Seq<char>>::empty()
                },
        decreases ncols - k,
    {
        stats.push(ColumnStats::new(headers[k].clone()));
        k = k + 1;
    }
    let ghost all_rows = rows.deep_view();
    proof {
        assert(all_rows.take(0) =~= Seq::<Seq<Seq<char>>>::empty());
        assert(forall|m: int|
            0 <= m < ncols ==> col_set(all_rows.take(0), m, options) =~= Set::<Seq<char>>::empty());
    }
    let nrows = rows.len();
    let mut i: usize = 0;
    while i < nrows
        invariant
            0 <= i <= nrows,
            nrows == rows@.len(),
            ncols == headers@.len(),
            all_rows == rows.deep_view(),
            stats@.len() == ncols,
            forall|m: int|
                0 <= m < ncols ==> {
                    let s = #[trigger] stats@[m];
                    &&& s.wf()
                    &&& s.name@ == headers.deep_view()[m]
                    &&& s.value_set() == col_set(all_rows.take(i as int), m, options)
                },
        decreases nrows - i,
    {
        let row = &rows[i];
        let width = if row.len() < ncols {
            row.len()
        } else {
            ncols
        };
        let mut j: usize = 0;
        while j < width
            invariant
                0 <= j <= width,
                0 <= i < nrows,
                nrows == rows@.len(),
                ncols == headers@.len(),
                all_rows == rows.deep_view(),
                row == &rows@[i as int],
                width == if row@.len() < ncols {
                    row@.len() as int
                } else {
                    ncols as int
                },
                stats@.len() == ncols,
                forall|m: int|
                    0 <= m < ncols ==> {
                        let s = #[trigger] stats@[m];
                        &&& s.wf()
                        &&& s.name@ == headers.deep_view()[m]
                        &&& s.value_set() == (if m < j {
                            col_set(all_rows.take(i + 1), m, options)
                        } else {
                            col_set(all_rows.take(i as int), m, options)
                        })
                    },
            decreases width - j,
        {
            let val = normalize_value(row[j].as_str(), options);
            let ghost before = stats@;
            let st = &mut stats[j];
            st.add_value(val.as_str());
            proof {
                lemma_col_set_take_step(all_rows, i as int, j as int, options);
                assert(all_rows[i as int] == row.deep_view());
                assert(all_rows[i as int][j as int] == row.deep_view()[j as int]);
                assert(stats@ =~= before.update(j as int, stats@[j as int]));
            }
            j = j + 1;
        }
        proof {
            assert forall|m: int| 0 <= m < ncols implies #[trigger] col_set(
                all_rows.take(i + 1),
                m,
                options,
            ) == (if m < width {
                col_set(all_rows.take(i + 1), m, options)
            } else {
                col_set(all_rows.take(i as int), m, options)
            }) by {
                if m >= width {
                    lemma_col_set_take_step(all_rows, i as int, m, options);
                    assert(all_rows[i as int].len() == row.deep_view().len());
                }
            }
        }
        i = i + 1;
    }
    proof {
        assert(all_rows.take(nrows as int) =~= all_rows);
        assert(forall|m: int|
            0 <= m < ncols ==> #[trigger] col_set(all_rows.take(nrows as int), m, options)
                == col_set(all_rows, m, options));
        assert forall|m: int| 0 <= m < ncols implies #[trigger] stats@[m].cardinality == card_of(
            all_rows,
            m,
            options,
        ) by {
            stats@[m].distinct_values.deep_view().unique_seq_to_set();
        }
    }
    Ok(stats)
}

} // verus!
