//! Canonical row ordering: rows are compared cell by cell, left to right, in
//! codepoint order; when every compared cell is equal the rows compare equal
//! (comparison runs through the shorter of the two rows).

use vstd::prelude::*;
use vstd::seq_lib::lemma_multiset_commutative;
use crate::text::str_cmp;
use crate::text::lemma_str_cmp_range;
use crate::text::lemma_str_cmp_eq;
use crate::text::lemma_str_cmp_antisym;
use crate::text::lemma_str_cmp_trans;
use crate::text::str_compare;

verus! {

/// Three-way lexicographic comparison of rows, cell by cell through the
/// shorter row; exhausting either row without a differing cell means equality.
pub open spec fn row_cmp(a: Seq<Seq<char>>, b: Seq<Seq<char>>) -> int
    decreases a.len(),
{
    if a.len() == 0 || b.len() == 0 {
        0
    } else {
        let c = str_cmp(a[0], b[0]);
        if c != 0 {
            c
        } else {
            row_cmp(a.drop_first(), b.drop_first())
        }
    }
}

/// `a` strictly precedes `b` in canonical row order.
pub open spec fn row_lt(a: Seq<Seq<char>>, b: Seq<Seq<char>>) -> bool {
    row_cmp(a, b) < 0
}

/// `a` precedes or equals `b` in canonical row order.
pub open spec fn row_le(a: Seq<Seq<char>>, b: Seq<Seq<char>>) -> bool {
    row_cmp(a, b) <= 0
}

/// Every pair of rows, not only adjacent ones, is in order.
pub open spec fn row_sorted(s: Seq<Seq<Seq<char>>>) -> bool {
    forall|p: int, q: int| 0 <= p < q < s.len() ==> row_le(#[trigger] s[p], #[trigger] s[q])
}

pub proof fn lemma_row_cmp_range(a: Seq<Seq<char>>, b: Seq<Seq<char>>)
    ensures
        row_cmp(a, b) == -1 || row_cmp(a, b) == 0 || row_cmp(a, b) == 1,
    decreases a.len(),
{
    if a.len() != 0 && b.len() != 0 {
        lemma_str_cmp_range(a[0], b[0]);
        lemma_row_cmp_range(a.drop_first(), b.drop_first());
    }
}

/// Swapping the rows negates the comparison.
pub proof fn lemma_row_cmp_antisym(a: Seq<Seq<char>>, b: Seq<Seq<char>>)
    ensures
        row_cmp(a, b) == -row_cmp(b, a),
    decreases a.len(),
{
    if a.len() != 0 && b.len() != 0 {
        lemma_str_cmp_antisym(a[0], b[0]);
        lemma_str_cmp_range(a[0], b[0]);
        lemma_row_cmp_antisym(a.drop_first(), b.drop_first());
    }
}

/// A strict step followed by a non-strict step stays (non-strictly) in order.
/// (The row order is a preorder: rows of different lengths can compare equal
/// to a common prefix, so full transitivity of `row_le` does not hold; this
/// weaker form is what sorting needs.)
pub proof fn lemma_row_lt_le_trans(x: Seq<Seq<char>>, y: Seq<Seq<char>>, z: Seq<Seq<char>>)
    requires
        row_lt(x, y),
        row_le(y, z),
    ensures
        row_le(x, z),
    decreases x.len(),
{
    // row_lt(x, y) forces both x and y nonempty
    if z.len() == 0 {
        // row_cmp(x, z) == 0
    } else {
        let cxy = str_cmp(x[0], y[0]);
        let cyz = str_cmp(y[0], z[0]);
        let cxz = str_cmp(x[0], z[0]);
        lemma_str_cmp_range(x[0], y[0]);
        lemma_str_cmp_range(y[0], z[0]);
        lemma_str_cmp_range(x[0], z[0]);
        lemma_str_cmp_eq(x[0], y[0]);
        lemma_str_cmp_eq(y[0], z[0]);
        lemma_str_cmp_eq(x[0], z[0]);
        if cxy < 0 {
            if cyz < 0 {
                lemma_str_cmp_trans(x[0], y[0], z[0]);
            } else {
                // cyz == 0 (cyz > 0 would contradict row_le(y, z))
                assert(y[0] == z[0]);
            }
        } else {
            // cxy == 0, so x[0] == y[0] and row_lt holds on the tails
            assert(x[0] == y[0]);
            if cyz == 0 {
                lemma_row_lt_le_trans(x.drop_first(), y.drop_first(), z.drop_first());
            }
        }
    }
}

/// Insertion of a row into a sequence already in canonical order: the row goes
/// in front of the first strictly greater element, after any equal ones, so
/// inserting into a sorted sequence keeps the order stable.
pub open spec fn insert_row(s: Seq<Seq<Seq<char>>>, x: Seq<Seq<char>>) -> Seq<Seq<Seq<char>>>
    decreases s.len(),
{
    if s.len() == 0 {
        seq![x]
    } else if row_lt(x, s[0]) {
        seq![x] + s
    } else {
        seq![s[0]] + insert_row(s.drop_first(), x)
    }
}

/// The canonical sort: insertion sort of the rows, left to right.
pub open spec fn sort_rows_spec(s: Seq<Seq<Seq<char>>>) -> Seq<Seq<Seq<char>>>
    decreases s.len(),
{
    if s.len() == 0 {
        Seq::empty()
    } else {
        insert_row(sort_rows_spec(s.drop_last()), s.last())
    }
}

pub proof fn lemma_insert_row_ensures(s: Seq<Seq<Seq<char>>>, x: Seq<Seq<char>>)
    requires
        row_sorted(s),
    ensures
        insert_row(s, x).len() == s.len() + 1,
        row_sorted(insert_row(s, x)),
        insert_row(s, x).to_multiset() == s.to_multiset().insert(x),
    decreases s.len(),
{
    broadcast use vstd::seq_lib::group_to_multiset_ensures;
    broadcast use vstd::multiset::group_multiset_axioms;

    let r = insert_row(s, x);
    if s.len() == 0 {
        assert(r =~= s.push(x));
        assert(r.to_multiset() =~= s.to_multiset().insert(x));
    } else if row_lt(x, s[0]) {
        assert forall|p: int, q: int| 0 <= p < q < r.len() implies row_le(
            #[trigger] r[p],
            #[trigger] r[q],
        ) by {
            if p == 0 {
                assert(r[q] == s[q - 1]);
                if q == 1 {
                    lemma_row_cmp_range(x, s[0]);
                } else {
                    assert(row_le(s[0], s[q - 1]));
                    lemma_row_lt_le_trans(x, s[0], s[q - 1]);
                }
            } else {
                assert(r[p] == s[p - 1] && r[q] == s[q - 1]);
            }
        }
        assert(r =~= seq![x] + s);
        lemma_multiset_commutative(seq![x], s);
        assert(seq![x] =~= Seq::<Seq<Seq<char>>>::empty().push(x));
        Seq::<Seq<Seq<char>>>::empty().to_multiset_ensures();
        assert(r.to_multiset() =~= s.to_multiset().insert(x));
    } else {
        let rest = s.drop_first();
        assert(forall|m: int| 0 <= m < rest.len() ==> rest[m] == s[m + 1]);
        lemma_insert_row_ensures(rest, x);
        let tail = insert_row(rest, x);
        // s[0] precedes x
        lemma_row_cmp_antisym(x, s[0]);
        assert(row_le(s[0], x));
        assert forall|p: int, q: int| 0 <= p < q < r.len() implies row_le(
            #[trigger] r[p],
            #[trigger] r[q],
        ) by {
            if p == 0 {
                assert(r[q] == tail[q - 1]);
                let v = tail[q - 1];
                assert(tail.to_multiset().contains(v)) by {
                    tail.to_multiset_ensures();
                    assert(tail.contains(v));
                }
                assert(rest.to_multiset().insert(x).contains(v));
                if v == x {
                    assert(row_le(s[0], v));
                } else {
                    assert(rest.to_multiset().contains(v));
                    rest.to_multiset_ensures();
                    assert(rest.contains(v));
                    let m = choose|m: int| 0 <= m < rest.len() && rest[m] == v;
                    assert(s[m + 1] == v);
                    assert(row_le(s[0], v));
                }
            } else {
                assert(r[p] == tail[p - 1] && r[q] == tail[q - 1]);
            }
        }
        assert(r =~= seq![s[0]] + tail);
        lemma_multiset_commutative(seq![s[0]], tail);
        assert(s =~= seq![s[0]] + rest);
        lemma_multiset_commutative(seq![s[0]], rest);
        assert(r.to_multiset() =~= s.to_multiset().insert(x));
    }
}

/// The canonical sort returns the same rows (as a multiset), in order.
pub proof fn lemma_sort_rows_ensures(s: Seq<Seq<Seq<char>>>)
    ensures
        sort_rows_spec(s).len() == s.len(),
        row_sorted(sort_rows_spec(s)),
        sort_rows_spec(s).to_multiset() == s.to_multiset(),
    decreases s.len(),
{
    broadcast use vstd::seq_lib::group_to_multiset_ensures;
    broadcast use vstd::multiset::group_multiset_axioms;

    if s.len() == 0 {
    } else {
        let prefix = s.drop_last();
        lemma_sort_rows_ensures(prefix);
        lemma_insert_row_ensures(sort_rows_spec(prefix), s.last());
        assert(prefix.push(s.last()) =~= s);
        assert(sort_rows_spec(s).to_multiset() =~= s.to_multiset());
    }
}

/// Inserting a row that does not strictly precede anything appends it.
proof fn lemma_insert_row_append(s: Seq<Seq<Seq<char>>>, x: Seq<Seq<char>>)
    requires
        forall|m: int| 0 <= m < s.len() ==> !row_lt(x, #[trigger] s[m]),
    ensures
        insert_row(s, x) == s.push(x),
    decreases s.len(),
{
    if s.len() == 0 {
        assert(insert_row(s, x) =~= s.push(x));
    } else {
        let rest = s.drop_first();
        assert(forall|m: int| 0 <= m < rest.len() ==> rest[m] == s[m + 1]);
        lemma_insert_row_append(rest, x);
        assert(insert_row(s, x) =~= s.push(x));
    }
}

/// Sorting a sequence that is already in canonical order returns it unchanged.
pub proof fn lemma_sort_of_sorted(s: Seq<Seq<Seq<char>>>)
    requires
        row_sorted(s),
    ensures
        sort_rows_spec(s) == s,
    decreases s.len(),
{
    if s.len() != 0 {
        let prefix = s.drop_last();
        assert(forall|m: int| 0 <= m < prefix.len() ==> prefix[m] == s[m]);
        lemma_sort_of_sorted(prefix);
        assert forall|m: int| 0 <= m < prefix.len() implies !row_lt(s.last(), #[trigger] prefix[m]) by {
            assert(row_le(s[m], s.last()));
            lemma_row_cmp_antisym(s.last(), s[m]);
        }
        lemma_insert_row_append(prefix, s.last());
        assert(prefix.push(s.last()) =~= s);
    }
}

/// Sort idempotence: sorting a sorted result changes nothing, so the canonical
/// sort is a fixed point after one application.
pub proof fn lemma_sort_idempotent(s: Seq<Seq<Seq<char>>>)
    ensures
        sort_rows_spec(sort_rows_spec(s)) == sort_rows_spec(s),
{
    lemma_sort_rows_ensures(s);
    lemma_sort_of_sorted(sort_rows_spec(s));
}

/// Splitting an ordered insertion at the scanned position.
proof fn lemma_insert_row_split(s: Seq<Seq<Seq<char>>>, x: Seq<Seq<char>>, pos: int)
    requires
        0 <= pos <= s.len(),
        forall|j: int| 0 <= j < pos ==> !row_lt(x, #[trigger] s[j]),
        pos < s.len() ==> row_lt(x, s[pos]),
    ensures
        insert_row(s, x) == s.take(pos) + seq![x] + s.skip(pos),
    decreases s.len(),
{
    if s.len() == 0 {
        assert(insert_row(s, x) =~= s.take(pos) + seq![x] + s.skip(pos));
    } else if pos == 0 {
        assert(insert_row(s, x) =~= s.take(0) + seq![x] + s.skip(0));
    } else {
        let rest = s.drop_first();
        assert(forall|m: int| 0 <= m < rest.len() ==> rest[m] == s[m + 1]);
        lemma_insert_row_split(rest, x, pos - 1);
        assert(insert_row(s, x) =~= s.take(pos) + seq![x] + s.skip(pos));
    }
}

/// Three-way comparison of two rows.
pub fn row_compare(a: &Vec<String>, b: &Vec<String>) -> (r: i8)
    ensures
        r as int == row_cmp(a.deep_view(), b.deep_view()),
{
    let alen = a.len();
    let blen = b.len();
    let width = if alen < blen {
        alen
    } else {
        blen
    };
    let ghost da = a.deep_view();
    let ghost db = b.deep_view();
    let mut k: usize = 0;
    proof {
        assert(da.skip(0) =~= da);
        assert(db.skip(0) =~= db);
    }
    while k < width
        invariant
            0 <= k <= width,
            alen == a@.len(),
            blen == b@.len(),
            da == a.deep_view(),
            db == b.deep_view(),
            width == if alen < blen {
                alen as int
            } else {
                blen as int
            },
            row_cmp(da, db) == row_cmp(da.skip(k as int), db.skip(k as int)),
        decreases width - k,
    {
        let c = str_compare(a[k].as_str(), b[k].as_str());
        proof {
            assert(da.skip(k as int)[0] == da[k as int]);
            assert(db.skip(k as int)[0] == db[k as int]);
            assert(da[k as int] == a@[k as int]@);
            assert(db[k as int] == b@[k as int]@);
        }
        if c != 0 {
            return c;
        }
        proof {
            assert(da.skip(k as int).drop_first() =~= da.skip(k + 1));
            assert(db.skip(k as int).drop_first() =~= db.skip(k + 1));
        }
        k = k + 1;
    }
    proof {
        assert(da.skip(k as int).len() == 0 || db.skip(k as int).len() == 0);
    }
    0
}

fn clone_row(row: &Vec<String>) -> (r: Vec<String>)
    ensures
        r.deep_view() == row.deep_view(),
        r@.len() == row@.len(),
{
    let mut r: Vec<String> = Vec::new();
    let n = row.len();
    let mut k: usize = 0;
    while k < n
        invariant
            0 <= k <= n,
            n == row@.len(),
            r@.len() == k,
            forall|m: int| 0 <= m < k ==> #[trigger] r.deep_view()[m] == row.deep_view()[m],
        decreases n - k,
    {
        let ghost before = r.deep_view();
        r.push(row[k].clone());
        proof {
            assert(r.deep_view()[k as int] == row.deep_view()[k as int]);
            assert(forall|m: int| 0 <= m < k ==> #[trigger] r.deep_view()[m] == before[m]);
        }
        k = k + 1;
    }
    proof {
        assert(r.deep_view() =~= row.deep_view());
    }
    r
}

/// Scan for the insertion point of `x` in `sorted`.
fn find_row_pos(sorted: &Vec<Vec<String>>, x: &Vec<String>) -> (pos: usize)
    ensures
        pos <= sorted@.len(),
        forall|j: int|
            0 <= j < pos ==> !row_lt(x.deep_view(), #[trigger] sorted.deep_view()[j]),
        pos < sorted@.len() ==> row_lt(x.deep_view(), sorted.deep_view()[pos as int]),
{
    let n = sorted.len();
    let mut pos: usize = 0;
    while pos < n
        invariant
            0 <= pos <= n,
            n == sorted@.len(),
            forall|j: int|
                0 <= j < pos ==> !row_lt(x.deep_view(), #[trigger] sorted.deep_view()[j]),
        decreases n - pos,
    {
        let c = row_compare(x, &sorted[pos]);
        proof {
            assert(sorted@[pos as int].deep_view() == sorted.deep_view()[pos as int]);
        }
        if c < 0 {
            return pos;
        }
        pos = pos + 1;
    }
    pos
}

/// Sort rows into canonical order.  The result is exactly the insertion sort
/// of the input: the same rows as a multiset, every pair in order, and equal
/// rows kept in their original relative order.
pub fn sort_rows_canonical(rows: &[Vec<String>]) -> (r: Vec<Vec<String>>)
    ensures
        r.deep_view() == sort_rows_spec(rows.deep_view()),
        row_sorted(r.deep_view()),
        r.deep_view().to_multiset() == rows.deep_view().to_multiset(),
        r@.len() == rows@.len(),
{
    let ghost grows = rows.deep_view();
    let nrows = rows.len();
    let mut result: Vec<Vec<String>> = Vec::new();
    let mut i: usize = 0;
    proof {
        assert(grows.take(0) =~= Seq::<Seq<Seq<char>>>::empty());
        assert(result.deep_view() =~= sort_rows_spec(grows.take(0)));
    }
    while i < nrows
        invariant
            0 <= i <= nrows,
            nrows == rows@.len(),
            grows == rows.deep_view(),
            result@.len() == i,
            result.deep_view() == sort_rows_spec(grows.take(i as int)),
            row_sorted(result.deep_view()),
        decreases nrows - i,
    {
        let ghost sorted_so_far = result.deep_view();
        let row = clone_row(&rows[i]);
        let ghost grow = row.deep_view();
        proof {
            assert(grow == grows[i as int]);
        }
        let pos = find_row_pos(&result, &row);
        proof {
            lemma_insert_row_split(sorted_so_far, grow, pos as int);
            lemma_insert_row_ensures(sorted_so_far, grow);
            assert(grows.take(i + 1).drop_last() =~= grows.take(i as int));
            assert(grows.take(i + 1).last() == grows[i as int]);
            assert(sort_rows_spec(grows.take(i + 1)) == insert_row(sorted_so_far, grow));
        }
        result.insert(pos, row);
        proof {
            assert(result.deep_view() =~= sorted_so_far.take(pos as int) + seq![grow]
                + sorted_so_far.skip(pos as int));
            assert(result.deep_view() == sort_rows_spec(grows.take(i + 1)));
        }
        i = i + 1;
    }
    proof {
        assert(grows.take(nrows as int) =~= grows);
        lemma_sort_rows_ensures(grows);
    }
    result
}

} // verus!
