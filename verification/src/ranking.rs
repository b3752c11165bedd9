//! Column ranking: columns are ordered by descending cardinality, ties broken
//! by ascending original position, and assigned contiguous 1-based ranks.

use vstd::prelude::*;
use crate::errors::RsfResult;
use crate::stats::RankingOptions;
use crate::stats::ColumnStats;
use crate::stats::card_of;
use crate::stats::compute_cardinality;

verus! {

/// Column type classification; advisory, unused by the engine's own logic.
#[derive(Debug, Clone, PartialEq, Eq)]
pub enum ColumnType {
    Key,
    Value,
}

/// Ranked column descriptor: name, 1-based rank, cardinality at ranking time,
/// optional type tag.
#[derive(Debug, Clone)]
pub struct ColumnMeta {
    pub name: String,
    pub rank: usize,
    pub cardinality: usize,
    pub col_type: Option<ColumnType>,
}

/// Spec-level image of a ranked column descriptor.
pub ghost struct ColumnMetaView {
    pub name: Seq<char>,
    pub rank: int,
    pub cardinality: int,
    pub col_type: Option<ColumnType>,
}

impl View for ColumnMeta {
    type V = ColumnMetaView;

    open spec fn view(&self) -> ColumnMetaView {
        ColumnMetaView {
            name: self.name@,
            rank: self.rank as int,
            cardinality: self.cardinality as int,
            col_type: self.col_type,
        }
    }
}

impl DeepView for ColumnMeta {
    type V = ColumnMetaView;

    open spec fn deep_view(&self) -> ColumnMetaView {
        self@
    }
}

/// The persisted descriptor: a format version and the ranked columns.
#[derive(Debug)]
pub struct Schema {
    pub version: String,
    pub columns: Vec<ColumnMeta>,
}

/// The per-column cardinalities of a table, in original column order.
pub open spec fn cards_of(
    headers: Seq<Seq<char>>,
    rows: Seq<Seq<Seq<char>>>,
    opts: RankingOptions,
) -> Seq<int> {
    Seq::new(headers.len(), |j: int| card_of(rows, j, opts) as int)
}

/// The ranking order on column indices: higher cardinality first, original
/// position as the tie-break.  A strict total order on distinct indices.
pub open spec fn key_lt(cards: Seq<int>, a: int, b: int) -> bool {
    ||| cards[a] > cards[b]
    ||| (cards[a] == cards[b] && a < b)
}

/// Insertion of index `x` into an index sequence already in ranking order.
pub open spec fn insert_idx(s: Seq<int>, cards: Seq<int>, x: int) -> Seq<int>
    decreases s.len(),
{
    if s.len() == 0 {
        seq![x]
    } else if key_lt(cards, x, s[0]) {
        seq![x] + s
    } else {
        seq![s[0]] + insert_idx(s.drop_first(), cards, x)
    }
}

/// The indices `0..k` in ranking order, by insertion sort.
pub open spec fn sort_idx_prefix(cards: Seq<int>, k: int) -> Seq<int>
    decreases k,
{
    if k <= 0 {
        Seq::empty()
    } else {
        insert_idx(sort_idx_prefix(cards, k - 1), cards, k - 1)
    }
}

/// All column indices in ranking order: the permutation that the ranker applies.
pub open spec fn sort_idx(cards: Seq<int>) -> Seq<int> {
    sort_idx_prefix(cards, cards.len() as int)
}

pub open spec fn idx_sorted(s: Seq<int>, cards: Seq<int>) -> bool {
    forall|p: int, q: int| 0 <= p < q < s.len() ==> key_lt(cards, #[trigger] s[p], #[trigger] s[q])
}

/// What `rank_columns` produces: for each output position `k`, the column at
/// original position `sort_idx(cards)[k]`, with rank `k + 1`, its cardinality,
/// and no type tag.
pub open spec fn ranking_spec(
    headers: Seq<Seq<char>>,
    rows: Seq<Seq<Seq<char>>>,
    opts: RankingOptions,
) -> Seq<ColumnMetaView> {
    let cards = cards_of(headers, rows, opts);
    let p = sort_idx(cards);
    Seq::new(
        headers.len(),
        |k: int|
            ColumnMetaView {
                name: headers[p[k]],
                rank: k + 1,
                cardinality: cards[p[k]],
                col_type: None,
            },
    )
}

pub proof fn lemma_insert_idx_ensures(s: Seq<int>, cards: Seq<int>, x: int)
    requires
        idx_sorted(s, cards),
        !s.contains(x),
    ensures
        insert_idx(s, cards, x).len() == s.len() + 1,
        idx_sorted(insert_idx(s, cards, x), cards),
        forall|v: int| insert_idx(s, cards, x).contains(v) <==> (s.contains(v) || v == x),
    decreases s.len(),
{
    let r = insert_idx(s, cards, x);
    if s.len() == 0 {
        assert forall|v: int| r.contains(v) implies (s.contains(v) || v == x) by {
            let idx = choose|idx: int| 0 <= idx < r.len() && r[idx] == v;
        }
        assert(r[0] == x);
    } else if key_lt(cards, x, s[0]) {
        assert forall|p: int, q: int| 0 <= p < q < r.len() implies key_lt(
            cards,
            r[p],
            r[q],
        ) by {
            if p == 0 {
                // r[0] == x; r[q] == s[q - 1]
                assert(r[q] == s[q - 1]);
                if q - 1 > 0 {
                    assert(key_lt(cards, s[0], s[q - 1]));
                }
            } else {
                assert(r[p] == s[p - 1] && r[q] == s[q - 1]);
            }
        }
        assert forall|v: int| r.contains(v) implies (s.contains(v) || v == x) by {
            let idx = choose|idx: int| 0 <= idx < r.len() && r[idx] == v;
            if idx > 0 {
                assert(s[idx - 1] == v);
            }
        }
        assert forall|v: int| (s.contains(v) || v == x) implies r.contains(v) by {
            if s.contains(v) {
                let idx = choose|idx: int| 0 <= idx < s.len() && s[idx] == v;
                assert(r[idx + 1] == v);
            } else {
                assert(r[0] == v);
            }
        }
    } else {
        let rest = s.drop_first();
        assert(forall|m: int| 0 <= m < rest.len() ==> rest[m] == s[m + 1]);
        assert forall|v: int| rest.contains(v) implies s.contains(v) by {
            let idx = choose|idx: int| 0 <= idx < rest.len() && rest[idx] == v;
            assert(s[idx + 1] == v);
        }
        lemma_insert_idx_ensures(rest, cards, x);
        let tail = insert_idx(rest, cards, x);
        // head s[0] precedes x: trichotomy on distinct indices
        assert(s[0] != x);
        assert(key_lt(cards, s[0], x));
        assert forall|p: int, q: int| 0 <= p < q < r.len() implies key_lt(
            cards,
            r[p],
            r[q],
        ) by {
            if p == 0 {
                assert(r[q] == tail[q - 1]);
                assert(tail.contains(tail[q - 1]));
                let v = tail[q - 1];
                if v == x {
                    assert(key_lt(cards, s[0], v));
                } else {
                    assert(rest.contains(v));
                    let idx = choose|idx: int| 0 <= idx < rest.len() && rest[idx] == v;
                    assert(s[idx + 1] == v);
                    assert(key_lt(cards, s[0], v));
                }
            } else {
                assert(r[p] == tail[p - 1] && r[q] == tail[q - 1]);
            }
        }
        assert forall|v: int| r.contains(v) implies (s.contains(v) || v == x) by {
            let idx = choose|idx: int| 0 <= idx < r.len() && r[idx] == v;
            if idx > 0 {
                assert(tail[idx - 1] == v);
                assert(tail.contains(v));
                if rest.contains(v) {
                    let m = choose|m: int| 0 <= m < rest.len() && rest[m] == v;
                    assert(s[m + 1] == v);
                }
            }
        }
        assert forall|v: int| (s.contains(v) || v == x) implies r.contains(v) by {
            if v == x || rest.contains(v) {
                assert(tail.contains(v));
                let m = choose|m: int| 0 <= m < tail.len() && tail[m] == v;
                assert(r[m + 1] == v);
            } else if s.contains(v) {
                let idx = choose|idx: int| 0 <= idx < s.len() && s[idx] == v;
                if idx == 0 {
                    assert(r[0] == v);
                } else {
                    assert(rest[idx - 1] == v);
                }
            }
        }
    }
}

pub proof fn lemma_sort_idx_prefix_ensures(cards: Seq<int>, k: int)
    requires
        0 <= k,
    ensures
        sort_idx_prefix(cards, k).len() == k,
        idx_sorted(sort_idx_prefix(cards, k), cards),
        forall|v: int| sort_idx_prefix(cards, k).contains(v) <==> 0 <= v < k,
    decreases k,
{
    if k > 0 {
        lemma_sort_idx_prefix_ensures(cards, k - 1);
        lemma_insert_idx_ensures(sort_idx_prefix(cards, k - 1), cards, k - 1);
        assert forall|v: int| sort_idx_prefix(cards, k).contains(v) <==> 0 <= v < k by {
            let s = sort_idx_prefix(cards, k - 1);
            assert(sort_idx_prefix(cards, k) == insert_idx(s, cards, k - 1));
            assert(insert_idx(s, cards, k - 1).contains(v) <==> (s.contains(v) || v == k - 1));
            assert(s.contains(v) <==> 0 <= v < k - 1);
        }
    } else {
        assert forall|v: int| !sort_idx_prefix(cards, k).contains(v) by {
            assert(sort_idx_prefix(cards, k).len() == 0);
        }
    }
}

/// The ranking permutation: length, sortedness, and exactly the indices `0..n`.
pub proof fn lemma_sort_idx_ensures(cards: Seq<int>)
    ensures
        sort_idx(cards).len() == cards.len(),
        idx_sorted(sort_idx(cards), cards),
        forall|v: int| sort_idx(cards).contains(v) <==> 0 <= v < cards.len(),
        forall|m: int|
            0 <= m < sort_idx(cards).len() ==> 0 <= #[trigger] sort_idx(cards)[m] < cards.len(),
{
    lemma_sort_idx_prefix_ensures(cards, cards.len() as int);
    assert forall|m: int| 0 <= m < sort_idx(cards).len() implies 0 <= #[trigger] sort_idx(
        cards,
    )[m] < cards.len() by {
        assert(sort_idx(cards).contains(sort_idx(cards)[m]));
    }
}

/// Inserting an index that follows everything in the sequence appends it.
proof fn lemma_insert_idx_append(s: Seq<int>, cards: Seq<int>, x: int)
    requires
        forall|m: int| 0 <= m < s.len() ==> !key_lt(cards, x, #[trigger] s[m]),
    ensures
        insert_idx(s, cards, x) == s.push(x),
    decreases s.len(),
{
    if s.len() == 0 {
        assert(insert_idx(s, cards, x) =~= s.push(x));
    } else {
        let rest = s.drop_first();
        assert(forall|m: int| 0 <= m < rest.len() ==> rest[m] == s[m + 1]);
        lemma_insert_idx_append(rest, cards, x);
        assert(insert_idx(s, cards, x) =~= s.push(x));
    }
}

/// When every column has the same cardinality, the ranking permutation is the
/// identity: ranks follow original header order.
pub proof fn lemma_sort_idx_constant(cards: Seq<int>, k: int)
    requires
        0 <= k <= cards.len(),
        forall|a: int, b: int|
            0 <= a < cards.len() && 0 <= b < cards.len() ==> #[trigger] cards[a] == #[trigger] cards[b],
    ensures
        sort_idx_prefix(cards, k) == Seq::new(k as nat, |i: int| i),
    decreases k,
{
    if k > 0 {
        lemma_sort_idx_constant(cards, k - 1);
        let s = sort_idx_prefix(cards, k - 1);
        assert forall|m: int| 0 <= m < s.len() implies !key_lt(cards, k - 1, #[trigger] s[m]) by {
            assert(s[m] == m);
        }
        lemma_insert_idx_append(s, cards, k - 1);
        assert(s.push(k - 1) =~= Seq::new(k as nat, |i: int| i));
    }
}

/// Ranking is deterministic: the contract of `rank_columns` pins its output to
/// `ranking_spec`, a function of the table and options alone, so any two runs
/// on the same table produce identical column order, ranks and cardinalities.
pub proof fn lemma_ranking_deterministic(
    headers: Seq<Seq<char>>,
    rows: Seq<Seq<Seq<char>>>,
    opts: RankingOptions,
    r1: Seq<ColumnMetaView>,
    r2: Seq<ColumnMetaView>,
)
    requires
        r1 == ranking_spec(headers, rows, opts),
        r2 == ranking_spec(headers, rows, opts),
    ensures
        r1 == r2,
{
}

/// Rank contiguity: a ranking of `n` columns carries exactly the ranks
/// `1..=n`, in order, with no duplicates or gaps.
pub proof fn lemma_rank_contiguity(
    headers: Seq<Seq<char>>,
    rows: Seq<Seq<Seq<char>>>,
    opts: RankingOptions,
)
    ensures
        ranking_spec(headers, rows, opts).len() == headers.len(),
        forall|k: int|
            0 <= k < headers.len() ==> #[trigger] ranking_spec(headers, rows, opts)[k].rank == k
                + 1,
{
}

/// Tie-break stability: two columns of equal cardinality appear in the ranked
/// output in their original relative order.
pub proof fn lemma_tie_break_stability(
    headers: Seq<Seq<char>>,
    rows: Seq<Seq<Seq<char>>>,
    opts: RankingOptions,
    i: int,
    j: int,
)
    requires
        0 <= i < j < headers.len(),
        card_of(rows, i, opts) == card_of(rows, j, opts),
    ensures
        exists|ki: int, kj: int|
            #![trigger sort_idx(cards_of(headers, rows, opts))[ki], sort_idx(cards_of(headers, rows, opts))[kj]]
            {
                let m = ranking_spec(headers, rows, opts);
                let p = sort_idx(cards_of(headers, rows, opts));
                &&& 0 <= ki < kj < headers.len()
                &&& p[ki] == i
                &&& p[kj] == j
                &&& m[ki].name == headers[i]
                &&& m[kj].name == headers[j]
            },
{
    let m = ranking_spec(headers, rows, opts);
    let cards = cards_of(headers, rows, opts);
    let p = sort_idx(cards);
    lemma_sort_idx_ensures(cards);
    assert(p.contains(i));
    assert(p.contains(j));
    let ki = choose|ki: int| 0 <= ki < p.len() && p[ki] == i;
    let kj = choose|kj: int| 0 <= kj < p.len() && p[kj] == j;
    assert(cards[i] == cards[j]);
    assert(ki != kj);
    if kj < ki {
        assert(key_lt(cards, p[kj], p[ki]));
        assert(false);
    }
    assert(m[ki].name == headers[i]);
    assert(m[kj].name == headers[j]);
}

/// Zero columns: ranking an empty header list yields an empty ranking.
pub proof fn lemma_ranking_empty_headers(rows: Seq<Seq<Seq<char>>>, opts: RankingOptions)
    ensures
        ranking_spec(Seq::empty(), rows, opts) == Seq::<ColumnMetaView>::empty(),
{
    assert(ranking_spec(Seq::empty(), rows, opts) =~= Seq::<ColumnMetaView>::empty());
}

/// Zero rows: every column has cardinality 0 and ranks follow original header
/// order.
pub proof fn lemma_ranking_empty_rows(headers: Seq<Seq<char>>, opts: RankingOptions)
    ensures
        ranking_spec(headers, Seq::empty(), opts).len() == headers.len(),
        forall|k: int|
            0 <= k < headers.len() ==> #[trigger] ranking_spec(headers, Seq::empty(), opts)[k]
                == (ColumnMetaView { name: headers[k], rank: k + 1, cardinality: 0, col_type: None }),
{
    let rows = Seq::<Seq<Seq<char>>>::empty();
    let cards = cards_of(headers, rows, opts);
    assert(forall|a: int, b: int|
        0 <= a < cards.len() && 0 <= b < cards.len() ==> #[trigger] cards[a] == #[trigger] cards[b]);
    lemma_sort_idx_constant(cards, cards.len() as int);
    assert forall|k: int| 0 <= k < headers.len() implies #[trigger] ranking_spec(
        headers,
        rows,
        opts,
    )[k] == (ColumnMetaView {
        name: headers[k],
        rank: k + 1,
        cardinality: 0,
        col_type: None,
    }) by {
        assert(sort_idx(cards)[k] == k);
        assert(cards[k] == 0);
    }
}

/// Scan for the insertion point of column `x` in `order`, which is kept in
/// ranking order.
fn find_insert_pos(order: &Vec<usize>, cards: &Vec<usize>, x: usize, Ghost(gcards): Ghost<
    Seq<int>,
>) -> (pos: usize)
    requires
        gcards.len() == cards@.len(),
        forall|m: int| 0 <= m < cards@.len() ==> gcards[m] == #[trigger] cards@[m] as int,
        forall|m: int| 0 <= m < order@.len() ==> #[trigger] order@[m] < cards@.len(),
        x < cards@.len(),
    ensures
        pos <= order@.len(),
        forall|j: int| 0 <= j < pos ==> !key_lt(gcards, x as int, #[trigger] order@[j] as int),
        pos < order@.len() ==> key_lt(gcards, x as int, order@[pos as int] as int),
{
    let n = order.len();
    let mut pos: usize = 0;
    while pos < n
        invariant
            0 <= pos <= n,
            n == order@.len(),
            gcards.len() == cards@.len(),
            forall|m: int| 0 <= m < cards@.len() ==> gcards[m] == #[trigger] cards@[m] as int,
            forall|m: int| 0 <= m < order@.len() ==> #[trigger] order@[m] < cards@.len(),
            x < cards@.len(),
            forall|j: int| 0 <= j < pos ==> !key_lt(gcards, x as int, #[trigger] order@[j] as int),
        decreases n - pos,
    {
        let o = order[pos];
        if cards[x] > cards[o] || (cards[x] == cards[o] && x < o) {
            return pos;
        }
        pos = pos + 1;
    }
    pos
}

/// Splitting an ordered insertion at the scanned position.
proof fn lemma_insert_idx_split(s: Seq<int>, cards: Seq<int>, x: int, pos: int)
    requires
        0 <= pos <= s.len(),
        forall|j: int| 0 <= j < pos ==> !key_lt(cards, x, #[trigger] s[j]),
        pos < s.len() ==> key_lt(cards, x, s[pos]),
    ensures
        insert_idx(s, cards, x) == s.take(pos) + seq![x] + s.skip(pos),
    decreases s.len(),
{
    if s.len() == 0 {
        assert(insert_idx(s, cards, x) =~= s.take(pos) + seq![x] + s.skip(pos));
    } else if pos == 0 {
        assert(insert_idx(s, cards, x) =~= s.take(0) + seq![x] + s.skip(0));
    } else {
        let rest = s.drop_first();
        assert(forall|m: int| 0 <= m < rest.len() ==> rest[m] == s[m + 1]);
        lemma_insert_idx_split(rest, cards, x, pos - 1);
        assert(insert_idx(s, cards, x) =~= s.take(pos) + seq![x] + s.skip(pos));
    }
}

/// Rank columns by cardinality: descending cardinality, ascending original
/// position on ties, ranks assigned contiguously from 1.  Always succeeds; the
/// output is exactly `ranking_spec` of the table.
pub fn rank_columns(headers: &[String], rows: &[Vec<String>], options: RankingOptions) -> (r:
    RsfResult<Vec<ColumnMeta>>)
    ensures
        r is Ok,
        r->Ok_0.deep_view() == ranking_spec(headers.deep_view(), rows.deep_view(), options),
        r->Ok_0@.len() == headers@.len(),
{
    let ghost gheaders = headers.deep_view();
    let ghost grows = rows.deep_view();
    let ghost gcards = cards_of(gheaders, grows, options);
    let stats: Vec<ColumnStats> = match compute_cardinality(headers, rows, options) {
        Ok(s) => s,
        Err(e) => {
            return Err(e);
        },
    };
    let ncols = headers.len();
    let mut cards: Vec<usize> = Vec::new();
    let mut k: usize = 0;
    while k < ncols
        invariant
            0 <= k <= ncols,
            ncols == headers@.len(),
            gheaders == headers.deep_view(),
            grows == rows.deep_view(),
            gcards == cards_of(gheaders, grows, options),
            stats@.len() == ncols,
            gcards.len() == ncols,
            cards@.len() == k,
            forall|m: int| 0 <= m < ncols ==> #[trigger] stats@[m].cardinality == card_of(
                grows,
                m,
                options,
            ),
            forall|m: int| 0 <= m < k ==> gcards[m] == #[trigger] cards@[m] as int,
        decreases ncols - k,
    {
        let st = &stats[k];
        cards.push(st.cardinality);
        k = k + 1;
    }
    // Insertion sort of the column indices under the ranking order.
    let mut order: Vec<usize> = Vec::new();
    let mut k2: usize = 0;
    proof {
        assert(order@.map_values(|u: usize| u as int) =~= sort_idx_prefix(gcards, 0));
    }
    while k2 < ncols
        invariant
            0 <= k2 <= ncols,
            ncols == headers@.len(),
            gcards.len() == ncols,
            cards@.len() == ncols,
            forall|m: int| 0 <= m < ncols ==> gcards[m] == #[trigger] cards@[m] as int,
            order@.len() == k2,
            forall|m: int| 0 <= m < order@.len() ==> #[trigger] order@[m] < ncols,
            order@.map_values(|u: usize| u as int) == sort_idx_prefix(gcards, k2 as int),
        decreases ncols - k2,
    {
        let ghost gorder = order@.map_values(|u: usize| u as int);
        proof {
            lemma_sort_idx_prefix_ensures(gcards, k2 as int);
        }
        let pos = find_insert_pos(&order, &cards, k2, Ghost(gcards));
        proof {
            lemma_insert_idx_split(gorder, gcards, k2 as int, pos as int);
        }
        order.insert(pos, k2);
        proof {
            assert(order@.map_values(|u: usize| u as int) =~= gorder.take(pos as int) + seq![
                k2 as int,
            ] + gorder.skip(pos as int));
            assert(order@.map_values(|u: usize| u as int) == insert_idx(
                gorder,
                gcards,
                k2 as int,
            ));
        }
        k2 = k2 + 1;
    }
    let ghost p = sort_idx(gcards);
    proof {
        assert(order@.map_values(|u: usize| u as int) == p);
        lemma_sort_idx_ensures(gcards);
    }
    // Materialize the ranked descriptors in order.
    let mut result: Vec<ColumnMeta> = Vec::new();
    let mut k3: usize = 0;
    while k3 < ncols
        invariant
            0 <= k3 <= ncols,
            ncols == headers@.len(),
            gheaders == headers.deep_view(),
            grows == rows.deep_view(),
            gcards == cards_of(gheaders, grows, options),
            stats@.len() == ncols,
            cards@.len() == ncols,
            order@.len() == ncols,
            gcards.len() == ncols,
            p == sort_idx(gcards),
            order@.map_values(|u: usize| u as int) == p,
            forall|m: int| 0 <= m < ncols ==> #[trigger] order@[m] < ncols,
            forall|m: int| 0 <= m < ncols ==> gcards[m] == #[trigger] cards@[m] as int,
            forall|m: int| 0 <= m < ncols ==> #[trigger] stats@[m].cardinality == card_of(
                grows,
                m,
                options,
            ),
            result@.len() == k3,
            forall|m: int|
                0 <= m < k3 ==> #[trigger] result.deep_view()[m] == ranking_spec(
                    gheaders,
                    grows,
                    options,
                )[m],
        decreases ncols - k3,
    {
        let oi = order[k3];
        let meta = ColumnMeta {
            name: headers[oi].clone(),
            rank: k3 + 1,
            cardinality: cards[oi],
            col_type: None,
        };
        proof {
            assert(p[k3 as int] == oi as int);
            assert(meta@.name == gheaders[p[k3 as int]]);
            assert(meta@.cardinality == gcards[p[k3 as int]]);
        }
        let ghost before = result.deep_view();
        let ghost gmeta = meta@;
        result.push(meta);
        proof {
            assert(result.deep_view()[k3 as int] == gmeta);
            assert(forall|m: int|
                0 <= m < k3 ==> #[trigger] result.deep_view()[m] == before[m]);
            assert(result.deep_view()[k3 as int] == ranking_spec(gheaders, grows, options)[
                k3 as int]);
        }
        k3 = k3 + 1;
    }
    proof {
        assert(result.deep_view() =~= ranking_spec(gheaders, grows, options));
    }
    Ok(result)
}

} // verus!
