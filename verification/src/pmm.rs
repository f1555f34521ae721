//! The probability-matched mean of an ensemble grid: the cells are ranked by
//! the mean of their members, and the pooled member values, sorted, are cut
//! into as many consecutive blocks as there are cells; each cell gets the
//! rounded mean of the block of its rank. The field keeps the spatial pattern
//! of the ensemble mean and the distribution of the member values.

use vstd::prelude::*;
use vstd::multiset::Multiset;
use vstd::seq_lib::group_to_multiset_ensures;
use crate::constants::NODATA;
use crate::models::{cell_missing, is_sorted_u16, lemma_valid_count_le_len, valid_count, valid_sum};
use crate::stats::{
    gather_members, lemma_first_valid, lemma_take_last, lemma_valid_values, members_at,
    valid_values,
};

verus! {

/// A cell to rank: the sum and the number of its valid member values, and
/// its index.
pub type RankedCell = (u128, u64, usize);

/// Cell `a` ranks before cell `b`: a lower mean, or the same mean and a lower
/// index.
pub open spec fn mean_before(a: RankedCell, b: RankedCell) -> bool {
    (a.0 as int) * (b.1 as int) < (b.0 as int) * (a.1 as int) || ((a.0 as int) * (b.1 as int)
        == (b.0 as int) * (a.1 as int) && a.2 < b.2)
}

/// Every cell has at least one valid member value.
pub open spec fn counts_positive(s: Seq<RankedCell>) -> bool {
    forall|k: int| 0 <= k < s.len() ==> #[trigger] s[k].1 > 0
}

/// The cells are in strictly increasing rank order.
pub open spec fn ranked(s: Seq<RankedCell>) -> bool {
    forall|i: int, j: int| 0 <= i < j < s.len() ==> mean_before(#[trigger] s[i], #[trigger] s[j])
}

proof fn lemma_mean_before_transitive(a: RankedCell, b: RankedCell, c: RankedCell)
    requires
        a.1 > 0,
        b.1 > 0,
        c.1 > 0,
        mean_before(a, b),
        mean_before(b, c),
    ensures
        mean_before(a, c),
{
    let (sa, ca, sb, cb, sc, cc) = (a.0 as int, a.1 as int, b.0 as int, b.1 as int, c.0 as int, c.1 as int);
    assert(sa * cb <= sb * ca && sb * cc <= sc * cb);
    assert(sa * cc * cb <= sc * ca * cb) by (nonlinear_arith)
        requires
            sa * cb <= sb * ca,
            sb * cc <= sc * cb,
            ca > 0,
            cb > 0,
            cc > 0,
            sa >= 0,
            sb >= 0,
            sc >= 0,
    ;
    if sa * cb < sb * ca || sb * cc < sc * cb {
        assert(sa * cc * cb < sc * ca * cb) by (nonlinear_arith)
            requires
                sa * cb <= sb * ca,
                sb * cc <= sc * cb,
                sa * cb < sb * ca || sb * cc < sc * cb,
                ca > 0,
                cb > 0,
                cc > 0,
                sa >= 0,
                sb >= 0,
                sc >= 0,
        ;
        assert(sa * cc < sc * ca) by (nonlinear_arith)
            requires
                sa * cc * cb < sc * ca * cb,
                cb > 0,
        ;
    } else {
        assert(sa * cc == sc * ca) by (nonlinear_arith)
            requires
                sa * cb == sb * ca,
                sb * cc == sc * cb,
                cb > 0,
        ;
    }
}

proof fn lemma_mean_before_total(a: RankedCell, b: RankedCell)
    requires
        a.2 != b.2,
    ensures
        mean_before(a, b) || mean_before(b, a),
{
}

proof fn lemma_compare_by_quotient(s1: int, c1: int, s2: int, c2: int)
    requires
        c1 > 0,
        c2 > 0,
        s1 >= 0,
        s2 >= 0,
    ensures
        (s1 * c2 < s2 * c1) == (s1 / c1 < s2 / c2 || (s1 / c1 == s2 / c2 && (s1 % c1) * c2 < (s2
            % c2) * c1)),
        (s1 * c2 == s2 * c1) == (s1 / c1 == s2 / c2 && (s1 % c1) * c2 == (s2 % c2) * c1),
{
    let (q1, r1, q2, r2) = (s1 / c1, s1 % c1, s2 / c2, s2 % c2);
    assert(s1 == q1 * c1 + r1 && 0 <= r1 < c1) by (nonlinear_arith)
        requires
            q1 == s1 / c1,
            r1 == s1 % c1,
            c1 > 0,
    ;
    assert(s2 == q2 * c2 + r2 && 0 <= r2 < c2) by (nonlinear_arith)
        requires
            q2 == s2 / c2,
            r2 == s2 % c2,
            c2 > 0,
    ;
    assert(s1 * c2 == q1 * c1 * c2 + r1 * c2) by (nonlinear_arith)
        requires
            s1 == q1 * c1 + r1,
    ;
    assert(s2 * c1 == q2 * c1 * c2 + r2 * c1) by (nonlinear_arith)
        requires
            s2 == q2 * c2 + r2,
    ;
    assert(0 <= r1 * c2 < c1 * c2 && 0 <= r2 * c1 < c1 * c2) by (nonlinear_arith)
        requires
            0 <= r1 < c1,
            0 <= r2 < c2,
            c1 > 0,
            c2 > 0,
    ;
    if q1 < q2 {
        assert(q1 * c1 * c2 + c1 * c2 <= q2 * c1 * c2) by (nonlinear_arith)
            requires
                q1 + 1 <= q2,
                c1 > 0,
                c2 > 0,
        ;
    } else if q1 > q2 {
        assert(q2 * c1 * c2 + c1 * c2 <= q1 * c1 * c2) by (nonlinear_arith)
            requires
                q2 + 1 <= q1,
                c1 > 0,
                c2 > 0,
        ;
    }
}

/// Whether `a` ranks before `b` (see [`mean_before`]).
fn ranks_before(a: RankedCell, b: RankedCell) -> (r: bool)
    requires
        a.1 > 0,
        b.1 > 0,
    ensures
        r == mean_before(a, b),
{
    let c1 = a.1 as u128;
    let c2 = b.1 as u128;
    let q1 = a.0 / c1;
    let q2 = b.0 / c2;
    proof {
        lemma_compare_by_quotient(a.0 as int, a.1 as int, b.0 as int, b.1 as int);
    }
    if q1 != q2 {
        return q1 < q2;
    }
    let r1 = a.0 % c1;
    let r2 = b.0 % c2;
    assert(r1 * c2 <= 0xffff_ffff_ffff_ffff * 0xffff_ffff_ffff_ffff) by (nonlinear_arith)
        requires
            r1 < c1,
            c1 <= 0xffff_ffff_ffff_ffff,
            c2 <= 0xffff_ffff_ffff_ffff,
    ;
    assert(r2 * c1 <= 0xffff_ffff_ffff_ffff * 0xffff_ffff_ffff_ffff) by (nonlinear_arith)
        requires
            r2 < c2,
            c1 <= 0xffff_ffff_ffff_ffff,
            c2 <= 0xffff_ffff_ffff_ffff,
    ;
    let x = r1 * c2;
    let y = r2 * c1;
    x < y || (x == y && a.2 < b.2)
}

/// Merges two ranked sequences of cells with distinct indices.
fn merge_ranked(a: Vec<RankedCell>, b: Vec<RankedCell>) -> (out: Vec<RankedCell>)
    requires
        ranked(a@),
        ranked(b@),
        counts_positive(a@),
        counts_positive(b@),
        forall|i: int, j: int| 0 <= i < a@.len() && 0 <= j < b@.len() ==> (#[trigger] a@[i]).2 != (#[trigger] b@[j]).2,
    ensures
        ranked(out@),
        counts_positive(out@),
        out@.to_multiset() == a@.to_multiset().add(b@.to_multiset()),
{
    broadcast use group_to_multiset_ensures, vstd::multiset::group_multiset_axioms;

    let mut out: Vec<RankedCell> = Vec::new();
    let mut i: usize = 0;
    let mut j: usize = 0;
    while i < a.len() || j < b.len()
        invariant
            ranked(a@),
            ranked(b@),
            counts_positive(a@),
            counts_positive(b@),
            forall|x: int, y: int| 0 <= x < a@.len() && 0 <= y < b@.len() ==> (#[trigger] a@[x]).2 != (#[trigger] b@[y]).2,
            i <= a@.len(),
            j <= b@.len(),
            ranked(out@),
            counts_positive(out@),
            out@.len() == i + j,
            out@.to_multiset() == a@.take(i as int).to_multiset().add(b@.take(j as int).to_multiset()),
            forall|k: int, x: int| 0 <= k < out@.len() && i <= x < a@.len() ==> mean_before(#[trigger] out@[k], #[trigger] a@[x]),
            forall|k: int, y: int| 0 <= k < out@.len() && j <= y < b@.len() ==> mean_before(#[trigger] out@[k], #[trigger] b@[y]),
        decreases a@.len() + b@.len() - i - j,
    {
        let take_a = if i < a.len() && j < b.len() {
            ranks_before(a[i], b[j])
        } else {
            i < a.len()
        };
        let ghost before = out@;
        if take_a {
            let e = a[i];
            out.push(e);
            proof {
                assert(a@.take(i + 1) =~= a@.take(i as int).push(e));
                assert(out@ == before.push(e));
                before.to_multiset_ensures();
                a@.take(i as int).to_multiset_ensures();
                assert(out@.to_multiset() =~= before.to_multiset().insert(e));
                assert(a@.take(i + 1).to_multiset() =~= a@.take(i as int).to_multiset().insert(e));
                assert(out@.to_multiset() =~= a@.take(i + 1).to_multiset().add(
                    b@.take(j as int).to_multiset(),
                ));
                if j < b@.len() {
                    assert(mean_before(e, b@[j as int]));
                }
                assert forall|k: int, x: int| 0 <= k < out@.len() && i + 1 <= x < a@.len() implies mean_before(
                    #[trigger] out@[k],
                    #[trigger] a@[x],
                ) by {
                    if k < before.len() {
                        assert(out@[k] == before[k]);
                    } else {
                        assert(out@[k] == a@[i as int]);
                    }
                }
                assert forall|k: int, y: int| 0 <= k < out@.len() && j <= y < b@.len() implies mean_before(
                    #[trigger] out@[k],
                    #[trigger] b@[y],
                ) by {
                    if k < before.len() {
                        assert(out@[k] == before[k]);
                    } else {
                        assert(out@[k] == e);
                        if y > j {
                            lemma_mean_before_transitive(e, b@[j as int], b@[y]);
                        }
                    }
                }
                assert forall|p: int, q: int| 0 <= p < q < out@.len() implies mean_before(#[trigger] out@[p], #[trigger] out@[q]) by {
                    if q == before.len() {
                        assert(out@[p] == before[p]);
                        assert(out@[q] == a@[i as int]);
                    } else {
                        assert(out@[p] == before[p]);
                        assert(out@[q] == before[q]);
                    }
                }
            }
            i += 1;
        } else {
            let e = b[j];
            out.push(e);
            proof {
                assert(b@.take(j + 1) =~= b@.take(j as int).push(e));
                assert(out@ == before.push(e));
                before.to_multiset_ensures();
                b@.take(j as int).to_multiset_ensures();
                assert(out@.to_multiset() =~= before.to_multiset().insert(e));
                assert(b@.take(j + 1).to_multiset() =~= b@.take(j as int).to_multiset().insert(e));
                assert(out@.to_multiset() =~= a@.take(i as int).to_multiset().add(
                    b@.take(j + 1).to_multiset(),
                ));
                if i < a@.len() {
                    lemma_mean_before_total(a@[i as int], e);
                    assert(mean_before(e, a@[i as int]));
                }
                assert forall|k: int, x: int| 0 <= k < out@.len() && i <= x < a@.len() implies mean_before(
                    #[trigger] out@[k],
                    #[trigger] a@[x],
                ) by {
                    if k < before.len() {
                        assert(out@[k] == before[k]);
                    } else {
                        assert(out@[k] == e);
                        if x > i {
                            lemma_mean_before_transitive(e, a@[i as int], a@[x]);
                        }
                    }
                }
                assert forall|k: int, y: int| 0 <= k < out@.len() && j + 1 <= y < b@.len() implies mean_before(
                    #[trigger] out@[k],
                    #[trigger] b@[y],
                ) by {
                    if k < before.len() {
                        assert(out@[k] == before[k]);
                    } else {
                        assert(out@[k] == b@[j as int]);
                    }
                }
                assert forall|p: int, q: int| 0 <= p < q < out@.len() implies mean_before(#[trigger] out@[p], #[trigger] out@[q]) by {
                    if q == before.len() {
                        assert(out@[p] == before[p]);
                        assert(out@[q] == b@[j as int]);
                    } else {
                        assert(out@[p] == before[p]);
                        assert(out@[q] == before[q]);
                    }
                }
            }
            j += 1;
        }
        proof {
            assert forall|k: int| 0 <= k < out@.len() implies #[trigger] out@[k].1 > 0 by {
                if k < before.len() {
                    assert(out@[k] == before[k]);
                }
            }
        }
    }
    assert(a@.take(i as int) =~= a@);
    assert(b@.take(j as int) =~= b@);
    out
}

/// Ranks cells with distinct indices by mean, ties by index (a merge sort).
pub fn rank_cells(cells: Vec<RankedCell>) -> (out: Vec<RankedCell>)
    requires
        counts_positive(cells@),
        forall|i: int, j: int| 0 <= i < j < cells@.len() ==> (#[trigger] cells@[i]).2 != (#[trigger] cells@[j]).2,
    ensures
        ranked(out@),
        counts_positive(out@),
        out@.to_multiset() == cells@.to_multiset(),
    decreases cells@.len(),
{
    broadcast use group_to_multiset_ensures;

    let n = cells.len();
    if n <= 1 {
        return cells;
    }
    let mut left = cells;
    let right = left.split_off(n / 2);
    let ghost l0 = left@;
    let ghost r0 = right@;
    proof {
        assert(l0 + r0 =~= cells@);
        vstd::seq_lib::lemma_multiset_commutative(l0, r0);
        assert forall|k: int| 0 <= k < l0.len() implies #[trigger] l0[k].1 > 0 by {
            assert(l0[k] == cells@[k]);
        }
        assert forall|k: int| 0 <= k < r0.len() implies #[trigger] r0[k].1 > 0 by {
            assert(r0[k] == cells@[k + l0.len()]);
        }
        assert forall|i: int, j: int| 0 <= i < j < l0.len() implies (#[trigger] l0[i]).2 != (#[trigger] l0[j]).2 by {
            assert(l0[i] == cells@[i] && l0[j] == cells@[j]);
        }
        assert forall|i: int, j: int| 0 <= i < j < r0.len() implies (#[trigger] r0[i]).2 != (#[trigger] r0[j]).2 by {
            assert(r0[i] == cells@[i + l0.len()] && r0[j] == cells@[j + l0.len()]);
        }
    }
    let sl = rank_cells(left);
    let sr = rank_cells(right);
    proof {
        assert forall|i: int, j: int| 0 <= i < sl@.len() && 0 <= j < sr@.len() implies (#[trigger] sl@[i]).2 != (#[trigger] sr@[j]).2 by {
            assert(sl@.to_multiset().contains(sl@[i]));
            assert(l0.to_multiset().contains(sl@[i]));
            assert(sr@.to_multiset().contains(sr@[j]));
            assert(r0.to_multiset().contains(sr@[j]));
            let x = choose|x: int| 0 <= x < l0.len() && l0[x] == sl@[i];
            let y = choose|y: int| 0 <= y < r0.len() && r0[y] == sr@[j];
            assert(l0[x] == cells@[x]);
            assert(r0[y] == cells@[y + l0.len()]);
        }
    }
    merge_ranked(sl, sr)
}

// ---------------------------------------------------------------------------
// The probability-matched mean of a member-major grid.
// ---------------------------------------------------------------------------

/// A cell takes part when its first member is valid.
pub open spec fn cell_valid(all: Seq<u16>, ne: int, gs: int, i: int) -> bool {
    !cell_missing(members_at(all, ne, gs, i))
}

/// Sum of the valid member values of cell `i`.
pub open spec fn cell_sum(all: Seq<u16>, ne: int, gs: int, i: int) -> int {
    valid_sum(members_at(all, ne, gs, i)) as int
}

/// Number of valid member values of cell `i`.
pub open spec fn cell_count(all: Seq<u16>, ne: int, gs: int, i: int) -> int {
    valid_count(members_at(all, ne, gs, i)) as int
}

/// Cell `i` ranks before cell `j`: a lower member mean, or the same mean and
/// a lower index.
pub open spec fn cell_before(all: Seq<u16>, ne: int, gs: int, i: int, j: int) -> bool {
    cell_sum(all, ne, gs, i) * cell_count(all, ne, gs, j) < cell_sum(all, ne, gs, j) * cell_count(
        all,
        ne,
        gs,
        i,
    ) || (cell_sum(all, ne, gs, i) * cell_count(all, ne, gs, j) == cell_sum(all, ne, gs, j)
        * cell_count(all, ne, gs, i) && i < j)
}

/// The valid member values of the taking-part cells before `k`, cell by cell.
pub open spec fn pool_values(all: Seq<u16>, ne: int, gs: int, k: int) -> Seq<u16>
    decreases k,
{
    if k <= 0 {
        Seq::empty()
    } else if cell_valid(all, ne, gs, k - 1) {
        pool_values(all, ne, gs, k - 1) + valid_values(members_at(all, ne, gs, k - 1))
    } else {
        pool_values(all, ne, gs, k - 1)
    }
}

/// Number of times `v` occurs in `s`.
pub open spec fn occurrences(s: Seq<u16>, v: u16) -> nat
    decreases s.len(),
{
    if s.len() == 0 {
        0
    } else {
        occurrences(s.drop_last(), v) + if s.last() == v {
            1nat
        } else {
            0nat
        }
    }
}

/// `rank` lists the taking-part cells, each once, in rank order.
pub open spec fn is_cell_ranking(all: Seq<u16>, ne: int, gs: int, rank: Seq<usize>) -> bool {
    &&& forall|r: int| 0 <= r < rank.len() ==> #[trigger] rank[r] < gs && cell_valid(all, ne, gs, rank[r] as int)
    &&& forall|r1: int, r2: int|
        0 <= r1 < r2 < rank.len() ==> cell_before(all, ne, gs, #[trigger] rank[r1] as int, #[trigger] rank[r2] as int)
    &&& forall|i: usize| i < gs && cell_valid(all, ne, gs, i as int) ==> #[trigger] rank.contains(i)
}

/// `pool` is the pooled member values in increasing order.
pub open spec fn is_sorted_pool(all: Seq<u16>, ne: int, gs: int, pool: Seq<u16>) -> bool {
    &&& is_sorted_u16(pool)
    &&& forall|v: u16| #[trigger] occurrences(pool, v) == occurrences(pool_values(all, ne, gs, gs), v)
}

/// Sum of `s[a..b]`.
pub open spec fn range_sum(s: Seq<u16>, a: int, b: int) -> int
    decreases b - a,
{
    if b <= a {
        0
    } else {
        range_sum(s, a, b - 1) + s[b - 1]
    }
}

/// The value of rank `r` of `n`: the rounded mean (halves up) of block
/// `[r * len / n, (r + 1) * len / n)` of the sorted pool, or the pool value
/// at the start of an empty block.
pub open spec fn block_value(pool: Seq<u16>, r: int, n: int) -> int {
    let np = pool.len() as int;
    let s = r * np / n;
    let e = (r + 1) * np / n;
    if e > s {
        (range_sum(pool, s, e) + (e - s) / 2) / (e - s)
    } else {
        pool[if s < np - 1 {
            s
        } else {
            np - 1
        }] as int
    }
}

/// What the probability-matched mean of a grid is, given the ranking of its
/// cells and the sorted pool.
pub open spec fn is_pmm_grid(out: Seq<u16>, all: Seq<u16>, ne: int, gs: int, rank: Seq<usize>, pool: Seq<u16>) -> bool {
    &&& is_cell_ranking(all, ne, gs, rank)
    &&& is_sorted_pool(all, ne, gs, pool)
    &&& out.len() == gs
    &&& forall|i: int| 0 <= i < gs && !cell_valid(all, ne, gs, i) ==> #[trigger] out[i] == NODATA
    &&& pool.len() == 0 ==> forall|i: int| 0 <= i < gs ==> #[trigger] out[i] == NODATA
    &&& pool.len() > 0 ==> forall|r: int| 0 <= r < rank.len() ==> #[trigger] out[rank[r] as int] == block_value(pool, r, rank.len() as int)
}

proof fn lemma_occurrences_add(a: Seq<u16>, b: Seq<u16>, v: u16)
    ensures
        occurrences(a + b, v) == occurrences(a, v) + occurrences(b, v),
    decreases b.len(),
{
    if b.len() > 0 {
        lemma_occurrences_add(a, b.drop_last(), v);
        assert((a + b).drop_last() =~= a + b.drop_last());
    } else {
        assert(a + b =~= a);
    }
}

proof fn lemma_occurrences_le(s: Seq<u16>, v: u16)
    ensures
        occurrences(s, v) <= s.len(),
    decreases s.len(),
{
    if s.len() > 0 {
        lemma_occurrences_le(s.drop_last(), v);
    }
}

proof fn lemma_valid_values_len(s: Seq<u16>)
    ensures
        valid_values(s).len() <= s.len(),
{
    lemma_valid_values(s);
    lemma_valid_count_le_len(s);
}

proof fn lemma_pool_len(all: Seq<u16>, ne: int, gs: int, k: int)
    requires
        0 <= k,
        0 <= ne,
    ensures
        pool_values(all, ne, gs, k).len() <= k * ne,
    decreases k,
{
    if k > 0 {
        lemma_pool_len(all, ne, gs, k - 1);
        lemma_valid_values_len(members_at(all, ne, gs, k - 1));
        assert((k - 1) * ne + ne == k * ne) by (nonlinear_arith);
    }
}

/// Sum and count of the valid members of a cell, adding each valid value to
/// the histogram.
fn tally_cell(vals: &Vec<u16>, hist: &mut Vec<usize>, bound: usize) -> (r: (u128, u64))
    requires
        old(hist)@.len() == 65536,
        forall|v: int| 0 <= v < 65536 ==> #[trigger] old(hist)@[v] + vals@.len() <= bound,
    ensures
        final(hist)@.len() == 65536,
        forall|v: int|
            0 <= v < 65536 ==> #[trigger] final(hist)@[v] == old(hist)@[v] + occurrences(valid_values(vals@), v as u16),
        r.0 == valid_sum(vals@),
        r.1 == valid_count(vals@),
{
    let ghost h0 = hist@;
    let mut sum: u128 = 0;
    let mut count: u64 = 0;
    let mut e: usize = 0;
    while e < vals.len()
        invariant
            hist@.len() == 65536,
            h0.len() == 65536,
            forall|v: int| 0 <= v < 65536 ==> #[trigger] h0[v] + vals@.len() <= bound,
            e <= vals@.len(),
            forall|v: int|
                0 <= v < 65536 ==> #[trigger] hist@[v] == h0[v] + occurrences(valid_values(vals@.take(e as int)), v as u16),
            sum == valid_sum(vals@.take(e as int)),
            count == valid_count(vals@.take(e as int)),
            count <= e,
            sum <= 65534 * count,
        decreases vals@.len() - e,
    {
        proof {
            lemma_take_last(vals@, e as int);
            lemma_valid_values_len(vals@.take(e as int));
        }
        let x = vals[e];
        if x != NODATA {
            let ghost before = hist@;
            let ghost part = valid_values(vals@.take(e as int));
            proof {
                lemma_occurrences_le(part, x);
                assert(part.len() <= e);
                assert(h0[x as int] + vals@.len() <= bound);
            }
            let h = hist[x as usize];
            hist.set(x as usize, h + 1);
            proof {
                assert forall|v: int| 0 <= v < 65536 implies #[trigger] hist@[v] == h0[v] + occurrences(
                    valid_values(vals@.take(e + 1)),
                    v as u16,
                ) by {
                    assert(valid_values(vals@.take(e + 1)) == part.push(x));
                    assert(part.push(x).drop_last() =~= part);
                    if v != x as int {
                        assert(hist@[v] == before[v]);
                        assert(v as u16 != x);
                    }
                }
            }
            sum = sum + x as u128;
            count = count + 1;
        } else {
            proof {
                assert(valid_values(vals@.take(e + 1)) == valid_values(vals@.take(e as int)));
            }
        }
        e += 1;
    }
    assert(vals@.take(e as int) =~= vals@);
    (sum, count)
}

/// A ranked cell holds the sum, the count and the index of a taking-part
/// cell before `i`.
pub open spec fn tallied(all: Seq<u16>, ne: int, gs: int, c: RankedCell, i: int) -> bool {
    &&& c.2 < i
    &&& cell_valid(all, ne, gs, c.2 as int)
    &&& c.0 == cell_sum(all, ne, gs, c.2 as int)
    &&& c.1 == cell_count(all, ne, gs, c.2 as int)
}

/// The taking-part cells with their sums and counts, and the histogram of
/// their pooled member values.
fn tally_grid(all: &[u16], num_ensembles: usize, grid_size: usize) -> (r: (Vec<RankedCell>, Vec<usize>))
    requires
        num_ensembles * grid_size <= all.len(),
    ensures
        r.1@.len() == 65536,
        forall|v: int|
            0 <= v < 65536 ==> #[trigger] r.1@[v] == occurrences(
                pool_values(all@, num_ensembles as int, grid_size as int, grid_size as int),
                v as u16,
            ),
        forall|k: int| 0 <= k < r.0@.len() ==> tallied(all@, num_ensembles as int, grid_size as int, #[trigger] r.0@[k], grid_size as int),
        forall|k1: int, k2: int| 0 <= k1 < k2 < r.0@.len() ==> (#[trigger] r.0@[k1]).2 < (#[trigger] r.0@[k2]).2,
        forall|j: int|
            0 <= j < grid_size && cell_valid(all@, num_ensembles as int, grid_size as int, j) ==> exists|k: int|
                0 <= k < r.0@.len() && (#[trigger] r.0@[k]).2 == j,
{
    let ghost a = all@;
    let ghost ne = num_ensembles as int;
    let ghost gs = grid_size as int;
    let mut hist: Vec<usize> = Vec::new();
    let mut v: usize = 0;
    while v < 65536
        invariant
            v <= 65536,
            hist@.len() == v,
            forall|w: int| 0 <= w < v ==> #[trigger] hist@[w] == 0,
        decreases 65536 - v,
    {
        hist.push(0);
        v += 1;
    }
    let mut cells: Vec<RankedCell> = Vec::new();
    let mut i: usize = 0;
    while i < grid_size
        invariant
            a == all@,
            ne == num_ensembles,
            gs == grid_size,
            num_ensembles * grid_size <= all.len(),
            i <= grid_size,
            hist@.len() == 65536,
            forall|w: int| 0 <= w < 65536 ==> #[trigger] hist@[w] == occurrences(pool_values(a, ne, gs, i as int), w as u16),
            forall|k: int| 0 <= k < cells@.len() ==> tallied(a, ne, gs, #[trigger] cells@[k], i as int),
            forall|k1: int, k2: int| 0 <= k1 < k2 < cells@.len() ==> (#[trigger] cells@[k1]).2 < (#[trigger] cells@[k2]).2,
            forall|j: int| 0 <= j < i && cell_valid(a, ne, gs, j) ==> exists|k: int| 0 <= k < cells@.len() && (#[trigger] cells@[k]).2 == j,
        decreases grid_size - i,
    {
        let vals = gather_members(all, num_ensembles, grid_size, i);
        let ghost m = vals@;
        proof {
            lemma_pool_len(a, ne, gs, i as int);
            assert((i + 1) * ne <= gs * ne) by (nonlinear_arith)
                requires
                    i + 1 <= gs,
                    0 <= ne,
            ;
            assert(i * ne + ne == (i + 1) * ne) by (nonlinear_arith);
            assert(gs * ne == ne * gs) by (nonlinear_arith);
            assert(m.len() == ne);
            assert forall|w: int| 0 <= w < 65536 implies #[trigger] hist@[w] + m.len() <= all.len() by {
                lemma_occurrences_le(pool_values(a, ne, gs, i as int), w as u16);
            }
        }
        let ghost h_before = hist@;
        let ghost cells_before = cells@;
        let valid = num_ensembles > 0 && vals[0] != NODATA;
        if valid {
            let (sum, count) = tally_cell(&vals, &mut hist, all.len());
            proof {
                lemma_first_valid(m);
            }
            cells.push((sum, count, i));
        }
        proof {
            let p = pool_values(a, ne, gs, i as int);
            assert(cell_valid(a, ne, gs, i as int) == valid);
            if valid {
                assert(pool_values(a, ne, gs, i + 1) == p + valid_values(m));
                assert forall|w: int| 0 <= w < 65536 implies #[trigger] hist@[w] == occurrences(
                    pool_values(a, ne, gs, i + 1),
                    w as u16,
                ) by {
                    lemma_occurrences_add(p, valid_values(m), w as u16);
                }
            } else {
                assert(pool_values(a, ne, gs, i + 1) == p);
            }
            assert forall|k: int| 0 <= k < cells@.len() implies tallied(a, ne, gs, #[trigger] cells@[k], i + 1) by {}
            assert forall|j: int| 0 <= j < i + 1 && cell_valid(a, ne, gs, j) implies exists|k: int|
                0 <= k < cells@.len() && (#[trigger] cells@[k]).2 == j by {
                if j == i {
                    assert(cells@[cells@.len() - 1].2 == j);
                } else {
                    let k = choose|k: int| 0 <= k < cells_before.len() && (#[trigger] cells_before[k]).2 == j;
                    assert(cells@[k] == cells_before[k]);
                    assert(cells@[k].2 == j);
                }
            }
        }
        i += 1;
    }
    (cells, hist)
}

/// Number of times the value `w` occurs in `s`.
pub open spec fn occurrences_at(s: Seq<u16>, w: int) -> nat {
    occurrences(s, w as u16)
}

/// The pool in increasing order, from the histogram of its values.
fn expand_histogram(hist: &Vec<usize>) -> (pool: Vec<u16>)
    requires
        hist@.len() == 65536,
    ensures
        is_sorted_u16(pool@),
        forall|w: int| 0 <= w < 65536 ==> #[trigger] occurrences_at(pool@, w) == hist@[w],
{
    let mut pool: Vec<u16> = Vec::new();
    let mut v: usize = 0;
    while v < 65536
        invariant
            hist@.len() == 65536,
            v <= 65536,
            is_sorted_u16(pool@),
            forall|k: int| 0 <= k < pool@.len() ==> (#[trigger] pool@[k]) < v,
            forall|w: int|
                0 <= w < 65536 ==> #[trigger] occurrences_at(pool@, w) == if w < v {
                    hist@[w] as int
                } else {
                    0int
                },
        decreases 65536 - v,
    {
        let x = v as u16;
        let c = hist[v];
        let mut t: usize = 0;
        while t < c
            invariant
                hist@.len() == 65536,
                v < 65536,
                x == v,
                c == hist@[v as int],
                t <= c,
                is_sorted_u16(pool@),
                forall|k: int| 0 <= k < pool@.len() ==> (#[trigger] pool@[k]) <= v,
                forall|w: int|
                    0 <= w < 65536 ==> #[trigger] occurrences_at(pool@, w) == if w < v {
                        hist@[w] as int
                    } else if w == v {
                        t as int
                    } else {
                        0int
                    },
            decreases c - t,
        {
            let ghost before = pool@;
            pool.push(x);
            proof {
                assert(pool@.drop_last() =~= before);
                assert forall|w: int| 0 <= w < 65536 implies #[trigger] occurrences_at(pool@, w) == if w < v {
                    hist@[w] as int
                } else if w == v {
                    t + 1
                } else {
                    0int
                } by {
                    assert(occurrences_at(before, w) == occurrences(before, w as u16));
                    assert(occurrences(pool@, w as u16) == occurrences(before, w as u16) + if x == w as u16 {
                        1nat
                    } else {
                        0nat
                    });
                    assert((x == w as u16) == (w == v));
                }
            }
            t += 1;
        }
        v += 1;
    }
    pool
}

proof fn lemma_ranking(all: Seq<u16>, ne: int, gs: int, cells: Seq<RankedCell>, order: Seq<RankedCell>)
    requires
        forall|k: int| 0 <= k < cells.len() ==> tallied(all, ne, gs, #[trigger] cells[k], gs),
        forall|j: int|
            0 <= j < gs && cell_valid(all, ne, gs, j) ==> exists|k: int| 0 <= k < cells.len() && (#[trigger] cells[k]).2 == j,
        ranked(order),
        order.to_multiset() == cells.to_multiset(),
    ensures
        is_cell_ranking(all, ne, gs, order.map_values(|c: RankedCell| c.2)),
        order.map_values(|c: RankedCell| c.2).len() == order.len(),
        forall|r: int| 0 <= r < order.len() ==> tallied(all, ne, gs, #[trigger] order[r], gs),
{
    broadcast use group_to_multiset_ensures;

    let rank = order.map_values(|c: RankedCell| c.2);
    assert forall|r: int| 0 <= r < order.len() implies tallied(all, ne, gs, #[trigger] order[r], gs) by {
        assert(order.to_multiset().contains(order[r]));
        assert(cells.to_multiset().contains(order[r]));
        let k = choose|k: int| 0 <= k < cells.len() && cells[k] == order[r];
        assert(tallied(all, ne, gs, cells[k], gs));
    }
    assert forall|r: int| 0 <= r < rank.len() implies #[trigger] rank[r] < gs && cell_valid(all, ne, gs, rank[r] as int) by {
        assert(tallied(all, ne, gs, order[r], gs));
    }
    assert forall|r1: int, r2: int| 0 <= r1 < r2 < rank.len() implies cell_before(
        all,
        ne,
        gs,
        #[trigger] rank[r1] as int,
        #[trigger] rank[r2] as int,
    ) by {
        assert(mean_before(order[r1], order[r2]));
        assert(tallied(all, ne, gs, order[r1], gs));
        assert(tallied(all, ne, gs, order[r2], gs));
    }
    assert forall|i: usize| i < gs && cell_valid(all, ne, gs, i as int) implies #[trigger] rank.contains(i) by {
        let k = choose|k: int| 0 <= k < cells.len() && (#[trigger] cells[k]).2 == i as int;
        assert(cells.to_multiset().contains(cells[k]));
        assert(order.to_multiset().contains(cells[k]));
        let r = choose|r: int| 0 <= r < order.len() && order[r] == cells[k];
        assert(rank[r] == i);
    }
}

/// Distinct ranks hold distinct cells.
proof fn lemma_ranking_distinct(all: Seq<u16>, ne: int, gs: int, rank: Seq<usize>, r1: int, r2: int)
    requires
        is_cell_ranking(all, ne, gs, rank),
        0 <= r1 < rank.len(),
        0 <= r2 < rank.len(),
        r1 != r2,
    ensures
        rank[r1] != rank[r2],
{
    if r1 < r2 {
        assert(cell_before(all, ne, gs, rank[r1] as int, rank[r2] as int));
    } else {
        assert(cell_before(all, ne, gs, rank[r2] as int, rank[r1] as int));
    }
}

/// The value of rank `r` of `n` (see [`block_value`]).
fn rank_value(pool: &Vec<u16>, r: usize, n: usize) -> (v: u16)
    requires
        r < n,
        pool@.len() > 0,
    ensures
        v == block_value(pool@, r as int, n as int),
{
    let np = pool.len();
    let ghost npi = np as int;
    assert(r * npi <= (r + 1) * npi <= n * npi) by (nonlinear_arith)
        requires
            r + 1 <= n,
            npi >= 0,
    ;
    assert(r * npi / (n as int) <= (r + 1) * npi / (n as int) <= npi) by (nonlinear_arith)
        requires
            r * npi <= (r + 1) * npi <= n * npi,
            n > 0,
            npi >= 0,
    ;
    assert((r as u128) * (np as u128) <= 0xffff_ffff_ffff_ffff * 0xffff_ffff_ffff_ffff) by (nonlinear_arith)
        requires
            r <= 0xffff_ffff_ffff_ffff,
            np <= 0xffff_ffff_ffff_ffff,
    ;
    assert(((r + 1) as u128) * (np as u128) <= 0x1_0000_0000_0000_0000 * 0xffff_ffff_ffff_ffff) by (nonlinear_arith)
        requires
            r + 1 <= 0x1_0000_0000_0000_0000,
            np <= 0xffff_ffff_ffff_ffff,
    ;
    let s = ((r as u128) * (np as u128) / (n as u128)) as usize;
    let e = (((r + 1) as u128) * (np as u128) / (n as u128)) as usize;
    if e > s {
        let mut acc: u128 = 0;
        let mut k: usize = s;
        while k < e
            invariant
                s <= k <= e <= pool@.len(),
                acc == range_sum(pool@, s as int, k as int),
                acc <= 65535 * (k - s),
            decreases e - k,
        {
            acc = acc + pool[k] as u128;
            k += 1;
        }
        let len = (e - s) as u128;
        let mean = (acc + len / 2) / len;
        assert(mean <= 65535) by (nonlinear_arith)
            requires
                mean == (acc + len / 2) as int / (len as int),
                acc <= 65535 * len,
                len > 0,
        ;
        mean as u16
    } else {
        let at = if s < np - 1 {
            s
        } else {
            np - 1
        };
        pool[at]
    }
}

/// The probability-matched mean of a member-major grid: cells whose first
/// member is valid are ranked by the mean of their valid members (ties by
/// index); the valid member values of those cells are pooled and sorted, and
/// the cell of rank `r` of `n` gets the rounded mean of the `r`-th of `n`
/// consecutive blocks of the pool (see [`block_value`]). Other cells are
/// [`NODATA`].
pub fn pmm_grid(all_members: &[u16], num_ensembles: usize, grid_size: usize) -> (out: Vec<u16>)
    requires
        num_ensembles * grid_size <= all_members.len(),
    ensures
        exists|rank: Seq<usize>, pool: Seq<u16>|
            is_pmm_grid(out@, all_members@, num_ensembles as int, grid_size as int, rank, pool),
{
    let ghost a = all_members@;
    let ghost ne = num_ensembles as int;
    let ghost gs = grid_size as int;
    let (cells, hist) = tally_grid(all_members, num_ensembles, grid_size);
    let ghost cells0 = cells@;
    proof {
        assert forall|k: int| 0 <= k < cells0.len() implies #[trigger] cells0[k].1 > 0 by {
            assert(tallied(a, ne, gs, cells0[k], gs));
            lemma_first_valid(members_at(a, ne, gs, cells0[k].2 as int));
        }
        assert forall|i: int, j: int| 0 <= i < j < cells0.len() implies (#[trigger] cells0[i]).2 != (#[trigger] cells0[j]).2 by {}
    }
    let order = rank_cells(cells);
    let ghost rank = order@.map_values(|c: RankedCell| c.2);
    proof {
        lemma_ranking(a, ne, gs, cells0, order@);
    }
    let pool = expand_histogram(&hist);
    proof {
        assert forall|v: u16| #[trigger] occurrences(pool@, v) == occurrences(pool_values(a, ne, gs, gs), v) by {
            assert(occurrences_at(pool@, v as int) == hist@[v as int]);
            assert((v as int) as u16 == v);
        }
    }
    let mut out: Vec<u16> = Vec::new();
    let mut i: usize = 0;
    while i < grid_size
        invariant
            i <= grid_size,
            out@.len() == i,
            forall|k: int| 0 <= k < i ==> #[trigger] out@[k] == NODATA,
        decreases grid_size - i,
    {
        out.push(NODATA);
        i += 1;
    }
    let n = order.len();
    if n > 0 && pool.len() > 0 {
        let mut r: usize = 0;
        while r < n
            invariant
                n == order@.len(),
                rank == order@.map_values(|c: RankedCell| c.2),
                is_cell_ranking(a, ne, gs, rank),
                pool@.len() > 0,
                r <= n,
                out@.len() == gs,
                forall|q: int| 0 <= q < r ==> #[trigger] out@[rank[q] as int] == block_value(pool@, q, n as int),
                forall|k: int|
                    0 <= k < gs && (forall|q: int| 0 <= q < r ==> #[trigger] rank[q] != k) ==> #[trigger] out@[k] == NODATA,
            decreases n - r,
        {
            let val = rank_value(&pool, r, n);
            let idx = order[r].2;
            let ghost before = out@;
            proof {
                assert(rank[r as int] == idx);
            }
            out.set(idx, val);
            proof {
                assert forall|q: int| 0 <= q < r + 1 implies #[trigger] out@[rank[q] as int] == block_value(pool@, q, n as int) by {
                    if q < r {
                        lemma_ranking_distinct(a, ne, gs, rank, q, r as int);
                    }
                }
                assert forall|k: int|
                    0 <= k < gs && (forall|q: int| 0 <= q < r + 1 ==> #[trigger] rank[q] != k) implies #[trigger] out@[k] == NODATA by {
                    assert(rank[r as int] != k);
                    assert(out@[k] == before[k]);
                }
            }
            r += 1;
        }
        proof {
            assert forall|k: int| 0 <= k < gs && !cell_valid(a, ne, gs, k) implies #[trigger] out@[k] == NODATA by {
                assert forall|q: int| 0 <= q < n implies #[trigger] rank[q] != k by {
                    assert(rank[q] < gs && cell_valid(a, ne, gs, rank[q] as int));
                }
            }
            assert(is_pmm_grid(out@, a, ne, gs, rank, pool@));
        }
    } else {
        proof {
            if n > 0 {
                assert(pool@.len() == 0);
            }
            assert(is_pmm_grid(out@, a, ne, gs, rank, pool@));
        }
    }
    out
}

// ---------------------------------------------------------------------------
// The probability-matched mean keeps the order of the cell means.
// ---------------------------------------------------------------------------

/// A range of a sorted sequence sums to between its length times its first
/// and its length times its last element.
proof fn lemma_range_sum_bounds(pool: Seq<u16>, s: int, e: int)
    requires
        is_sorted_u16(pool),
        0 <= s < e <= pool.len(),
    ensures
        (e - s) * (pool[s] as int) <= range_sum(pool, s, e) <= (e - s) * (pool[e - 1] as int),
    decreases e - s,
{
    assert(range_sum(pool, s, e) == range_sum(pool, s, e - 1) + pool[e - 1]);
    if e - 1 > s {
        lemma_range_sum_bounds(pool, s, e - 1);
        assert(pool[e - 2] <= pool[e - 1]);
        assert(pool[s] <= pool[e - 1]);
        assert((e - s) * (pool[s] as int) == (e - 1 - s) * (pool[s] as int) + pool[s] as int)
            by (nonlinear_arith);
        assert((e - 1 - s) * (pool[e - 2] as int) <= (e - 1 - s) * (pool[e - 1] as int))
            by (nonlinear_arith)
            requires
                pool[e - 2] <= pool[e - 1],
                e - 1 - s >= 0,
        ;
        assert((e - s) * (pool[e - 1] as int) == (e - 1 - s) * (pool[e - 1] as int) + pool[e
            - 1] as int) by (nonlinear_arith);
    } else {
        assert(range_sum(pool, s, s) == 0);
        assert(e - 1 == s);
        assert((e - s) * (pool[s] as int) == pool[s] as int) by (nonlinear_arith)
            requires
                e - s == 1,
        ;
        assert((e - s) * (pool[e - 1] as int) == pool[e - 1] as int) by (nonlinear_arith)
            requires
                e - s == 1,
        ;
    }
}

/// The rounded mean of values between `lo` and `hi` is between them too.
proof fn lemma_rounded_mean_between(sum: int, len: int, lo: int, hi: int)
    requires
        len > 0,
        len * lo <= sum <= len * hi,
    ensures
        lo <= (sum + len / 2) / len <= hi,
{
    let q = (sum + len / 2) / len;
    assert(len * q <= sum + len / 2 < len * q + len) by (nonlinear_arith)
        requires
            q == (sum + len / 2) / len,
            len > 0,
    ;
    assert(0 <= len / 2 < len) by (nonlinear_arith)
        requires
            len > 0,
    ;
    assert(q <= hi) by (nonlinear_arith)
        requires
            len * q <= sum + len / 2,
            sum <= len * hi,
            len / 2 < len,
            len > 0,
    ;
    assert(lo <= q) by (nonlinear_arith)
        requires
            sum + len / 2 < len * q + len,
            len * lo <= sum,
            0 <= len / 2,
            len > 0,
    ;
}

/// The block of rank `r` lies inside the pool, and the blocks follow each
/// other in rank order.
proof fn lemma_block_ends(np: int, r1: int, r2: int, n: int)
    requires
        np > 0,
        0 <= r1 < r2 < n,
    ensures
        0 <= r1 * np / n <= (r1 + 1) * np / n <= r2 * np / n <= (r2 + 1) * np / n <= np,
{
    assert(0 <= r1 * np) by (nonlinear_arith)
        requires
            0 <= r1,
            np > 0,
    ;
    assert(r1 * np <= (r1 + 1) * np <= r2 * np <= (r2 + 1) * np <= n * np) by (nonlinear_arith)
        requires
            0 <= r1 < r2 < n,
            np > 0,
    ;
    vstd::arithmetic::div_mod::lemma_div_is_ordered(0, r1 * np, n);
    vstd::arithmetic::div_mod::lemma_div_is_ordered(r1 * np, (r1 + 1) * np, n);
    vstd::arithmetic::div_mod::lemma_div_is_ordered((r1 + 1) * np, r2 * np, n);
    vstd::arithmetic::div_mod::lemma_div_is_ordered(r2 * np, (r2 + 1) * np, n);
    vstd::arithmetic::div_mod::lemma_div_is_ordered((r2 + 1) * np, n * np, n);
    assert(n * np / n == np) by (nonlinear_arith)
        requires
            n > 0,
    ;
    assert(0int / n == 0) by (nonlinear_arith)
        requires
            n > 0,
    ;
}

/// The value of a non-empty block lies between its first and last pool
/// values; that of an empty block is the pool value it points at.
proof fn lemma_block_value_bounds(pool: Seq<u16>, r: int, n: int)
    requires
        is_sorted_u16(pool),
        pool.len() > 0,
        0 <= r < n,
    ensures
        ({
            let np = pool.len() as int;
            let s = r * np / n;
            let e = (r + 1) * np / n;
            &&& 0 <= s <= e <= np
            &&& e > s ==> pool[s] as int <= block_value(pool, r, n) <= pool[e - 1] as int
            &&& e <= s ==> block_value(pool, r, n) == pool[if s < np - 1 { s } else { np - 1 }] as int
        }),
{
    let np = pool.len() as int;
    if r + 1 < n {
        lemma_block_ends(np, r, r + 1, n);
    } else {
        assert(r * np <= (r + 1) * np) by (nonlinear_arith)
            requires
                np > 0,
        ;
        assert(0 <= r * np) by (nonlinear_arith)
            requires
                0 <= r,
                np > 0,
        ;
        vstd::arithmetic::div_mod::lemma_div_is_ordered(0, r * np, n);
        vstd::arithmetic::div_mod::lemma_div_is_ordered(r * np, (r + 1) * np, n);
        assert((r + 1) * np / n == np) by (nonlinear_arith)
            requires
                r + 1 == n,
                n > 0,
        ;
        assert(0int / n == 0) by (nonlinear_arith)
            requires
                n > 0,
        ;
    }
    let s = r * np / n;
    let e = (r + 1) * np / n;
    if e > s {
        lemma_range_sum_bounds(pool, s, e);
        lemma_rounded_mean_between(range_sum(pool, s, e), e - s, pool[s] as int, pool[e - 1] as int);
    }
}

/// Blocks of lower rank have values no greater than blocks of higher rank.
proof fn lemma_block_value_monotone(pool: Seq<u16>, r1: int, r2: int, n: int)
    requires
        is_sorted_u16(pool),
        pool.len() > 0,
        0 <= r1 < r2 < n,
    ensures
        block_value(pool, r1, n) <= block_value(pool, r2, n),
{
    let np = pool.len() as int;
    lemma_block_ends(np, r1, r2, n);
    lemma_block_value_bounds(pool, r1, n);
    lemma_block_value_bounds(pool, r2, n);
    let s1 = r1 * np / n;
    let e1 = (r1 + 1) * np / n;
    let s2 = r2 * np / n;
    let e2 = (r2 + 1) * np / n;
    let p1 = if e1 > s1 { e1 - 1 } else if s1 < np - 1 { s1 } else { np - 1 };
    let p2 = if e2 > s2 { s2 } else if s2 < np - 1 { s2 } else { np - 1 };
    assert(0 <= p1 <= p2 < np);
    if p1 < p2 {
        assert(pool[p1] <= pool[p2]);
    }
}

/// The probability-matched mean keeps the order of the cell means: of two
/// taking-part cells, the one whose member mean is lower (or equal, at a
/// lower index) gets a value no greater than the other.
pub proof fn lemma_pmm_keeps_mean_order(
    out: Seq<u16>,
    all: Seq<u16>,
    ne: int,
    gs: int,
    rank: Seq<usize>,
    pool: Seq<u16>,
    i: usize,
    j: usize,
)
    requires
        is_pmm_grid(out, all, ne, gs, rank, pool),
        i < gs,
        j < gs,
        cell_valid(all, ne, gs, i as int),
        cell_valid(all, ne, gs, j as int),
        cell_before(all, ne, gs, i as int, j as int),
    ensures
        out[i as int] <= out[j as int],
{
    if pool.len() == 0 {
        assert(out[i as int] == NODATA && out[j as int] == NODATA);
    } else {
        assert(rank.contains(i));
        assert(rank.contains(j));
        let ri = choose|r: int| 0 <= r < rank.len() && rank[r] == i;
        let rj = choose|r: int| 0 <= r < rank.len() && rank[r] == j;
        assert(out[rank[ri] as int] == block_value(pool, ri, rank.len() as int));
        assert(out[rank[rj] as int] == block_value(pool, rj, rank.len() as int));
        if rj < ri {
            assert(cell_before(all, ne, gs, rank[rj] as int, rank[ri] as int));
            assert(false);
        } else if ri < rj {
            lemma_block_value_monotone(pool, ri, rj, rank.len() as int);
        }
    }
}

// ---------------------------------------------------------------------------
// The probability-matched mean stays within the pooled member values.
// ---------------------------------------------------------------------------

proof fn lemma_occurrences_positive(s: Seq<u16>, j: int)
    requires
        0 <= j < s.len(),
    ensures
        occurrences(s, s[j]) >= 1,
    decreases s.len(),
{
    if j < s.len() - 1 {
        lemma_occurrences_positive(s.drop_last(), j);
        assert(s.drop_last()[j] == s[j]);
    }
}

proof fn lemma_occurrences_absent(s: Seq<u16>, v: u16)
    requires
        forall|k: int| 0 <= k < s.len() ==> s[k] != v,
    ensures
        occurrences(s, v) == 0,
    decreases s.len(),
{
    if s.len() > 0 {
        assert forall|k: int| 0 <= k < s.drop_last().len() implies s.drop_last()[k] != v by {
            assert(s.drop_last()[k] == s[k]);
        }
        lemma_occurrences_absent(s.drop_last(), v);
    }
}

/// The pooled values hold no [`NODATA`].
proof fn lemma_pool_without_nodata(all: Seq<u16>, ne: int, gs: int, k: int)
    ensures
        occurrences(pool_values(all, ne, gs, k), NODATA) == 0,
    decreases k,
{
    if k > 0 {
        lemma_pool_without_nodata(all, ne, gs, k - 1);
        if cell_valid(all, ne, gs, k - 1) {
            let m = members_at(all, ne, gs, k - 1);
            lemma_valid_values(m);
            lemma_occurrences_absent(valid_values(m), NODATA);
            lemma_occurrences_add(pool_values(all, ne, gs, k - 1), valid_values(m), NODATA);
        }
    }
}

/// The valid values of members whose first one is valid hold that first one.
proof fn lemma_valid_values_first(s: Seq<u16>)
    requires
        s.len() > 0,
        s[0] != NODATA,
    ensures
        occurrences(valid_values(s), s[0]) >= 1,
    decreases s.len(),
{
    if s.len() == 1 {
        assert(s.drop_last() =~= Seq::<u16>::empty());
        assert(valid_values(s) == valid_values(s.drop_last()).push(s[0]));
        assert(valid_values(s).drop_last() =~= Seq::<u16>::empty());
    } else {
        lemma_valid_values_first(s.drop_last());
        assert(s.drop_last()[0] == s[0]);
        let t = valid_values(s.drop_last());
        if s.last() != NODATA {
            assert(t.push(s.last()).drop_last() =~= t);
        }
    }
}

/// The pool of the cells before `k` holds the first member value of each
/// taking-part cell among them.
proof fn lemma_pool_holds_cell(all: Seq<u16>, ne: int, gs: int, k: int, i: int)
    requires
        0 <= i < k,
        cell_valid(all, ne, gs, i),
    ensures
        occurrences(pool_values(all, ne, gs, k), members_at(all, ne, gs, i)[0]) >= 1,
    decreases k,
{
    let v = members_at(all, ne, gs, i)[0];
    if k - 1 == i {
        let m = members_at(all, ne, gs, i);
        lemma_valid_values_first(m);
        lemma_occurrences_add(pool_values(all, ne, gs, k - 1), valid_values(m), v);
    } else {
        lemma_pool_holds_cell(all, ne, gs, k - 1, i);
        if cell_valid(all, ne, gs, k - 1) {
            let m = members_at(all, ne, gs, k - 1);
            lemma_occurrences_add(pool_values(all, ne, gs, k - 1), valid_values(m), v);
        }
    }
}

/// A taking-part cell gets a value, not [`NODATA`], between the least and
/// the greatest of the pooled member values.
pub proof fn lemma_pmm_value_in_pool(
    out: Seq<u16>,
    all: Seq<u16>,
    ne: int,
    gs: int,
    rank: Seq<usize>,
    pool: Seq<u16>,
    i: usize,
)
    requires
        is_pmm_grid(out, all, ne, gs, rank, pool),
        i < gs,
        cell_valid(all, ne, gs, i as int),
    ensures
        pool.len() > 0,
        out[i as int] != NODATA,
        pool[0] <= out[i as int] <= pool[pool.len() - 1],
{
    let v = members_at(all, ne, gs, i as int)[0];
    lemma_pool_holds_cell(all, ne, gs, gs, i as int);
    assert(occurrences(pool, v) == occurrences(pool_values(all, ne, gs, gs), v));
    lemma_occurrences_le(pool, v);
    let np = pool.len() as int;
    assert(rank.contains(i));
    let r = choose|r: int| 0 <= r < rank.len() && rank[r] == i;
    let n = rank.len() as int;
    assert(out[rank[r] as int] == block_value(pool, r, n));
    lemma_block_value_bounds(pool, r, n);
    let s = r * np / n;
    let e = (r + 1) * np / n;
    if e > s {
        if s > 0 {
            assert(pool[0] <= pool[s]);
        }
        if e - 1 < np - 1 {
            assert(pool[e - 1] <= pool[np - 1]);
        }
    } else {
        let p = if s < np - 1 { s } else { np - 1 };
        if p > 0 {
            assert(pool[0] <= pool[p]);
        }
        if p < np - 1 {
            assert(pool[p] <= pool[np - 1]);
        }
    }
    lemma_pool_without_nodata(all, ne, gs, gs);
    assert(occurrences(pool, NODATA) == occurrences(pool_values(all, ne, gs, gs), NODATA));
    if pool[np - 1] == NODATA {
        lemma_occurrences_positive(pool, np - 1);
    }
}

} // verus!
