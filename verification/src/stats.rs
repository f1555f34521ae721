//! Statistics over the members of an ensemble radar grid: the member-major
//! grid layout (member `e`, cell `i` at `e * grid_size + i`), the per-cell
//! statistics of the precalculated layers and the statistic grids served on
//! request.

use vstd::prelude::*;
use vstd::seq_lib::group_to_multiset_ensures;
use crate::constants::{NEP_RADIUS, NODATA};
use crate::mask::{cell, compute_dilated_mask_with_dims, lemma_cell_index, rain_near};
use crate::models::{
    cell_missing, is_rounded_spread, is_sorted_u16, reduce_ensemble, reduction_of, sort_u16,
    valid_count, valid_max, EnsembleStat,
};
use crate::pmm::{is_pmm_grid, pmm_grid};

verus! {

/// The member values of cell `i` of a member-major grid.
pub open spec fn members_at(all: Seq<u16>, num_ensembles: int, grid_size: int, i: int) -> Seq<u16> {
    Seq::new(num_ensembles as nat, |e: int| all[e * grid_size + i])
}

/// The neighbourhood rain flags of cell `i`, one per member.
pub open spec fn flags_at(masks: Seq<Vec<bool>>, i: int) -> Seq<bool> {
    Seq::new(masks.len(), |e: int| masks[e]@[i])
}

/// The member values that are not [`NODATA`], in member order.
pub open spec fn valid_values(s: Seq<u16>) -> Seq<u16>
    decreases s.len(),
{
    if s.len() == 0 {
        Seq::empty()
    } else if s.last() != NODATA {
        valid_values(s.drop_last()).push(s.last())
    } else {
        valid_values(s.drop_last())
    }
}

/// Number of valid members whose neighbourhood holds rain.
pub open spec fn over_count(s: Seq<u16>, near: Seq<bool>) -> nat
    decreases s.len(),
{
    if s.len() == 0 {
        0
    } else {
        over_count(s.drop_last(), near) + if s.last() != NODATA && near[s.len() - 1] {
            1nat
        } else {
            0nat
        }
    }
}

/// `r` is the median of the valid member values: the middle element (upper
/// middle for an even count) of their sorted arrangement.
pub open spec fn is_valid_median(r: u16, s: Seq<u16>) -> bool {
    exists|t: Seq<u16>|
        #[trigger] is_sorted_u16(t) && t.to_multiset() == valid_values(s).to_multiset() && t.len()
            == valid_values(s).len() && r == t[t.len() as int / 2]
}

/// The precalculated statistics of one cell.
#[derive(Debug, Clone, Copy, PartialEq, Eq, Structural)]
pub struct CellStats {
    pub median: u16,
    pub maximum: u16,
    pub probability: u16,
    pub spread: u16,
}

/// What the precalculated statistics of a cell are, given its member values
/// and the neighbourhood rain flags of the members.
pub open spec fn cell_stats_of(r: CellStats, s: Seq<u16>, near: Seq<bool>) -> bool {
    if cell_missing(s) {
        r == CellStats { median: NODATA, maximum: NODATA, probability: NODATA, spread: NODATA }
    } else {
        &&& is_valid_median(r.median, s)
        &&& r.maximum == valid_max(s)
        &&& r.probability == over_count(s, near) * 100 / valid_count(s)
        &&& is_rounded_spread(r.spread as int, s)
    }
}

pub(crate) proof fn lemma_valid_values(s: Seq<u16>)
    ensures
        valid_values(s).len() == valid_count(s),
        forall|k: int| 0 <= k < valid_values(s).len() ==> #[trigger] valid_values(s)[k] != NODATA,
    decreases s.len(),
{
    if s.len() > 0 {
        lemma_valid_values(s.drop_last());
    }
}

pub(crate) proof fn lemma_take_last<T>(s: Seq<T>, i: int)
    requires
        0 <= i < s.len(),
    ensures
        s.take(i + 1).drop_last() == s.take(i),
        s.take(i + 1).last() == s[i],
{
    assert(s.take(i + 1).drop_last() =~= s.take(i));
}

proof fn lemma_over_count_le(s: Seq<u16>, near: Seq<bool>)
    ensures
        over_count(s, near) <= valid_count(s),
    decreases s.len(),
{
    if s.len() > 0 {
        lemma_over_count_le(s.drop_last(), near);
    }
}

pub(crate) proof fn lemma_first_valid(s: Seq<u16>)
    requires
        !cell_missing(s),
    ensures
        valid_count(s) >= 1,
    decreases s.len(),
{
    if s.len() > 1 {
        assert(s.drop_last()[0] == s[0]);
        lemma_first_valid(s.drop_last());
    }
}

/// Copies the member values of a cell.
fn copy_values(vals: &[u16]) -> (v: Vec<u16>)
    ensures
        v@ == vals@,
{
    let mut v: Vec<u16> = Vec::new();
    let mut i: usize = 0;
    while i < vals.len()
        invariant
            i <= vals@.len(),
            v@ == vals@.take(i as int),
        decreases vals@.len() - i,
    {
        v.push(vals[i]);
        i += 1;
        assert(v@ =~= vals@.take(i as int));
    }
    assert(vals@.take(i as int) =~= vals@);
    v
}

/// The statistics of one cell from its member values and the neighbourhood
/// rain flags of the members: the median and maximum of the valid members,
/// the share of valid members with rain in their neighbourhood (a whole
/// percentage rounded down) and the standard deviation of the valid members
/// rounded to the nearest integer. A cell whose first member is [`NODATA`]
/// (or that has no members) is missing: all four are [`NODATA`].
pub fn cell_statistics(vals: &[u16], near: &[bool]) -> (r: CellStats)
    requires
        near@.len() == vals@.len(),
    ensures
        cell_stats_of(r, vals@, near@),
{
    broadcast use group_to_multiset_ensures;

    let len = vals.len();
    if len == 0 || vals[0] == NODATA {
        return CellStats { median: NODATA, maximum: NODATA, probability: NODATA, spread: NODATA };
    }
    let ghost s = vals@;
    let mut valid: Vec<u16> = Vec::new();
    let mut over: usize = 0;
    let mut i: usize = 0;
    while i < len
        invariant
            len == s.len(),
            vals@ == s,
            near@.len() == len,
            i <= len,
            valid@ == valid_values(s.take(i as int)),
            over == over_count(s.take(i as int), near@),
            over <= i,
        decreases len - i,
    {
        proof {
            lemma_take_last(s, i as int);
        }
        let v = vals[i];
        if v != NODATA {
            valid.push(v);
            if near[i] {
                over += 1;
            }
        }
        i += 1;
    }
    assert(s.take(len as int) =~= s);
    proof {
        lemma_valid_values(s);
        lemma_first_valid(s);
        lemma_over_count_le(s, near@);
    }
    let count = valid.len();
    let ghost unsorted = valid@;
    sort_u16(valid.as_mut_slice());
    let median = valid[count / 2];
    proof {
        assert(is_sorted_u16(valid@) && valid@.to_multiset() == valid_values(s).to_multiset()
            && valid@.len() == valid_values(s).len() && median == valid@[valid@.len() as int / 2]);
    }
    let mut copy = copy_values(vals);
    let maximum = reduce_ensemble(&EnsembleStat::Maximum, copy.as_mut_slice());
    let mut copy2 = copy_values(vals);
    let spread = reduce_ensemble(&EnsembleStat::Spread, copy2.as_mut_slice());
    let pct = (over as u128) * 100 / (count as u128);
    assert(pct <= 100) by (nonlinear_arith)
        requires
            pct == (over * 100) as int / count as int,
            over <= count,
            count > 0,
    ;
    let probability = pct as u16;
    proof {
        assert(reduction_of(EnsembleStat::Maximum, s, maximum));
        assert(reduction_of(EnsembleStat::Spread, s, spread));
    }
    CellStats { median, maximum, probability, spread }
}

/// The value `reduce_ensemble` gives for a cell with members `s`: the median
/// of all members is stated through their sorted arrangement.
pub open spec fn grid_reduction_of(stat: EnsembleStat, s: Seq<u16>, r: u16) -> bool {
    if cell_missing(s) {
        r == NODATA
    } else if stat == EnsembleStat::Median {
        exists|t: Seq<u16>|
            #[trigger] is_sorted_u16(t) && t.to_multiset() == s.to_multiset() && t.len() == s.len()
                && r == t[t.len() as int / 2]
    } else {
        reduction_of(stat, s, r)
    }
}

/// The share of valid members with rain in their neighbourhood, as a whole
/// percentage rounded down ([`NODATA`] for a missing cell).
pub open spec fn nep_of(s: Seq<u16>, near: Seq<bool>) -> u16 {
    if cell_missing(s) {
        NODATA
    } else {
        (over_count(s, near) * 100 / valid_count(s)) as u16
    }
}

/// Neighbourhood probabilities are percentages: a cell's probability is
/// missing ([`NODATA`]) or at most 100, at a point as on the grid.
pub proof fn lemma_probability_is_percentage(s: Seq<u16>, near: Seq<bool>)
    ensures
        nep_of(s, near) == NODATA || nep_of(s, near) <= 100,
        point_nep_of(s, near) == NODATA || point_nep_of(s, near) <= 100,
{
    lemma_over_count_le(s, near);
    let o = over_count(s, near) as int;
    let c = valid_count(s) as int;
    if c > 0 {
        assert(o * 100 / c <= 100) by (nonlinear_arith)
            requires
                0 <= o <= c,
                c > 0,
        ;
        assert(o * 100 / c >= 0) by (nonlinear_arith)
            requires
                0 <= o,
                c > 0,
        ;
    }
    if !cell_missing(s) {
        lemma_first_valid(s);
    }
}

proof fn lemma_valid_values_all(s: Seq<u16>)
    requires
        forall|k: int| 0 <= k < s.len() ==> s[k] != NODATA,
    ensures
        valid_values(s) == s,
    decreases s.len(),
{
    if s.len() > 0 {
        assert forall|k: int| 0 <= k < s.drop_last().len() implies s.drop_last()[k] != NODATA by {
            assert(s.drop_last()[k] == s[k]);
        }
        lemma_valid_values_all(s.drop_last());
        assert(s.drop_last().push(s.last()) =~= s);
    } else {
        assert(valid_values(s) =~= s);
    }
}

/// The precalculated statistics of a cell agree with [`reduce_ensemble`]
/// (as [`reduce_grid`] states it) when no member value is missing, and all
/// of them are [`NODATA`] when the cell is missing.
pub proof fn lemma_statistics_match_reduction(r: CellStats, s: Seq<u16>, near: Seq<bool>)
    requires
        cell_stats_of(r, s, near),
    ensures
        cell_missing(s) ==> r.median == NODATA && r.maximum == NODATA && r.probability == NODATA
            && r.spread == NODATA,
        cell_missing(s) || (forall|k: int| 0 <= k < s.len() ==> s[k] != NODATA) ==> {
            &&& grid_reduction_of(EnsembleStat::Median, s, r.median)
            &&& grid_reduction_of(EnsembleStat::Maximum, s, r.maximum)
            &&& grid_reduction_of(EnsembleStat::Spread, s, r.spread)
        },
{
    if !cell_missing(s) && (forall|k: int| 0 <= k < s.len() ==> s[k] != NODATA) {
        lemma_valid_values_all(s);
        let t = choose|t: Seq<u16>|
            #[trigger] is_sorted_u16(t) && t.to_multiset() == valid_values(s).to_multiset() && t.len()
                == valid_values(s).len() && r.median == t[t.len() as int / 2];
        assert(is_sorted_u16(t));
    }
}

/// The member values of cell `i`.
pub(crate) fn gather_members(all: &[u16], num_ensembles: usize, grid_size: usize, i: usize) -> (v: Vec<u16>)
    requires
        i < grid_size,
        num_ensembles * grid_size <= all.len(),
    ensures
        v@ == members_at(all@, num_ensembles as int, grid_size as int, i as int),
{
    let mut v: Vec<u16> = Vec::new();
    let mut e: usize = 0;
    while e < num_ensembles
        invariant
            i < grid_size,
            num_ensembles * grid_size <= all.len(),
            e <= num_ensembles,
            v@.len() == e,
            forall|k: int| 0 <= k < e ==> v@[k] == all@[k * grid_size + i],
        decreases num_ensembles - e,
    {
        proof {
            lemma_cell_index(grid_size as int, num_ensembles as int, i as int, e as int);
        }
        v.push(all[e * grid_size + i]);
        e += 1;
    }
    assert(v@ =~= members_at(all@, num_ensembles as int, grid_size as int, i as int));
    v
}

/// The neighbourhood rain flags of cell `i`.
fn gather_flags(masks: &Vec<Vec<bool>>, i: usize) -> (v: Vec<bool>)
    requires
        forall|e: int| 0 <= e < masks@.len() ==> i < (#[trigger] masks@[e])@.len(),
    ensures
        v@ == flags_at(masks@, i as int),
{
    let mut v: Vec<bool> = Vec::new();
    let mut e: usize = 0;
    while e < masks.len()
        invariant
            forall|e: int| 0 <= e < masks@.len() ==> i < (#[trigger] masks@[e])@.len(),
            e <= masks@.len(),
            v@.len() == e,
            forall|k: int| 0 <= k < e ==> v@[k] == masks@[k]@[i as int],
        decreases masks@.len() - e,
    {
        v.push(masks[e][i]);
        e += 1;
    }
    assert(v@ =~= flags_at(masks@, i as int));
    v
}

/// The neighbourhood rain mask of each member of a member-major grid of
/// `width` by `height` cells.
pub fn member_masks(all_members: &[u16], num_ensembles: usize, radius: usize, width: usize, height: usize) -> (masks: Vec<Vec<bool>>)
    requires
        num_ensembles * (width * height) <= all_members.len(),
    ensures
        masks@.len() == num_ensembles,
        forall|e: int| 0 <= e < num_ensembles ==> (#[trigger] masks@[e])@.len() == width * height,
        forall|e: int, x: int, y: int|
            0 <= e < num_ensembles && 0 <= x < width && 0 <= y < height ==> #[trigger] cell(
                masks@[e]@,
                width as int,
                x,
                y,
            ) == rain_near(
                all_members@.subrange(e * (width * height), (e + 1) * (width * height)),
                width as int,
                height as int,
                radius as int,
                x,
                y,
            ),
{
    let mut masks: Vec<Vec<bool>> = Vec::new();
    if num_ensembles == 0 {
        return masks;
    }
    assert(width * height <= num_ensembles * (width * height)) by (nonlinear_arith)
        requires
            num_ensembles >= 1,
            width * height >= 0,
    ;
    let gs = width * height;
    let mut masks: Vec<Vec<bool>> = Vec::new();
    let mut e: usize = 0;
    while e < num_ensembles
        invariant
            gs == width * height,
            num_ensembles * gs <= all_members.len(),
            e <= num_ensembles,
            masks@.len() == e,
            forall|k: int| 0 <= k < e ==> (#[trigger] masks@[k])@.len() == gs,
            forall|k: int, x: int, y: int|
                0 <= k < e && 0 <= x < width && 0 <= y < height ==> #[trigger] cell(
                    masks@[k]@,
                    width as int,
                    x,
                    y,
                ) == rain_near(
                    all_members@.subrange(k * gs, (k + 1) * gs),
                    width as int,
                    height as int,
                    radius as int,
                    x,
                    y,
                ),
        decreases num_ensembles - e,
    {
        assert((e + 1) * gs <= num_ensembles * gs) by (nonlinear_arith)
            requires
                e + 1 <= num_ensembles,
        ;
        assert(e * gs + gs == (e + 1) * gs) by (nonlinear_arith);
        let start = e * gs;
        let end = start + gs;
        let m = compute_dilated_mask_with_dims(&all_members[start..end], radius, width, height);
        masks.push(m);
        e += 1;
    }
    masks
}

/// The neighbourhood ensemble probability of one cell (see [`nep_of`]).
pub fn cell_probability(vals: &[u16], near: &[bool]) -> (r: u16)
    requires
        near@.len() == vals@.len(),
    ensures
        r == nep_of(vals@, near@),
{
    let len = vals.len();
    if len == 0 || vals[0] == NODATA {
        return NODATA;
    }
    let ghost s = vals@;
    let mut over: u128 = 0;
    let mut count: u128 = 0;
    let mut i: usize = 0;
    while i < len
        invariant
            len == s.len(),
            vals@ == s,
            near@.len() == len,
            i <= len,
            over == over_count(s.take(i as int), near@),
            count == valid_count(s.take(i as int)),
            over <= count <= i,
        decreases len - i,
    {
        proof {
            lemma_take_last(s, i as int);
        }
        let v = vals[i];
        if v != NODATA {
            count += 1;
            if near[i] {
                over += 1;
            }
        }
        i += 1;
    }
    assert(s.take(len as int) =~= s);
    proof {
        lemma_first_valid(s);
    }
    let pct = over * 100 / count;
    assert(pct <= 100) by (nonlinear_arith)
        requires
            pct == (over * 100) as int / count as int,
            over <= count,
            count > 0,
    ;
    pct as u16
}

/// The four precalculated statistic layers of a time step.
pub struct StatGrids {
    pub median: Vec<u16>,
    pub maximum: Vec<u16>,
    pub probability: Vec<u16>,
    pub spread: Vec<u16>,
}

/// The statistics of every cell of a member-major grid (see
/// [`cell_statistics`]), given the neighbourhood rain mask of each member.
pub fn ensemble_statistics(all_members: &[u16], num_ensembles: usize, grid_size: usize, masks: &Vec<Vec<bool>>) -> (g: StatGrids)
    requires
        num_ensembles * grid_size <= all_members.len(),
        masks@.len() == num_ensembles,
        forall|e: int| 0 <= e < num_ensembles ==> (#[trigger] masks@[e])@.len() == grid_size,
    ensures
        g.median@.len() == grid_size,
        g.maximum@.len() == grid_size,
        g.probability@.len() == grid_size,
        g.spread@.len() == grid_size,
        forall|i: int|
            0 <= i < grid_size ==> cell_stats_of(
                CellStats {
                    median: #[trigger] g.median@[i],
                    maximum: g.maximum@[i],
                    probability: g.probability@[i],
                    spread: g.spread@[i],
                },
                members_at(all_members@, num_ensembles as int, grid_size as int, i),
                flags_at(masks@, i),
            ),
{
    let mut g = StatGrids {
        median: Vec::new(),
        maximum: Vec::new(),
        probability: Vec::new(),
        spread: Vec::new(),
    };
    let mut i: usize = 0;
    while i < grid_size
        invariant
            num_ensembles * grid_size <= all_members.len(),
            masks@.len() == num_ensembles,
            forall|e: int| 0 <= e < num_ensembles ==> (#[trigger] masks@[e])@.len() == grid_size,
            i <= grid_size,
            g.median@.len() == i,
            g.maximum@.len() == i,
            g.probability@.len() == i,
            g.spread@.len() == i,
            forall|k: int|
                0 <= k < i ==> cell_stats_of(
                    CellStats {
                        median: #[trigger] g.median@[k],
                        maximum: g.maximum@[k],
                        probability: g.probability@[k],
                        spread: g.spread@[k],
                    },
                    members_at(all_members@, num_ensembles as int, grid_size as int, k),
                    flags_at(masks@, k),
                ),
        decreases grid_size - i,
    {
        let vals = gather_members(all_members, num_ensembles, grid_size, i);
        let near = gather_flags(masks, i);
        let c = cell_statistics(vals.as_slice(), near.as_slice());
        g.median.push(c.median);
        g.maximum.push(c.maximum);
        g.probability.push(c.probability);
        g.spread.push(c.spread);
        proof {
            assert(c == CellStats {
                median: g.median@[i as int],
                maximum: g.maximum@[i as int],
                probability: g.probability@[i as int],
                spread: g.spread@[i as int],
            });
        }
        i += 1;
    }
    g
}

/// The neighbourhood ensemble probability of every cell of a member-major
/// grid (see [`nep_of`]), given the neighbourhood rain mask of each member.
pub fn nep_probability_grid(all_members: &[u16], num_ensembles: usize, grid_size: usize, masks: &Vec<Vec<bool>>) -> (out: Vec<u16>)
    requires
        num_ensembles * grid_size <= all_members.len(),
        masks@.len() == num_ensembles,
        forall|e: int| 0 <= e < num_ensembles ==> (#[trigger] masks@[e])@.len() == grid_size,
    ensures
        out@.len() == grid_size,
        forall|i: int|
            0 <= i < grid_size ==> #[trigger] out@[i] == nep_of(
                members_at(all_members@, num_ensembles as int, grid_size as int, i),
                flags_at(masks@, i),
            ),
{
    let mut out: Vec<u16> = Vec::new();
    let mut i: usize = 0;
    while i < grid_size
        invariant
            num_ensembles * grid_size <= all_members.len(),
            masks@.len() == num_ensembles,
            forall|e: int| 0 <= e < num_ensembles ==> (#[trigger] masks@[e])@.len() == grid_size,
            i <= grid_size,
            out@.len() == i,
            forall|k: int|
                0 <= k < i ==> #[trigger] out@[k] == nep_of(
                    members_at(all_members@, num_ensembles as int, grid_size as int, k),
                    flags_at(masks@, k),
                ),
        decreases grid_size - i,
    {
        let vals = gather_members(all_members, num_ensembles, grid_size, i);
        let near = gather_flags(masks, i);
        out.push(cell_probability(vals.as_slice(), near.as_slice()));
        i += 1;
    }
    out
}

/// `reduce_ensemble` applied to every cell of a member-major grid.
pub fn reduce_grid(stat: &EnsembleStat, all_members: &[u16], num_ensembles: usize, grid_size: usize) -> (out: Vec<u16>)
    requires
        num_ensembles * grid_size <= all_members.len(),
    ensures
        out@.len() == grid_size,
        forall|i: int|
            0 <= i < grid_size ==> grid_reduction_of(
                *stat,
                members_at(all_members@, num_ensembles as int, grid_size as int, i),
                #[trigger] out@[i],
            ),
{
    let mut out: Vec<u16> = Vec::new();
    let mut i: usize = 0;
    while i < grid_size
        invariant
            num_ensembles * grid_size <= all_members.len(),
            i <= grid_size,
            out@.len() == i,
            forall|k: int|
                0 <= k < i ==> grid_reduction_of(
                    *stat,
                    members_at(all_members@, num_ensembles as int, grid_size as int, k),
                    #[trigger] out@[k],
                ),
        decreases grid_size - i,
    {
        let mut vals = gather_members(all_members, num_ensembles, grid_size, i);
        let ghost before = vals@;
        let r = reduce_ensemble(stat, vals.as_mut_slice());
        proof {
            if !cell_missing(before) && *stat == EnsembleStat::Median {
                assert(is_sorted_u16(vals@));
            }
        }
        out.push(r);
        i += 1;
    }
    out
}

/// The cells of time step `t` of a block laid out member, time, cell (each
/// member holds `num_times` runs of `box_size` cells), member after member.
pub open spec fn time_window(block: Seq<u16>, num_ensembles: int, num_times: int, box_size: int, t: int) -> Seq<u16>
    decreases num_ensembles,
{
    if num_ensembles <= 0 {
        Seq::empty()
    } else {
        let start = (num_ensembles - 1) * (num_times * box_size) + t * box_size;
        time_window(block, num_ensembles - 1, num_times, box_size, t) + block.subrange(
            start,
            start + box_size,
        )
    }
}

proof fn lemma_window_bounds(e: int, ne: int, nt: int, bs: int, t: int)
    requires
        0 <= e < ne,
        0 <= t < nt,
        bs >= 0,
    ensures
        e * (nt * bs) + t * bs + bs <= ne * (nt * bs),
        e * bs + bs <= ne * bs,
        (e + 1) * bs == e * bs + bs,
        (e + 1) * (nt * bs) == e * (nt * bs) + nt * bs,
        e * (nt * bs) + t * bs + bs <= e * (nt * bs) + nt * bs,
        0 <= e * (nt * bs),
        0 <= t * bs,
        0 <= e * bs,
        nt * bs <= ne * (nt * bs),
{
    assert(nt * bs <= ne * (nt * bs)) by (nonlinear_arith)
        requires
            1 <= ne,
            0 <= nt,
            bs >= 0,
    ;
    assert(e * (nt * bs) + t * bs + bs <= ne * (nt * bs)) by (nonlinear_arith)
        requires
            0 <= e < ne,
            0 <= t < nt,
            bs >= 0,
    ;
    assert(e * bs + bs <= ne * bs) by (nonlinear_arith)
        requires
            0 <= e < ne,
            bs >= 0,
    ;
    assert((e + 1) * bs == e * bs + bs) by (nonlinear_arith);
    assert((e + 1) * (nt * bs) == e * (nt * bs) + nt * bs) by (nonlinear_arith);
    assert(t * bs + bs <= nt * bs) by (nonlinear_arith)
        requires
            0 <= t < nt,
            bs >= 0,
    ;
    assert(0 <= e * (nt * bs)) by (nonlinear_arith)
        requires
            0 <= e,
            0 <= t < nt,
            bs >= 0,
    ;
    assert(0 <= t * bs) by (nonlinear_arith)
        requires
            0 <= t,
            bs >= 0,
    ;
    assert(0 <= e * bs) by (nonlinear_arith)
        requires
            0 <= e,
            bs >= 0,
    ;
}

/// The member-major window of time step `t` (see [`time_window`]): the
/// layout that [`window_probability`] reads.
pub fn window_at_time(block: &[u16], num_ensembles: usize, num_times: usize, box_size: usize, t: usize) -> (w: Vec<u16>)
    requires
        t < num_times,
        num_ensembles * (num_times * box_size) <= block@.len(),
    ensures
        w@ == time_window(block@, num_ensembles as int, num_times as int, box_size as int, t as int),
        w@.len() == num_ensembles * box_size,
{
    let n = block.len();
    let mut w: Vec<u16> = Vec::new();
    let mut e: usize = 0;
    while e < num_ensembles
        invariant
            n == block@.len(),
            t < num_times,
            num_ensembles * (num_times * box_size) <= block@.len(),
            e <= num_ensembles,
            w@ == time_window(block@, e as int, num_times as int, box_size as int, t as int),
            w@.len() == e * box_size,
        decreases num_ensembles - e,
    {
        proof {
            lemma_window_bounds(e as int, num_ensembles as int, num_times as int, box_size as int, t as int);
        }
        let start = e * (num_times * box_size) + t * box_size;
        let ghost prefix = w@;
        let mut c: usize = 0;
        while c < box_size
            invariant
                n == block@.len(),
                start + box_size <= block@.len(),
                c <= box_size,
                w@ == prefix + block@.subrange(start as int, start + c),
            decreases box_size - c,
        {
            w.push(block[start + c]);
            c += 1;
            assert(w@ =~= prefix + block@.subrange(start as int, start + c));
        }
        proof {
            assert(time_window(block@, e + 1, num_times as int, box_size as int, t as int) == prefix + block@.subrange(
                start as int,
                start + box_size,
            ));
        }
        e += 1;
    }
    w
}

/// The neighbourhood rain flags of cell `(x, y)`, one per member of a
/// member-major grid of `width` by `height` cells.
pub open spec fn near_flags(all: Seq<u16>, num_ensembles: int, width: int, height: int, radius: int, x: int, y: int) -> Seq<bool> {
    Seq::new(
        num_ensembles as nat,
        |e: int| rain_near(all.subrange(e * (width * height), (e + 1) * (width * height)), width, height, radius, x, y),
    )
}

/// The grid of a statistic over a member-major block of `width` by `height`
/// cells: the probability-matched mean for `Pmm`, the neighbourhood
/// probability (radius [`NEP_RADIUS`]) for `Probability`, and the per-cell
/// reduction of [`reduce_ensemble`] for the others.
pub fn statistic_grid(stat: &EnsembleStat, all_members: &[u16], num_ensembles: usize, width: usize, height: usize) -> (out: Vec<u16>)
    requires
        width * height <= usize::MAX,
        num_ensembles * (width * height) <= all_members.len(),
    ensures
        *stat == EnsembleStat::Pmm ==> ({
            let gs = width * height;
            exists|rank: Seq<usize>, pool: Seq<u16>|
                is_pmm_grid(out@, all_members@, num_ensembles as int, gs, rank, pool)
        }),
        *stat == EnsembleStat::Probability ==> {
            &&& out@.len() == width * height
            &&& forall|x: int, y: int|
                0 <= x < width && 0 <= y < height ==> #[trigger] cell(out@, width as int, x, y) == nep_of(
                    members_at(all_members@, num_ensembles as int, width * height, y * width + x),
                    near_flags(all_members@, num_ensembles as int, width as int, height as int, NEP_RADIUS as int, x, y),
                )
        },
        *stat != EnsembleStat::Pmm && *stat != EnsembleStat::Probability ==> {
            &&& out@.len() == width * height
            &&& forall|i: int|
                0 <= i < width * height ==> grid_reduction_of(
                    *stat,
                    members_at(all_members@, num_ensembles as int, width * height, i),
                    #[trigger] out@[i],
                )
        },
{
    let gs = width * height;
    match stat {
        EnsembleStat::Pmm => pmm_grid(all_members, num_ensembles, gs),
        EnsembleStat::Probability => {
            let masks = member_masks(all_members, num_ensembles, NEP_RADIUS, width, height);
            let out = nep_probability_grid(all_members, num_ensembles, gs, &masks);
            proof {
                assert forall|x: int, y: int| 0 <= x < width && 0 <= y < height implies #[trigger] cell(out@, width as int, x, y)
                    == nep_of(
                    members_at(all_members@, num_ensembles as int, gs as int, y * width + x),
                    near_flags(all_members@, num_ensembles as int, width as int, height as int, NEP_RADIUS as int, x, y),
                ) by {
                    lemma_cell_index(width as int, height as int, x, y);
                    let i = y * width + x;
                    let near = near_flags(all_members@, num_ensembles as int, width as int, height as int, NEP_RADIUS as int, x, y);
                    assert forall|e: int| 0 <= e < num_ensembles implies #[trigger] flags_at(masks@, i)[e] == near[e] by {
                        assert(cell(masks@[e]@, width as int, x, y) == masks@[e]@[i]);
                    }
                    assert(flags_at(masks@, i) =~= near);
                }
            }
            out
        },
        _ => reduce_grid(stat, all_members, num_ensembles, gs),
    }
}

/// The neighbourhood probability at a point: the share of valid members
/// (whatever the first member is) with rain in their neighbourhood, as a
/// whole percentage rounded down; [`NODATA`] when no member is valid.
pub open spec fn point_nep_of(s: Seq<u16>, near: Seq<bool>) -> u16 {
    if valid_count(s) == 0 {
        NODATA
    } else {
        (over_count(s, near) * 100 / valid_count(s)) as u16
    }
}

/// The neighbourhood probability at a point (see [`point_nep_of`]).
pub fn point_probability(vals: &[u16], near: &[bool]) -> (r: u16)
    requires
        near@.len() == vals@.len(),
    ensures
        r == point_nep_of(vals@, near@),
{
    let len = vals.len();
    let ghost s = vals@;
    let mut over: u128 = 0;
    let mut count: u128 = 0;
    let mut i: usize = 0;
    while i < len
        invariant
            len == s.len(),
            vals@ == s,
            near@.len() == len,
            i <= len,
            over == over_count(s.take(i as int), near@),
            count == valid_count(s.take(i as int)),
            over <= count <= i,
        decreases len - i,
    {
        proof {
            lemma_take_last(s, i as int);
        }
        let v = vals[i];
        if v != NODATA {
            count += 1;
            if near[i] {
                over += 1;
            }
        }
        i += 1;
    }
    assert(s.take(len as int) =~= s);
    if count == 0 {
        return NODATA;
    }
    let pct = over * 100 / count;
    assert(pct <= 100) by (nonlinear_arith)
        requires
            pct == (over * 100) as int / count as int,
            over <= count,
            count > 0,
    ;
    pct as u16
}

/// The neighbourhood probability at cell `(cx, cy)` of a member-major window
/// of `width` by `height` cells around it (see [`point_nep_of`]; a member's
/// neighbourhood is the disk of `radius` cells within the window).
pub fn window_probability(
    window: &[u16],
    num_ensembles: usize,
    width: usize,
    height: usize,
    cx: usize,
    cy: usize,
    radius: usize,
) -> (r: u16)
    requires
        cx < width,
        cy < height,
        num_ensembles * (width * height) <= window.len(),
    ensures
        ({
            let gs = width * height;
            let centers = members_at(window@, num_ensembles as int, gs as int, cy * width + cx);
            let near = Seq::new(
                num_ensembles as nat,
                |e: int|
                    rain_near(
                        window@.subrange(e * gs, (e + 1) * gs),
                        width as int,
                        height as int,
                        radius as int,
                        cx as int,
                        cy as int,
                    ),
            );
            r == point_nep_of(centers, near)
        }),
{
    let masks = member_masks(window, num_ensembles, radius, width, height);
    assert(width * height <= num_ensembles * (width * height) || num_ensembles == 0) by (nonlinear_arith);
    proof {
        lemma_cell_index(width as int, height as int, cx as int, cy as int);
    }
    if num_ensembles == 0 {
        let empty_v: Vec<u16> = Vec::new();
        let empty_f: Vec<bool> = Vec::new();
        let r = point_probability(empty_v.as_slice(), empty_f.as_slice());
        proof {
            let gs = width * height;
            assert(members_at(window@, 0, gs as int, cy * width + cx) =~= empty_v@);
        }
        return r;
    }
    let gs = width * height;
    let idx = cy * width + cx;
    let centers = gather_members(window, num_ensembles, gs, idx);
    let flags = gather_flags(&masks, idx);
    let r = point_probability(centers.as_slice(), flags.as_slice());
    proof {
        let near = Seq::new(
            num_ensembles as nat,
            |e: int|
                rain_near(
                    window@.subrange(e * gs, (e + 1) * gs),
                    width as int,
                    height as int,
                    radius as int,
                    cx as int,
                    cy as int,
                ),
        );
        assert forall|e: int| 0 <= e < num_ensembles implies #[trigger] flags@[e] == near[e] by {
            assert(flags@[e] == masks@[e]@[idx as int]);
            assert(cell(masks@[e]@, width as int, cx as int, cy as int) == masks@[e]@[cy * width + cx]);
        }
        assert(flags@ =~= near);
    }
    r
}

} // verus!
