//! Ensemble statistics: the reduction of the member values of one grid cell
//! into a single statistic.

use vstd::prelude::*;
use vstd::multiset::*;
use vstd::seq_lib::*;
use crate::constants::{NODATA, RAIN_THRESHOLD};
use crate::text::str_eq;

verus! {

/// The statistical reduction to apply across ensemble members.
#[derive(Debug, Clone, Copy, PartialEq, Eq, Structural)]
pub enum EnsembleStat {
    /// Take the median member value.
    Median,
    /// Take the maximum member value.
    Maximum,
    /// Compute the percentage of members reaching [`RAIN_THRESHOLD`].
    Probability,
    /// Standard deviation of the valid member values.
    Spread,
    /// Mean of the valid member values (the single-cell probability matched mean).
    Pmm,
}

/// The statistic named by a selector string, if any.
pub open spec fn stat_from_name(s: Seq<char>) -> Option<EnsembleStat> {
    if s == "med"@ {
        Some(EnsembleStat::Median)
    } else if s == "max"@ {
        Some(EnsembleStat::Maximum)
    } else if s == "prob"@ {
        Some(EnsembleStat::Probability)
    } else if s == "spread"@ {
        Some(EnsembleStat::Spread)
    } else if s == "pmm"@ {
        Some(EnsembleStat::Pmm)
    } else {
        None
    }
}

/// Each of the five selector names stands for its own statistic, and no
/// other text names one.
pub proof fn lemma_stat_names(s: Seq<char>)
    ensures
        stat_from_name("med"@) == Some(EnsembleStat::Median),
        stat_from_name("max"@) == Some(EnsembleStat::Maximum),
        stat_from_name("prob"@) == Some(EnsembleStat::Probability),
        stat_from_name("spread"@) == Some(EnsembleStat::Spread),
        stat_from_name("pmm"@) == Some(EnsembleStat::Pmm),
        stat_from_name(s) is Some ==> s == "med"@ || s == "max"@ || s == "prob"@ || s
            == "spread"@ || s == "pmm"@,
{
    reveal_strlit("med");
    reveal_strlit("max");
    reveal_strlit("prob");
    reveal_strlit("spread");
    reveal_strlit("pmm");
    assert("max"@[1] != "med"@[1]);
    assert("prob"@.len() != "med"@.len() && "prob"@.len() != "max"@.len());
    assert("spread"@.len() != "med"@.len() && "spread"@.len() != "prob"@.len());
    assert("pmm"@[0] != "med"@[0] && "pmm"@[0] != "max"@[0]);
}

impl EnsembleStat {
    /// Parse a short string identifier into an [`EnsembleStat`].
    pub fn from_str(s: &str) -> (r: Option<Self>)
        ensures
            r == stat_from_name(s@),
    {
        if str_eq(s, "med") {
            Some(EnsembleStat::Median)
        } else if str_eq(s, "max") {
            Some(EnsembleStat::Maximum)
        } else if str_eq(s, "prob") {
            Some(EnsembleStat::Probability)
        } else if str_eq(s, "spread") {
            Some(EnsembleStat::Spread)
        } else if str_eq(s, "pmm") {
            Some(EnsembleStat::Pmm)
        } else {
            None
        }
    }
}

/// Number of member values that are not [`NODATA`].
pub open spec fn valid_count(s: Seq<u16>) -> nat
    decreases s.len(),
{
    if s.len() == 0 {
        0
    } else {
        valid_count(s.drop_last()) + if s.last() != NODATA { 1nat } else { 0nat }
    }
}

/// Sum of the member values that are not [`NODATA`].
pub open spec fn valid_sum(s: Seq<u16>) -> nat
    decreases s.len(),
{
    if s.len() == 0 {
        0
    } else {
        valid_sum(s.drop_last()) + if s.last() != NODATA { s.last() as nat } else { 0nat }
    }
}

/// Sum of the squares of the member values that are not [`NODATA`].
pub open spec fn valid_sum_sq(s: Seq<u16>) -> nat
    decreases s.len(),
{
    if s.len() == 0 {
        0
    } else {
        valid_sum_sq(s.drop_last()) + if s.last() != NODATA {
            (s.last() as nat) * (s.last() as nat)
        } else {
            0nat
        }
    }
}

/// Largest member value that is not [`NODATA`] (0 when there is none).
pub open spec fn valid_max(s: Seq<u16>) -> nat
    decreases s.len(),
{
    if s.len() == 0 {
        0
    } else {
        let m = valid_max(s.drop_last());
        if s.last() != NODATA && s.last() as nat > m {
            s.last() as nat
        } else {
            m
        }
    }
}

/// Number of members that are valid and reach [`RAIN_THRESHOLD`].
pub open spec fn rain_count(s: Seq<u16>) -> nat
    decreases s.len(),
{
    if s.len() == 0 {
        0
    } else {
        rain_count(s.drop_last()) + if s.last() != NODATA && s.last() >= RAIN_THRESHOLD {
            1nat
        } else {
            0nat
        }
    }
}

/// A cell is missing when it has no members or its first member is [`NODATA`].
pub open spec fn cell_missing(s: Seq<u16>) -> bool {
    s.len() == 0 || s[0] == NODATA
}

/// `n * n * variance` of the valid member values, as an exact integer.
pub open spec fn spread_numerator(s: Seq<u16>) -> int {
    valid_count(s) * valid_sum_sq(s) - valid_sum(s) * valid_sum(s)
}

/// `r` is the standard deviation of the valid members rounded to the nearest
/// integer (halves rounded up): `r - 1/2 <= sqrt(variance) < r + 1/2`.
pub open spec fn is_rounded_spread(r: int, s: Seq<u16>) -> bool {
    let n = valid_count(s) as int;
    let d = spread_numerator(s);
    &&& r >= 0
    &&& (r == 0 || (2 * r - 1) * (2 * r - 1) * (n * n) <= 4 * d)
    &&& 4 * d < (2 * r + 1) * (2 * r + 1) * (n * n)
}

/// Mean of the valid member values rounded to the nearest integer (halves up).
pub open spec fn pmm_mean(s: Seq<u16>) -> int {
    (valid_sum(s) + valid_count(s) / 2) as int / valid_count(s) as int
}

/// Non-decreasing order.
pub open spec fn is_sorted_u16(s: Seq<u16>) -> bool {
    forall|a: int, b: int| 0 <= a < b < s.len() ==> s[a] <= s[b]
}

/// The value a reduction gives on a non-missing cell, for all statistics but
/// the median (which is stated through the sorted members).
pub open spec fn reduction_of(stat: EnsembleStat, s: Seq<u16>, r: u16) -> bool {
    match stat {
        EnsembleStat::Maximum => r == valid_max(s),
        EnsembleStat::Probability => r == rain_count(s) * 100 / s.len(),
        EnsembleStat::Spread => is_rounded_spread(r as int, s),
        EnsembleStat::Pmm => r == pmm_mean(s),
        EnsembleStat::Median => true,
    }
}

proof fn lemma_take_step<T>(s: Seq<T>, i: int)
    requires
        0 <= i < s.len(),
    ensures
        s.take(i + 1).drop_last() == s.take(i),
        s.take(i + 1).last() == s[i],
{
    assert(s.take(i + 1).drop_last() =~= s.take(i));
}

pub(crate) proof fn lemma_valid_count_le_len(s: Seq<u16>)
    ensures
        valid_count(s) <= s.len(),
        rain_count(s) <= valid_count(s),
        valid_sum(s) <= 65534 * valid_count(s),
        valid_sum_sq(s) <= 4294705156 * valid_count(s),
        valid_max(s) <= 65534,
        valid_count(s) > 0 ==> valid_max(s) * valid_count(s) >= valid_sum(s),
    decreases s.len(),
{
    if s.len() > 0 {
        let p = s.drop_last();
        lemma_valid_count_le_len(p);
        lemma_valid_count_zero_sum(p);
        let l = s.last() as nat;
        if s.last() != NODATA {
            assert(l <= 65534);
            assert(l * l <= 4294705156) by (nonlinear_arith)
                requires
                    l <= 65534,
            ;
            assert(valid_sum_sq(s) == valid_sum_sq(p) + l * l);
            assert(valid_count(s) == valid_count(p) + 1);
            assert(valid_sum(s) == valid_sum(p) + l);
            let m = valid_max(s);
            assert(m >= valid_max(p) && m >= l);
            assert(m * valid_count(s) >= valid_sum(s)) by (nonlinear_arith)
                requires
                    valid_count(p) > 0 ==> valid_max(p) * valid_count(p) >= valid_sum(p),
                    valid_count(p) == 0 ==> valid_sum(p) == 0,
                    valid_count(s) == valid_count(p) + 1,
                    valid_sum(s) == valid_sum(p) + l,
                    m >= valid_max(p),
                    m >= l,
            ;
        }
    }
}

proof fn lemma_valid_count_zero_sum(s: Seq<u16>)
    ensures
        valid_count(s) == 0 ==> valid_sum(s) == 0 && valid_sum_sq(s) == 0,
    decreases s.len(),
{
    if s.len() > 0 {
        lemma_valid_count_zero_sum(s.drop_last());
    }
}

/// Sum of `(v - m)^2` over the valid member values.
spec fn dev_sum(s: Seq<u16>, m: int) -> int
    decreases s.len(),
{
    if s.len() == 0 {
        0
    } else {
        dev_sum(s.drop_last(), m) + if s.last() != NODATA {
            (s.last() as int - m) * (s.last() as int - m)
        } else {
            0
        }
    }
}

proof fn lemma_dev_sum(s: Seq<u16>, m: int)
    ensures
        dev_sum(s, m) == valid_sum_sq(s) - 2 * m * valid_sum(s) + m * m * valid_count(s),
    decreases s.len(),
{
    if s.len() > 0 {
        let p = s.drop_last();
        lemma_dev_sum(p, m);
        if s.last() != NODATA {
            let v = s.last() as int;
            let q0 = valid_sum_sq(p) as int;
            let s0 = valid_sum(p) as int;
            let n0 = valid_count(p) as int;
            let d0 = dev_sum(p, m);
            let q1 = valid_sum_sq(s) as int;
            let s1 = valid_sum(s) as int;
            let n1 = valid_count(s) as int;
            let d1 = dev_sum(s, m);
            assert(d1 == d0 + (v - m) * (v - m));
            assert(q1 == q0 + v * v);
            assert(s1 == s0 + v);
            assert(n1 == n0 + 1);
            assert(d1 == q1 - 2 * m * s1 + m * m * n1) by (nonlinear_arith)
                requires
                    d0 == q0 - 2 * m * s0 + m * m * n0,
                    d1 == d0 + (v - m) * (v - m),
                    q1 == q0 + v * v,
                    s1 == s0 + v,
                    n1 == n0 + 1,
            ;
        } else {
            assert(dev_sum(s, m) == dev_sum(p, m));
            assert(valid_sum_sq(s) == valid_sum_sq(p));
            assert(valid_sum(s) == valid_sum(p));
            assert(valid_count(s) == valid_count(p));
        }
    } else {
        assert(m * m * 0 == 0) by (nonlinear_arith);
        assert(2 * m * 0 == 0) by (nonlinear_arith);
    }
}

/// The spread numerator written through the integer part `m` and remainder
/// `rem` of the member sum divided by the member count.
proof fn lemma_spread_decomposition(n: int, q: int, s: int, m: int, rem: int, t: int)
    requires
        n > 0,
        s == m * n + rem,
        t == q - 2 * m * s + m * m * n,
    ensures
        n * q - s * s == n * t - rem * rem,
{
    assert(n * q - s * s == n * t - rem * rem) by (nonlinear_arith)
        requires
            s == m * n + rem,
            t == q - 2 * m * s + m * m * n,
    ;
}

/// The test that decides one step of the search for the rounded spread,
/// rephrased without `n * n`.
proof fn lemma_spread_test(a: int, n: int, t: int, rem: int, c: int)
    requires
        n > 0,
        a >= 0,
        c * n >= 4 * (rem * rem),
        (c - 1) * n < 4 * (rem * rem),
    ensures
        (a * (n * n) <= 4 * (n * t - rem * rem)) <==> (a * n + c <= 4 * t),
{
    if a * n + c <= 4 * t {
        assert(a * (n * n) + c * n <= 4 * (n * t)) by (nonlinear_arith)
            requires
                a * n + c <= 4 * t,
                n > 0,
        ;
    }
    if a * (n * n) <= 4 * (n * t - rem * rem) {
        if a * n + c > 4 * t {
            assert((c - 1) * n >= 4 * (n * t) - a * (n * n)) by (nonlinear_arith)
                requires
                    a * n + c >= 4 * t + 1,
                    n > 0,
            ;
            assert(false);
        }
    }
}

/// `ceil(4 * rem^2 / n)` computed without overflow, given `rem < n`.
fn ceil_four_sq_div(rem: u128, n: u128) -> (c: u128)
    requires
        n > 0,
        rem < n,
        n <= u64::MAX,
    ensures
        c * n >= 4 * (rem * rem),
        (c - 1) * n < 4 * (rem * rem),
        c <= 4 * rem + 4,
{
    assert(rem * rem < n * n) by (nonlinear_arith)
        requires
            rem < n,
    ;
    assert(n * n <= u64::MAX * u64::MAX) by (nonlinear_arith)
        requires
            n <= u64::MAX,
    ;
    let sq = rem * rem;
    let q = sq / n;
    let t = sq % n;
    let c2 = (4 * t + n - 1) / n;
    assert(sq == q * n + t) by (nonlinear_arith)
        requires
            q == sq / n,
            t == sq % n,
            n > 0,
    ;
    assert(c2 * n >= 4 * t && (c2 - 1) * n < 4 * t) by (nonlinear_arith)
        requires
            c2 == (4 * t + n - 1) as int / n as int,
            n > 0,
            0 <= t < n,
    ;
    assert(q <= rem) by (nonlinear_arith)
        requires
            q == sq / n,
            sq == rem * rem,
            rem < n,
            n > 0,
    ;
    assert(c2 <= 4) by (nonlinear_arith)
        requires
            c2 == (4 * t + n - 1) as int / n as int,
            n > 0,
            0 <= t < n,
    ;
    let c = 4 * q + c2;
    assert(c * n >= 4 * (rem * rem) && (c - 1) * n < 4 * (rem * rem)) by (nonlinear_arith)
        requires
            c == 4 * q + c2,
            sq == q * n + t,
            sq == rem * rem,
            c2 * n >= 4 * t,
            (c2 - 1) * n < 4 * t,
    ;
    c
}

/// Sorts a slice of raw values in place (insertion sort).
pub fn sort_u16(v: &mut [u16])
    ensures
        final(v)@.len() == old(v)@.len(),
        final(v)@.to_multiset() == old(v)@.to_multiset(),
        is_sorted_u16(final(v)@),
{
    broadcast use group_to_multiset_ensures, to_multiset_update, group_multiset_axioms, group_multiset_properties;

    let n = v.len();
    if n < 2 {
        return;
    }
    let mut i: usize = 1;
    while i < n
        invariant
            n == v@.len(),
            1 <= i <= n,
            forall|a: int, b: int| 0 <= a < b < i ==> v@[a] <= v@[b],
            v@.to_multiset() == old(v)@.to_multiset(),
        decreases n - i,
    {
        let mut j: usize = i;
        while j > 0 && v[j - 1] > v[j]
            invariant
                n == v@.len(),
                1 <= i < n,
                j <= i,
                forall|a: int, b: int| 0 <= a < b <= i && a != j && b != j ==> v@[a] <= v@[b],
                forall|b: int| j < b <= i ==> v@[j as int] <= v@[b],
                v@.to_multiset() == old(v)@.to_multiset(),
            decreases j,
        {
            let x = v[j];
            let y = v[j - 1];
            let ghost s0 = v@;
            v[j - 1] = x;
            let ghost s1 = v@;
            v[j] = y;
            proof {
                assert(s1 == s0.update(j - 1, x));
                assert(v@ == s1.update(j as int, y));
                to_multiset_update(s0, j - 1, x);
                to_multiset_update(s1, j as int, y);
                assert(s1.to_multiset() == s0.to_multiset().insert(x).remove(y));
                assert(v@.to_multiset() == s1.to_multiset().insert(y).remove(s1[j as int]));
                assert(s1[j as int] == x);
                assert(s0[j - 1] == y);
                assert(s0.contains(y));
                to_multiset_contains(s0, y);
                assert(s0.to_multiset().count(y) > 0);
                assert(v@.to_multiset() =~= s0.to_multiset());
            }
            j -= 1;
        }
        proof {
            assert forall|a: int, b: int| 0 <= a < b <= i implies v@[a] <= v@[b] by {
                if a == j as int && j > 0 {
                    assert(v@[a] <= v@[b]);
                } else if b == j as int && j > 0 {
                    assert(v@[a] <= v@[j - 1]);
                }
            }
        }
        i += 1;
    }
}

/// Reduces a set of ensemble member values into a single statistic.
///
/// If the first member is [`NODATA`] (or there are no members) the cell is
/// missing and [`NODATA`] is returned. The median sorts the members in place
/// (all of them, [`NODATA`] included) and takes the element at `len / 2`; the
/// other statistics leave the members untouched. Probability is the share of
/// all members that are valid and reach [`RAIN_THRESHOLD`], as a whole
/// percentage rounded down; spread and pmm use only the valid members.
pub fn reduce_ensemble(stat: &EnsembleStat, member_vals: &mut [u16]) -> (r: u16)
    ensures
        cell_missing(old(member_vals)@) ==> r == NODATA && final(member_vals)@ == old(
            member_vals,
        )@,
        !cell_missing(old(member_vals)@) && *stat == EnsembleStat::Median ==> {
            &&& final(member_vals)@.to_multiset() == old(member_vals)@.to_multiset()
            &&& final(member_vals)@.len() == old(member_vals)@.len()
            &&& is_sorted_u16(final(member_vals)@)
            &&& r == final(member_vals)@[final(member_vals)@.len() as int / 2]
        },
        !cell_missing(old(member_vals)@) && *stat != EnsembleStat::Median ==> {
            &&& final(member_vals)@ == old(member_vals)@
            &&& reduction_of(*stat, old(member_vals)@, r)
        },
{
    let len = member_vals.len();
    if len == 0 || member_vals[0] == NODATA {
        return NODATA;
    }
    let ghost s = member_vals@;
    match stat {
        EnsembleStat::Median => {
            sort_u16(member_vals);
            member_vals[len / 2]
        },
        EnsembleStat::Maximum => {
            let mut m: u16 = 0;
            let mut i: usize = 0;
            while i < len
                invariant
                    len == s.len(),
                    member_vals@ == s,
                    i <= len,
                    m == valid_max(s.take(i as int)),
                decreases len - i,
            {
                proof {
                    lemma_take_step(s, i as int);
                }
                let v = member_vals[i];
                if v != NODATA && v > m {
                    m = v;
                }
                i += 1;
            }
            assert(s.take(len as int) =~= s);
            m
        },
        EnsembleStat::Probability => {
            let mut count: u128 = 0;
            let mut i: usize = 0;
            while i < len
                invariant
                    len == s.len(),
                    member_vals@ == s,
                    i <= len,
                    count == rain_count(s.take(i as int)),
                    count <= i,
                decreases len - i,
            {
                proof {
                    lemma_take_step(s, i as int);
                }
                let v = member_vals[i];
                if v != NODATA && v >= RAIN_THRESHOLD {
                    count += 1;
                }
                i += 1;
            }
            assert(s.take(len as int) =~= s);
            let pct = count * 100 / (len as u128);
            assert(pct <= 100) by (nonlinear_arith)
                requires
                    pct == (count * 100) as int / len as int,
                    count <= len,
                    len > 0,
            ;
            pct as u16
        },
        EnsembleStat::Spread | EnsembleStat::Pmm => {
            let mut n: u128 = 0;
            let mut sum: u128 = 0;
            let mut i: usize = 0;
            while i < len
                invariant
                    len == s.len(),
                    member_vals@ == s,
                    i <= len,
                    n == valid_count(s.take(i as int)),
                    sum == valid_sum(s.take(i as int)),
                    n <= i,
                    sum <= 65534 * n,
                decreases len - i,
            {
                proof {
                    lemma_take_step(s, i as int);
                }
                let v = member_vals[i];
                if v != NODATA {
                    n += 1;
                    sum += v as u128;
                }
                i += 1;
            }
            assert(s.take(len as int) =~= s);
            proof {
                assert(s[0] != NODATA);
                assert(valid_count(s.take(1)) == 1) by {
                    lemma_take_step(s, 0);
                    assert(s.take(0) =~= Seq::<u16>::empty());
                    assert(valid_count(s.take(0)) == 0);
                }
                lemma_count_monotone(s, 1, len as int);
            }
            if *stat == EnsembleStat::Pmm {
                let mean = (sum + n / 2) / n;
                assert(mean <= 65534) by (nonlinear_arith)
                    requires
                        mean == (sum + n / 2) as int / n as int,
                        sum <= 65534 * n,
                        n > 0,
                ;
                return mean as u16;
            }
            let m = sum / n;
            let rem = sum % n;
            assert(sum == m * n + rem && m <= 65534) by (nonlinear_arith)
                requires
                    m == sum / n,
                    rem == sum % n,
                    sum <= 65534 * n,
                    n > 0,
            ;
            let mut t: u128 = 0;
            let mut k: u128 = 0;
            let mut i: usize = 0;
            while i < len
                invariant
                    len == s.len(),
                    member_vals@ == s,
                    i <= len,
                    m <= 65534,
                    k == valid_count(s.take(i as int)),
                    k <= i,
                    t == dev_sum(s.take(i as int), m as int),
                    t <= 4294705156 * k,
                decreases len - i,
            {
                proof {
                    lemma_take_step(s, i as int);
                }
                let v = member_vals[i];
                if v != NODATA {
                    let d: u128 = if (v as u128) >= m {
                        v as u128 - m
                    } else {
                        m - v as u128
                    };
                    assert(v <= 65534);
                    assert(d <= 65534);
                    assert(d * d <= 4294705156) by (nonlinear_arith)
                        requires
                            d <= 65534,
                    ;
                    assert(k < len);
                    assert(t + d * d <= 4294705156 * (k + 1));
                    assert(d * d == (v as int - m) * (v as int - m)) by (nonlinear_arith)
                        requires
                            d == v as int - m || d == m - v as int,
                    ;
                    t = t + d * d;
                    k = k + 1;
                }
                i += 1;
            }
            assert(s.take(len as int) =~= s);
            proof {
                lemma_dev_sum(s, m as int);
                lemma_spread_decomposition(
                    n as int,
                    valid_sum_sq(s) as int,
                    sum as int,
                    m as int,
                    rem as int,
                    t as int,
                );
            }
            let c = ceil_four_sq_div(rem, n);
            // Invariant of the search: `lo` passes the test, `hi` fails it.
            let mut lo: u128 = 0;
            let mut hi: u128 = 65535;
            proof {
                let a: int = 131069int * 131069int;
                assert(k == n);
                assert(t <= 4294705156 * k);
                assert(4 * t <= 17178820624 * n);
                assert(a * n + c > 4 * t) by (nonlinear_arith)
                    requires
                        4 * t <= 17178820624 * n,
                        a == 131069 * 131069,
                        c >= 0,
                        n > 0,
                ;
                lemma_spread_test(a, n as int, t as int, rem as int, c as int);
            }
            while hi - lo > 1
                invariant
                    lo < hi <= 65535,
                    n > 0,
                    n <= u64::MAX,
                    t <= 4294705156 * n,
                    c <= 4 * rem + 4,
                    rem < n,
                    c * n >= 4 * (rem * rem),
                    (c - 1) * n < 4 * (rem * rem),
                    lo == 0 || (2 * lo - 1) * (2 * lo - 1) * (n * n) <= 4 * (n * t - rem * rem),
                    !((2 * hi - 1) * (2 * hi - 1) * (n * n) <= 4 * (n * t - rem * rem)),
                decreases hi - lo,
            {
                let mid = lo + (hi - lo) / 2;
                let b = 2 * mid - 1;
                assert(b * b <= 131069 * 131069) by (nonlinear_arith)
                    requires
                        1 <= b <= 131069,
                ;
                let a = b * b;
                assert(a * n <= 131069 * 131069 * u64::MAX) by (nonlinear_arith)
                    requires
                        a <= 131069 * 131069,
                        n <= u64::MAX,
                ;
                assert(4 * t <= 17178820624 * u64::MAX) by (nonlinear_arith)
                    requires
                        t <= 4294705156 * n,
                        n <= u64::MAX,
                ;
                proof {
                    lemma_spread_test(a as int, n as int, t as int, rem as int, c as int);
                }
                if a * n + c <= 4 * t {
                    lo = mid;
                } else {
                    hi = mid;
                }
            }
            proof {
                let nn = n as int;
                assert(valid_count(s) == nn);
                assert(spread_numerator(s) == nn * t - rem * rem);
                assert(hi == lo + 1);
                assert(2 * hi - 1 == 2 * lo + 1);
            }
            lo as u16
        },
    }
}

proof fn lemma_count_monotone(s: Seq<u16>, i: int, j: int)
    requires
        0 <= i <= j <= s.len(),
    ensures
        valid_count(s.take(i)) <= valid_count(s.take(j)),
    decreases j - i,
{
    if i < j {
        lemma_count_monotone(s, i, j - 1);
        lemma_take_step(s, j - 1);
    }
}

} // verus!
