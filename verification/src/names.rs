//! Parsers for the KNMI file names and the NetCDF time-unit strings.

use vstd::prelude::*;
use crate::calendar::{
    civil_text, civil_timestamp, compact_utc_timestamp, lemma_zero_padded, same_timestamp,
    two_digits, utc_text, utc_timestamp, valid_civil, year_text,
};
use crate::split::{
    file_name_range, is_white_space, keep_nonempty, lemma_split_three, path_file_name, separates,
    split_fields, split_ranges, word_ranges, words, Separator,
};
use crate::text::{
    all_digits, chars_of, digits_value, is_digit, lemma_small_digits, parse_i32_at, parse_i32_spec, parse_u32_at,
    parse_u32_spec, read_digits, same_int,
};

verus! {

/// Whether `pat` occurs in `s` at position `i`.
pub open spec fn occurs_at(s: Seq<char>, i: int, pat: Seq<char>) -> bool {
    0 <= i && i + pat.len() <= s.len() && s.subrange(i, i + pat.len()) == pat
}

/// Number of positions `i < k` at which `pat` occurs in `s`.
pub open spec fn occurrence_count(s: Seq<char>, pat: Seq<char>, k: int) -> nat
    decreases k,
{
    if k <= 0 {
        0
    } else {
        occurrence_count(s, pat, k - 1) + if occurs_at(s, k - 1, pat) {
            1nat
        } else {
            0nat
        }
    }
}

/// Largest position `i < k` at which `pat` occurs in `s` (-1 when none).
pub open spec fn last_occurrence(s: Seq<char>, pat: Seq<char>, k: int) -> int
    decreases k,
{
    if k <= 0 {
        -1
    } else if occurs_at(s, k - 1, pat) {
        k - 1
    } else {
        last_occurrence(s, pat, k - 1)
    }
}

/// Index of the last `c` in `s` (-1 when none).
pub open spec fn last_index_of(s: Seq<char>, c: char) -> int
    decreases s.len(),
{
    if s.len() == 0 {
        -1
    } else if s.last() == c {
        s.len() - 1
    } else {
        last_index_of(s.drop_last(), c)
    }
}

/// The forecast hour of a Harmonie GRIB file name: the first three characters
/// of its fourth `_`-separated field, read as an `i32`.
pub open spec fn forecast_hour_spec(name: Seq<char>) -> Option<int> {
    let parts = split_fields(name, Separator::Char('_'));
    if parts.len() >= 4 && parts[3].len() >= 3 {
        parse_i32_spec(parts[3].take(3))
    } else {
        None
    }
}

/// The forecast hour in an archive entry name is read from three characters,
/// so it lies in `-99..=999`.
pub proof fn lemma_forecast_hour_range(name: Seq<char>)
    ensures
        forecast_hour_spec(name) matches Some(h) ==> -99 <= h <= 999,
{
    let parts = split_fields(name, Separator::Char('_'));
    if parts.len() >= 4 && parts[3].len() >= 3 {
        let t = parts[3].take(3);
        if t.len() > 0 && (t[0] == '+' || t[0] == '-') {
            let rest = t.drop_first();
            if rest.len() > 0 && all_digits(rest) {
                lemma_small_digits(rest);
            }
        } else if t.len() > 0 && all_digits(t) {
            lemma_small_digits(t);
        }
    }
}

/// The timestamp of year, month, day and hour (and minute) fields read from
/// `d` at the given positions.
pub open spec fn stamp_of_fields(
    y: Option<int>,
    mo: Option<int>,
    dd: Option<int>,
    h: Option<int>,
    mi: Option<int>,
    s: Option<int>,
) -> Option<int> {
    match (y, mo, dd, h, mi, s) {
        (Some(y), Some(mo), Some(dd), Some(h), Some(mi), Some(s)) => civil_timestamp(
            y,
            mo,
            dd,
            h,
            mi,
            s,
        ),
        _ => None,
    }
}

/// The run time of a Harmonie GRIB file name: its third `_`-separated field
/// holds `YYYYMMDDHHMM`.
pub open spec fn run_time_spec(name: Seq<char>) -> Option<int> {
    let parts = split_fields(name, Separator::Char('_'));
    if parts.len() >= 3 && parts[2].len() == 12 {
        let d = parts[2];
        stamp_of_fields(
            parse_i32_spec(d.subrange(0, 4)),
            parse_u32_spec(d.subrange(4, 6)),
            parse_u32_spec(d.subrange(6, 8)),
            parse_u32_spec(d.subrange(8, 10)),
            parse_u32_spec(d.subrange(10, 12)),
            Some(0),
        )
    } else {
        None
    }
}

/// The run time of a Harmonie archive name `HARM43_V1_P1_YYYYMMDDHH.tar`.
pub open spec fn tar_run_time_spec(name: Seq<char>) -> Option<int> {
    let pre = "HARM43_V1_P1_"@;
    let suf = ".tar"@;
    if name.len() >= pre.len() + suf.len() && name.take(pre.len() as int) == pre && name.skip(
        name.len() - suf.len(),
    ) == suf {
        let d = name.subrange(pre.len() as int, name.len() - suf.len());
        if d.len() == 10 {
            stamp_of_fields(
                parse_i32_spec(d.subrange(0, 4)),
                parse_u32_spec(d.subrange(4, 6)),
                parse_u32_spec(d.subrange(6, 8)),
                parse_u32_spec(d.subrange(8, 10)),
                Some(0),
                Some(0),
            )
        } else {
            None
        }
    } else {
        None
    }
}

/// The timestamp named by a CF time-unit string `"<unit> since YYYY-MM-DD HH:MM:SS"`:
/// `since` must occur exactly once; the first two whitespace-separated words
/// after it are the date (three `-`-separated fields) and the time (at least
/// three `:`-separated fields, of which the first two characters of the third
/// are the seconds).
pub open spec fn reference_time_spec(s: Seq<char>) -> Option<int> {
    let pat = "since"@;
    if occurrence_count(s, pat, s.len() as int) != 1 {
        None
    } else {
        let rest = s.subrange(last_occurrence(s, pat, s.len() as int) + pat.len(), s.len() as int);
        let ws = words(rest);
        if ws.len() < 2 {
            None
        } else {
            let dp = split_fields(ws[0], Separator::Char('-'));
            let tp = split_fields(ws[1], Separator::Char(':'));
            if dp.len() != 3 || tp.len() < 3 || tp[2].len() < 2 {
                None
            } else {
                stamp_of_fields(
                    parse_i32_spec(dp[0]),
                    parse_u32_spec(dp[1]),
                    parse_u32_spec(dp[2]),
                    parse_u32_spec(tp[0]),
                    parse_u32_spec(tp[1]),
                    parse_u32_spec(tp[2].take(2)),
                )
            }
        }
    }
}

/// A pattern occurring at `p` and nowhere else before `k` is counted once,
/// and `p` is its last position.
proof fn lemma_single_occurrence(s: Seq<char>, pat: Seq<char>, p: int, k: int)
    requires
        0 <= k,
        0 <= p,
        occurs_at(s, p, pat),
        forall|i: int| 0 <= i < k && i != p ==> !occurs_at(s, i, pat),
    ensures
        occurrence_count(s, pat, k) == if k > p { 1nat } else { 0nat },
        last_occurrence(s, pat, k) == if k > p { p } else { -1 },
    decreases k,
{
    if k > 0 {
        lemma_single_occurrence(s, pat, p, k - 1);
    }
}

/// Digits, `-`, `:` and the space are no whitespace but the space.
proof fn lemma_no_white(t: Seq<char>)
    requires
        all_digits(t),
    ensures
        forall|k: int| 0 <= k < t.len() ==> !separates(Separator::Whitespace, #[trigger] t[k]),
        forall|k: int| 0 <= k < t.len() ==> !separates(Separator::Char('-'), #[trigger] t[k]),
        forall|k: int| 0 <= k < t.len() ==> !separates(Separator::Char(':'), #[trigger] t[k]),
        forall|k: int| 0 <= k < t.len() ==> #[trigger] t[k] != 's',
{
    assert forall|k: int| 0 <= k < t.len() implies !is_white_space(#[trigger] t[k]) by {
        assert(is_digit(t[k]));
    }
}

/// A field written with [`two_digits`] reads back with `str::parse::<u32>`.
proof fn lemma_two_digits_parse(v: int)
    requires
        0 <= v < 100,
    ensures
        two_digits(v).len() == 2,
        all_digits(two_digits(v)),
        parse_u32_spec(two_digits(v)) == Some(v),
{
    lemma_zero_padded(v as nat, 2);
    let t = two_digits(v);
    assert(is_digit(t[0]));
}

/// The text of a date and time from year 0 to 9999 reads back, after
/// `"seconds since "`, as the timestamp of that date and time.
pub proof fn lemma_reference_text_round_trip(y: int, mo: int, d: int, h: int, mi: int, sec: int)
    requires
        civil_timestamp(y, mo, d, h, mi, sec) is Some,
        0 <= y <= 9999,
    ensures
        reference_time_spec("seconds since "@ + civil_text(y, mo, d, h, mi, sec)) == civil_timestamp(
            y,
            mo,
            d,
            h,
            mi,
            sec,
        ),
{
    reveal_strlit("seconds since ");
    reveal_strlit("since");
    assert(valid_civil(y, mo, d, h, mi, sec));
    lemma_zero_padded(y as nat, 4);
    let yt = year_text(y);
    assert(is_digit(yt[0]));
    lemma_two_digits_parse(mo);
    lemma_two_digits_parse(d);
    lemma_two_digits_parse(h);
    lemma_two_digits_parse(mi);
    lemma_two_digits_parse(sec);
    let (mt, dt, ht, it, st) = (two_digits(mo), two_digits(d), two_digits(h), two_digits(mi), two_digits(sec));
    lemma_no_white(yt);
    lemma_no_white(mt);
    lemma_no_white(dt);
    lemma_no_white(ht);
    lemma_no_white(it);
    lemma_no_white(st);
    let date = yt + seq!['-'] + mt + seq!['-'] + dt;
    let time = ht + seq![':'] + it + seq![':'] + st;
    let text = civil_text(y, mo, d, h, mi, sec);
    assert(text =~= date + seq![' '] + time);
    assert(date.len() == 10 && time.len() == 8 && text.len() == 19);
    let pre = "seconds since "@;
    let str = pre + text;
    let pat = "since"@;
    assert(str.len() == 33);
    // The text holds no `s`.
    assert forall|j: int| 0 <= j < 19 implies #[trigger] text[j] != 's' by {
        if j < 4 {
            assert(text[j] == yt[j]);
        } else if 5 <= j < 7 {
            assert(text[j] == mt[j - 5]);
        } else if 8 <= j < 10 {
            assert(text[j] == dt[j - 8]);
        } else if 11 <= j < 13 {
            assert(text[j] == ht[j - 11]);
        } else if 14 <= j < 16 {
            assert(text[j] == it[j - 14]);
        } else if 17 <= j < 19 {
            assert(text[j] == st[j - 17]);
        }
    }
    assert forall|i: int| 0 <= i < 33 && i != 8 implies !occurs_at(str, i, pat) by {
        if occurs_at(str, i, pat) {
            assert(str.subrange(i, i + 5)[0] == pat[0]);
            assert(str.subrange(i, i + 5)[1] == pat[1]);
            assert(str[i] == 's' && str[i + 1] == 'i');
            if i >= 14 {
                assert(str[i] == text[i - 14]);
            }
        }
    }
    assert(str.subrange(8, 13) =~= pat);
    lemma_single_occurrence(str, pat, 8, 33);
    let rest = str.subrange(13, 33);
    assert(rest =~= seq![' '] + date + seq![' '] + time);
    let e = Seq::<char>::empty();
    assert forall|k: int| 0 <= k < date.len() implies !separates(Separator::Whitespace, #[trigger] date[k]) by {
        if k < 4 {
            assert(date[k] == yt[k]);
        } else if 5 <= k < 7 {
            assert(date[k] == mt[k - 5]);
        } else if 8 <= k < 10 {
            assert(date[k] == dt[k - 8]);
        }
    }
    assert forall|k: int| 0 <= k < time.len() implies !separates(Separator::Whitespace, #[trigger] time[k]) by {
        if k < 2 {
            assert(time[k] == ht[k]);
        } else if 3 <= k < 5 {
            assert(time[k] == it[k - 3]);
        } else if 6 <= k < 8 {
            assert(time[k] == st[k - 6]);
        }
    }
    assert(is_white_space(' '));
    lemma_split_three(e, date, time, ' ', Separator::Whitespace);
    assert(e + seq![' '] + date + seq![' '] + time =~= rest);
    let fs = seq![e, date, time];
    assert(fs.drop_last() =~= seq![e, date]);
    assert(fs.drop_last().drop_last() =~= seq![e]);
    assert(seq![e].drop_last() =~= Seq::<Seq<char>>::empty());
    assert(keep_nonempty(Seq::<Seq<char>>::empty()) =~= Seq::<Seq<char>>::empty());
    assert(seq![e].last() == e);
    assert(keep_nonempty(seq![e]) == keep_nonempty(seq![e].drop_last()));
    assert(keep_nonempty(seq![e]) =~= Seq::<Seq<char>>::empty());
    assert(seq![e, date].last() == date);
    assert(fs.last() == time);
    assert(keep_nonempty(seq![e, date]) =~= seq![date]);
    assert(keep_nonempty(fs) =~= seq![date, time]);
    assert(words(rest) == seq![date, time]);
    lemma_split_three(yt, mt, dt, '-', Separator::Char('-'));
    lemma_split_three(ht, it, st, ':', Separator::Char(':'));
    assert(st.take(2) =~= st);
}

/// The reference-time label of a forecast run reads back as its reference
/// time, for times in the years 0 to 9999 (see
/// [`crate::timeline::format_forecast_metadata`]).
pub proof fn lemma_reference_label_round_trip(t: int)
    requires
        utc_text(t) is Some,
        forall|y: int, mo: int, d: int, h: int, mi: int, s: int|
            #[trigger] civil_timestamp(y, mo, d, h, mi, s) == Some(t) ==> 0 <= y <= 9999,
    ensures
        reference_time_spec("seconds since "@ + utc_text(t)->0) == Some(t),
{
    let (y, mo, d, h, mi, s) = choose|y: int, mo: int, d: int, h: int, mi: int, s: int|
        #[trigger] civil_timestamp(y, mo, d, h, mi, s) == Some(t);
    lemma_reference_text_round_trip(y, mo, d, h, mi, s);
}

/// The observation time of an RTCOR file name `..._YYYYMMDDHHMM.h5` (path
/// components before the final one are ignored).
pub open spec fn rtcor_timestamp_spec(name: Seq<char>) -> Option<int> {
    match path_file_name(name) {
        None => None,
        Some(c) => {
            let suf = ".h5"@;
            if c.len() >= suf.len() && c.skip(c.len() - suf.len()) == suf {
                let stem = c.take(c.len() - suf.len());
                let ts = stem.skip(last_index_of(stem, '_') + 1);
                if ts.len() == 12 && all_digits(ts) {
                    civil_timestamp(
                        digits_value(ts.subrange(0, 4)),
                        digits_value(ts.subrange(4, 6)),
                        digits_value(ts.subrange(6, 8)),
                        digits_value(ts.subrange(8, 10)),
                        digits_value(ts.subrange(10, 12)),
                        0,
                    )
                } else {
                    None
                }
            } else {
                None
            }
        },
    }
}

/// Whether `p` occurs in `v` at position `start`.
fn occurs_in_at(v: &Vec<char>, start: usize, p: &Vec<char>) -> (r: bool)
    ensures
        r == occurs_at(v@, start as int, p@),
{
    if start > v.len() || p.len() > v.len() - start {
        return false;
    }
    let mut k: usize = 0;
    while k < p.len()
        invariant
            start + p.len() <= v.len(),
            k <= p@.len(),
            forall|j: int| 0 <= j < k ==> v@[start + j] == p@[j],
        decreases p@.len() - k,
    {
        let idx = start + k;
        if v[idx] != p[k] {
            assert(v@.subrange(start as int, start + p@.len())[k as int] != p@[k as int]);
            return false;
        }
        k += 1;
    }
    assert(v@.subrange(start as int, start + p@.len()) =~= p@);
    true
}

/// Parses the forecast hour from a Harmonie GRIB file name such as
/// `HA40_NWP_202311142200_00300_GB` (here 3).
pub fn parse_forecast_hour_from_name(filename: &str) -> (r: Option<i32>)
    ensures
        same_int(r, forecast_hour_spec(filename@)),
{
    let v = chars_of(filename);
    let parts = split_ranges(&v, 0, v.len(), Separator::Char('_'));
    proof {
        assert(v@.subrange(0, v@.len() as int) =~= v@);
    }
    if parts.len() >= 4 {
        let (a, b) = parts[3];
        proof {
            assert(parts@[3] == (a, b));
            assert(0 <= parts@[3].0 <= parts@[3].1 <= v@.len());
        }
        if b - a >= 3 {
            proof {
                assert(v@.subrange(a as int, b as int).take(3) =~= v@.subrange(a as int, a + 3));
            }
            return parse_i32_at(&v, a, a + 3);
        }
    }
    None
}

/// Parses the run time of a Harmonie GRIB file name such as
/// `HA40_NWP_202311142200_00300_GB` into a unix timestamp.
pub fn parse_run_time_from_name(filename: &str) -> (r: Option<i64>)
    ensures
        same_timestamp(r, run_time_spec(filename@)),
{
    let v = chars_of(filename);
    let parts = split_ranges(&v, 0, v.len(), Separator::Char('_'));
    proof {
        assert(v@.subrange(0, v@.len() as int) =~= v@);
    }
    if parts.len() < 3 {
        return None;
    }
    let (a, b) = parts[2];
    proof {
        assert(parts@[2] == (a, b));
        assert(0 <= parts@[2].0 <= parts@[2].1 <= v@.len());
    }
    if b - a != 12 {
        return None;
    }
    let ghost d = v@.subrange(a as int, b as int);
    proof {
        assert(d.subrange(0, 4) =~= v@.subrange(a as int, a + 4));
        assert(d.subrange(4, 6) =~= v@.subrange(a + 4, a + 6));
        assert(d.subrange(6, 8) =~= v@.subrange(a + 6, a + 8));
        assert(d.subrange(8, 10) =~= v@.subrange(a + 8, a + 10));
        assert(d.subrange(10, 12) =~= v@.subrange(a + 10, a + 12));
    }
    let y = parse_i32_at(&v, a, a + 4);
    let mo = parse_u32_at(&v, a + 4, a + 6);
    let dd = parse_u32_at(&v, a + 6, a + 8);
    let h = parse_u32_at(&v, a + 8, a + 10);
    let mi = parse_u32_at(&v, a + 10, a + 12);
    match (y, mo, dd, h, mi) {
        (Some(y), Some(mo), Some(dd), Some(h), Some(mi)) => utc_timestamp(y, mo, dd, h, mi, 0),
        _ => None,
    }
}

/// Parses the run time of a Harmonie archive name `HARM43_V1_P1_YYYYMMDDHH.tar`.
pub fn parse_tar_run_time(filename: &str) -> (r: Option<i64>)
    ensures
        same_timestamp(r, tar_run_time_spec(filename@)),
{
    let v = chars_of(filename);
    let pre = chars_of("HARM43_V1_P1_");
    let suf = chars_of(".tar");
    let n = v.len();
    if n < pre.len() || n - pre.len() < suf.len() {
        return None;
    }
    let starts = occurs_in_at(&v, 0, &pre);
    let ends = occurs_in_at(&v, n - suf.len(), &suf);
    proof {
        assert(v@.take(pre@.len() as int) =~= v@.subrange(0, pre@.len() as int));
        assert(v@.skip(n - suf@.len()) =~= v@.subrange(n - suf@.len(), n as int));
    }
    if !starts || !ends {
        return None;
    }
    let a = pre.len();
    let b = n - suf.len();
    if b - a != 10 {
        return None;
    }
    let ghost d = v@.subrange(a as int, b as int);
    proof {
        assert(d.subrange(0, 4) =~= v@.subrange(a as int, a + 4));
        assert(d.subrange(4, 6) =~= v@.subrange(a + 4, a + 6));
        assert(d.subrange(6, 8) =~= v@.subrange(a + 6, a + 8));
        assert(d.subrange(8, 10) =~= v@.subrange(a + 8, a + 10));
    }
    let y = parse_i32_at(&v, a, a + 4);
    let mo = parse_u32_at(&v, a + 4, a + 6);
    let dd = parse_u32_at(&v, a + 6, a + 8);
    let h = parse_u32_at(&v, a + 8, a + 10);
    match (y, mo, dd, h) {
        (Some(y), Some(mo), Some(dd), Some(h)) => utc_timestamp(y, mo, dd, h, 0, 0),
        _ => None,
    }
}

/// Parses a CF time-unit string such as `"seconds since 2023-11-14 22:13:20"`
/// into a unix timestamp. Strings whose seconds field has fewer than two
/// characters give `None`.
pub fn parse_reference_time(ref_str: &str) -> (r: Option<i64>)
    ensures
        same_timestamp(r, reference_time_spec(ref_str@)),
{
    let v = chars_of(ref_str);
    let p = chars_of("since");
    proof {
        reveal_strlit("since");
    }
    let n = v.len();
    let mut count: usize = 0;
    let mut last: usize = 0;
    let mut i: usize = 0;
    while i < n
        invariant
            n == v@.len(),
            p@ == "since"@,
            p@.len() == 5,
            i <= n,
            count as int == occurrence_count(v@, p@, i as int),
            count <= i,
            count > 0 ==> last as int == last_occurrence(v@, p@, i as int) && last < i,
            count > 0 ==> occurs_at(v@, last as int, p@),
        decreases n - i,
    {
        if occurs_in_at(&v, i, &p) {
            count += 1;
            last = i;
        }
        i += 1;
    }
    if count != 1 {
        return None;
    }
    if last > n - 5 {
        return None;
    }
    let start = last + 5;
    let ws = word_ranges(&v, start, n);
    if ws.len() < 2 {
        return None;
    }
    let (da, db) = ws[0];
    let (ta, tb) = ws[1];
    proof {
        assert(ws@[0] == (da, db) && ws@[1] == (ta, tb));
        assert(start <= ws@[0].0 <= ws@[0].1 <= n);
        assert(start <= ws@[1].0 <= ws@[1].1 <= n);
    }
    let dp = split_ranges(&v, da, db, Separator::Char('-'));
    let tp = split_ranges(&v, ta, tb, Separator::Char(':'));
    if dp.len() != 3 || tp.len() < 3 {
        return None;
    }
    let (y0, y1) = dp[0];
    let (m0, m1) = dp[1];
    let (d0, d1) = dp[2];
    let (h0, h1) = tp[0];
    let (i0, i1) = tp[1];
    let (s0, s1) = tp[2];
    proof {
        assert(dp@[0] == (y0, y1) && dp@[1] == (m0, m1) && dp@[2] == (d0, d1));
        assert(tp@[0] == (h0, h1) && tp@[1] == (i0, i1) && tp@[2] == (s0, s1));
        assert(da <= dp@[0].0 <= dp@[0].1 <= db);
        assert(da <= dp@[1].0 <= dp@[1].1 <= db);
        assert(da <= dp@[2].0 <= dp@[2].1 <= db);
        assert(ta <= tp@[0].0 <= tp@[0].1 <= tb);
        assert(ta <= tp@[1].0 <= tp@[1].1 <= tb);
        assert(ta <= tp@[2].0 <= tp@[2].1 <= tb);
    }
    if s1 - s0 < 2 {
        return None;
    }
    proof {
        assert(v@.subrange(s0 as int, s1 as int).take(2) =~= v@.subrange(s0 as int, s0 + 2));
    }
    let y = parse_i32_at(&v, y0, y1);
    let mo = parse_u32_at(&v, m0, m1);
    let dd = parse_u32_at(&v, d0, d1);
    let h = parse_u32_at(&v, h0, h1);
    let mi = parse_u32_at(&v, i0, i1);
    let sec = parse_u32_at(&v, s0, s0 + 2);
    match (y, mo, dd, h, mi, sec) {
        (Some(y), Some(mo), Some(dd), Some(h), Some(mi), Some(sec)) => utc_timestamp(
            y,
            mo,
            dd,
            h,
            mi,
            sec,
        ),
        _ => None,
    }
}

/// Parses the UTC unix timestamp from an RTCOR file name
/// (`RAD_NL25_RAC_RT_YYYYMMDDHHMM.h5` or `RAD_NL25_RAC_MFBS_EM_YYYYMMDDHHMM.h5`).
#[verifier::rlimit(40)]
#[verifier::spinoff_prover]
pub fn parse_rtcor_filename_timestamp(filename: &str) -> (r: Option<i64>)
    ensures
        same_timestamp(r, rtcor_timestamp_spec(filename@)),
{
    let v = chars_of(filename);
    let suf = chars_of(".h5");
    let (a, b) = match file_name_range(&v) {
        Some(ab) => ab,
        None => return None,
    };
    let ghost c = v@.subrange(a as int, b as int);
    if b - a < suf.len() {
        return None;
    }
    let e = b - suf.len();
    let ends = occurs_in_at(&v, e, &suf);
    proof {
        assert(c.skip(c.len() - suf@.len()) =~= v@.subrange(e as int, b as int));
    }
    if !ends {
        return None;
    }
    let ghost stem = c.take(c.len() - suf@.len());
    proof {
        assert(stem =~= v@.subrange(a as int, e as int));
    }
    // Position just after the last '_' of the stem (or its start).
    let mut u = e;
    while u > a && v[u - 1] != '_'
        invariant
            a <= u <= e <= b <= v@.len(),
            stem == v@.subrange(a as int, e as int),
            forall|j: int| u <= j < e ==> v@[j] != '_',
            last_index_of(stem, '_') == last_index_of(v@.subrange(a as int, u as int), '_'),
        decreases u,
    {
        proof {
            let t = v@.subrange(a as int, u as int);
            assert(t.drop_last() =~= v@.subrange(a as int, u - 1));
            assert(t.last() == v@[u - 1]);
        }
        u -= 1;
    }
    proof {
        let t = v@.subrange(a as int, u as int);
        if u > a {
            assert(t.last() == '_');
            assert(last_index_of(t, '_') == u - a - 1);
        } else {
            assert(t.len() == 0);
        }
        assert(stem.skip(last_index_of(stem, '_') + 1) =~= v@.subrange(u as int, e as int));
    }
    if e - u != 12 {
        return None;
    }
    let ghost ts = v@.subrange(u as int, e as int);
    let y = read_digits(&v, u, u + 4);
    let mo = read_digits(&v, u + 4, u + 6);
    let dd = read_digits(&v, u + 6, u + 8);
    let h = read_digits(&v, u + 8, u + 10);
    let mi = read_digits(&v, u + 10, u + 12);
    proof {
        assert(ts.subrange(0, 4) =~= v@.subrange(u as int, u + 4));
        assert(ts.subrange(4, 6) =~= v@.subrange(u + 4, u + 6));
        assert(ts.subrange(6, 8) =~= v@.subrange(u + 6, u + 8));
        assert(ts.subrange(8, 10) =~= v@.subrange(u + 8, u + 10));
        assert(ts.subrange(10, 12) =~= v@.subrange(u + 10, u + 12));
        assert(all_digits(ts) <==> (all_digits(ts.subrange(0, 4)) && all_digits(
            ts.subrange(4, 6),
        ) && all_digits(ts.subrange(6, 8)) && all_digits(ts.subrange(8, 10)) && all_digits(
            ts.subrange(10, 12),
        ))) by {
            if all_digits(ts.subrange(0, 4)) && all_digits(ts.subrange(4, 6)) && all_digits(
                ts.subrange(6, 8),
            ) && all_digits(ts.subrange(8, 10)) && all_digits(ts.subrange(10, 12)) {
                assert forall|j: int| 0 <= j < ts.len() implies is_digit(#[trigger] ts[j]) by {
                    if j < 4 {
                        assert(ts.subrange(0, 4)[j] == ts[j]);
                    } else if j < 6 {
                        assert(ts.subrange(4, 6)[j - 4] == ts[j]);
                    } else if j < 8 {
                        assert(ts.subrange(6, 8)[j - 6] == ts[j]);
                    } else if j < 10 {
                        assert(ts.subrange(8, 10)[j - 8] == ts[j]);
                    } else {
                        assert(ts.subrange(10, 12)[j - 10] == ts[j]);
                    }
                }
            }
        }
    }
    match (y, mo, dd, h, mi) {
        (Some(_), Some(_), Some(_), Some(_), Some(_)) => {
            let digits = filename.substring_char(u, e);
            compact_utc_timestamp(digits)
        },
        _ => None,
    }
}

/// Alias for [`parse_rtcor_filename_timestamp`].
pub fn parse_rtcor_timestamp(filename: &str) -> (r: Option<i64>)
    ensures
        same_timestamp(r, rtcor_timestamp_spec(filename@)),
{
    parse_rtcor_filename_timestamp(filename)
}

} // verus!
