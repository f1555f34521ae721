//! UTC calendar arithmetic: the unix timestamp of a proleptic Gregorian
//! date and time of day, as chrono computes it.

use vstd::prelude::*;
use chrono::TimeZone;
use crate::text::{all_digits, digits_value, is_digit};

verus! {

/// Gregorian leap year rule.
pub open spec fn is_leap_year(y: int) -> bool {
    (y % 4 == 0 && y % 100 != 0) || y % 400 == 0
}

/// Number of days of month `m` (1-based) of year `y`.
pub open spec fn days_in_month(y: int, m: int) -> int {
    if m == 2 {
        if is_leap_year(y) {
            29
        } else {
            28
        }
    } else if m == 4 || m == 6 || m == 9 || m == 11 {
        30
    } else {
        31
    }
}

/// A calendar date and time of day that chrono accepts (its year range is
/// -262143..=262142).
pub open spec fn valid_civil(y: int, mo: int, d: int, h: int, mi: int, s: int) -> bool {
    &&& -262143 <= y <= 262142
    &&& 1 <= mo <= 12
    &&& 1 <= d <= days_in_month(y, mo)
    &&& 0 <= h < 24
    &&& 0 <= mi < 60
    &&& 0 <= s < 60
}

/// Days from 1970-01-01 to the given proleptic Gregorian date.
pub open spec fn days_from_civil(y: int, m: int, d: int) -> int {
    let yy = if m <= 2 {
        y - 1
    } else {
        y
    };
    let era = yy / 400;
    let yoe = yy - era * 400;
    let mp = if m > 2 {
        m - 3
    } else {
        m + 9
    };
    let doy = (153 * mp + 2) / 5 + d - 1;
    let doe = yoe * 365 + yoe / 4 - yoe / 100 + doy;
    era * 146097 + doe - 719468
}

/// Unix timestamp (seconds, UTC) of a date and time, when it is valid.
pub open spec fn civil_timestamp(y: int, mo: int, d: int, h: int, mi: int, s: int) -> Option<int> {
    if valid_civil(y, mo, d, h, mi, s) {
        Some(days_from_civil(y, mo, d) * 86400 + h * 3600 + mi * 60 + s)
    } else {
        None
    }
}

/// The ASCII digit of `d` (for `d` below ten).
pub open spec fn digit_char(d: int) -> char {
    (48 + d) as char
}

/// The decimal digits of `n`, without leading zeros (`"0"` for zero).
pub open spec fn decimal_text(n: nat) -> Seq<char>
    decreases n,
{
    if n < 10 {
        seq![digit_char(n as int)]
    } else {
        decimal_text(n / 10) + seq![digit_char((n % 10) as int)]
    }
}

/// `s` with zeros put in front up to width `w`.
pub open spec fn zero_padded(s: Seq<char>, w: nat) -> Seq<char> {
    if s.len() >= w {
        s
    } else {
        Seq::new((w - s.len()) as nat, |i: int| '0') + s
    }
}

/// A year as `%Y` writes it: four digits (zero-padded) for 0 to 9999,
/// otherwise a sign and at least four digits.
pub open spec fn year_text(y: int) -> Seq<char> {
    if 0 <= y <= 9999 {
        zero_padded(decimal_text(y as nat), 4)
    } else if y < 0 {
        seq!['-'] + zero_padded(decimal_text((-y) as nat), 4)
    } else {
        seq!['+'] + zero_padded(decimal_text(y as nat), 4)
    }
}

/// A field of a date or time as `%m`, `%d`, `%H`, `%M` and `%S` write it.
pub open spec fn two_digits(v: int) -> Seq<char> {
    zero_padded(decimal_text(v as nat), 2)
}

/// A date and time in the format `%Y-%m-%d %H:%M:%S`.
pub open spec fn civil_text(y: int, mo: int, d: int, h: int, mi: int, s: int) -> Seq<char> {
    year_text(y) + seq!['-'] + two_digits(mo) + seq!['-'] + two_digits(d) + seq![' '] + two_digits(h)
        + seq![':'] + two_digits(mi) + seq![':'] + two_digits(s)
}

/// The UTC time `t` seconds after the epoch in the format
/// `%Y-%m-%d %H:%M:%S`, for the calendar fields whose timestamp is `t`;
/// `None` when no date in chrono's year range has that timestamp.
pub open spec fn utc_text(t: int) -> Option<Seq<char>> {
    if exists|y: int, mo: int, d: int, h: int, mi: int, s: int|
        #[trigger] civil_timestamp(y, mo, d, h, mi, s) == Some(t) {
        let (y, mo, d, h, mi, s) = choose|y: int, mo: int, d: int, h: int, mi: int, s: int|
            #[trigger] civil_timestamp(y, mo, d, h, mi, s) == Some(t);
        Some(civil_text(y, mo, d, h, mi, s))
    } else {
        None
    }
}

/// The decimal text of `n` is digits that read back as `n`, one digit
/// below ten, at most two below a hundred and at most four below ten
/// thousand.
pub(crate) proof fn lemma_decimal_text(n: nat)
    ensures
        all_digits(decimal_text(n)),
        digits_value(decimal_text(n)) == n,
        decimal_text(n).len() >= 1,
        n < 10 ==> decimal_text(n).len() == 1,
        n < 100 ==> decimal_text(n).len() <= 2,
        n < 1000 ==> decimal_text(n).len() <= 3,
        n < 10000 ==> decimal_text(n).len() <= 4,
    decreases n,
{
    if n >= 10 {
        assert(n == (n / 10) * 10 + n % 10 && 0 <= n % 10 < 10) by (nonlinear_arith);
        assert(n < 100 ==> n / 10 < 10) by (nonlinear_arith);
        assert(n < 1000 ==> n / 10 < 100) by (nonlinear_arith);
        assert(n < 10000 ==> n / 10 < 1000) by (nonlinear_arith);
        lemma_decimal_text(n / 10);
        let x = decimal_text(n / 10);
        let c = digit_char((n % 10) as int);
        assert(c as int == 48 + n % 10);
        let t = x + seq![c];
        assert(t.drop_last() =~= x);
        assert(t.last() == c);
        assert(decimal_text(n) == t);
        assert('0' as int == 48);
        assert(digits_value(t) == digits_value(x) * 10 + (c as int - '0' as int));
        assert forall|i: int| 0 <= i < t.len() implies is_digit(#[trigger] t[i]) by {
            if i < x.len() {
                assert(t[i] == x[i]);
            }
        }
    } else {
        let c = digit_char(n as int);
        assert(c as int == 48 + n);
        assert(seq![c].drop_last() =~= Seq::<char>::empty());
        assert('0' as int == 48);
        assert(decimal_text(n) == seq![c]);
        assert(digits_value(seq![c]) == digits_value(Seq::<char>::empty()) * 10 + (c as int - '0' as int));
        assert(is_digit(seq![c][0]));
    }
}

proof fn lemma_zeros(k: nat)
    ensures
        all_digits(Seq::new(k, |i: int| '0')),
        digits_value(Seq::new(k, |i: int| '0')) == 0,
    decreases k,
{
    if k > 0 {
        assert(Seq::new(k, |i: int| '0').drop_last() =~= Seq::new((k - 1) as nat, |i: int| '0'));
        lemma_zeros((k - 1) as nat);
    }
}

proof fn lemma_zeros_then(z: Seq<char>, s: Seq<char>)
    requires
        all_digits(z),
        digits_value(z) == 0,
        all_digits(s),
    ensures
        all_digits(z + s),
        digits_value(z + s) == digits_value(s),
    decreases s.len(),
{
    if s.len() > 0 {
        assert(all_digits(s.drop_last()));
        lemma_zeros_then(z, s.drop_last());
        assert((z + s).drop_last() =~= z + s.drop_last());
        assert((z + s).last() == s.last());
    } else {
        assert(z + s =~= z);
    }
    assert forall|i: int| 0 <= i < (z + s).len() implies is_digit(#[trigger] (z + s)[i]) by {
        if i < z.len() {
            assert((z + s)[i] == z[i]);
        } else {
            assert((z + s)[i] == s[i - z.len()]);
        }
    }
}

/// Zero-padded to width `w` (four below ten thousand, two below a
/// hundred), the decimal text of `n` is `w` digits that read back as `n`.
pub(crate) proof fn lemma_zero_padded(n: nat, w: nat)
    requires
        (w == 4 && n < 10000) || (w == 2 && n < 100),
    ensures
        zero_padded(decimal_text(n), w).len() == w,
        all_digits(zero_padded(decimal_text(n), w)),
        digits_value(zero_padded(decimal_text(n), w)) == n,
{
    lemma_decimal_text(n);
    let d = decimal_text(n);
    if d.len() < w {
        let k = (w - d.len()) as nat;
        lemma_zeros(k);
        lemma_zeros_then(Seq::new(k, |i: int| '0'), d);
    }
}

/// Whether an optional timestamp equals an optional integer.
pub open spec fn same_timestamp(r: Option<i64>, t: Option<int>) -> bool {
    match (r, t) {
        (Some(a), Some(b)) => a as int == b,
        (None, None) => true,
        _ => false,
    }
}

/// Calls chrono's `Utc.with_ymd_and_hms(..).single()` and takes the
/// `timestamp()` of the result. The contract states that chrono accepts exactly
/// the valid proleptic Gregorian dates and times of day within its year range,
/// and that the timestamp is the usual count of seconds since 1970-01-01 UTC.
#[verifier::external_body]
pub(crate) fn utc_timestamp(year: i32, month: u32, day: u32, hour: u32, min: u32, sec: u32) -> (r: Option<i64>)
    ensures
        same_timestamp(
            r,
            civil_timestamp(year as int, month as int, day as int, hour as int, min as int, sec as int),
        ),
{
    match chrono::Utc.with_ymd_and_hms(year, month, day, hour, min, sec).single() {
        Some(dt) => Some(dt.timestamp()),
        None => None,
    }
}

/// Calls chrono's `NaiveDateTime::parse_from_str` on `digits` followed by
/// `"00"` with the format `"%Y%m%d%H%M%S"`, and takes the `timestamp()` of
/// that time read as UTC. The contract states that on twelve ASCII digits
/// chrono reads the year from the first four and two digits each for month,
/// day, hour and minute, accepts exactly the valid dates and times of day,
/// and gives the usual count of seconds since 1970-01-01 UTC.
#[verifier::external_body]
pub(crate) fn compact_utc_timestamp(digits: &str) -> (r: Option<i64>)
    requires
        digits@.len() == 12,
        all_digits(digits@),
    ensures
        same_timestamp(
            r,
            civil_timestamp(
                digits_value(digits@.subrange(0, 4)),
                digits_value(digits@.subrange(4, 6)),
                digits_value(digits@.subrange(6, 8)),
                digits_value(digits@.subrange(8, 10)),
                digits_value(digits@.subrange(10, 12)),
                0,
            ),
        ),
{
    match chrono::NaiveDateTime::parse_from_str(&format!("{}00", digits), "%Y%m%d%H%M%S") {
        Ok(naive) => Some(chrono::Utc.from_utc_datetime(&naive).timestamp()),
        Err(_) => None,
    }
}

} // verus!
