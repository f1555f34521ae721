//! Small character-level helpers shared by the parsers.

use vstd::prelude::*;
use vstd::string::*;

verus! {

/// Copies the characters of `s` into a vector.
pub fn chars_of(s: &str) -> (v: Vec<char>)
    ensures
        v@ == s@,
{
    let n = s.unicode_len();
    let mut v: Vec<char> = Vec::new();
    let mut i: usize = 0;
    while i < n
        invariant
            n == s@.len(),
            i <= n,
            v@ == s@.subrange(0, i as int),
        decreases n - i,
    {
        v.push(s.get_char(i));
        i += 1;
    }
    assert(v@ =~= s@);
    v
}

/// Whether two strings hold the same characters.
pub fn str_eq(a: &str, b: &str) -> (r: bool)
    ensures
        r == (a@ == b@),
{
    let n = a.unicode_len();
    let m = b.unicode_len();
    if n != m {
        return false;
    }
    let mut i: usize = 0;
    while i < n
        invariant
            n == a@.len(),
            m == b@.len(),
            n == m,
            i <= n,
            forall|j: int| 0 <= j < i ==> a@[j] == b@[j],
        decreases n - i,
    {
        if a.get_char(i) != b.get_char(i) {
            return false;
        }
        i += 1;
    }
    assert(a@ =~= b@);
    true
}

/// ASCII decimal digit.
pub open spec fn is_digit(c: char) -> bool {
    '0' <= c && c <= '9'
}

/// Every character is an ASCII decimal digit.
pub open spec fn all_digits(s: Seq<char>) -> bool {
    forall|i: int| 0 <= i < s.len() ==> is_digit(#[trigger] s[i])
}

/// Decimal value of a sequence of digits.
pub open spec fn digits_value(s: Seq<char>) -> int
    decreases s.len(),
{
    if s.len() == 0 {
        0
    } else {
        digits_value(s.drop_last()) * 10 + (s.last() as int - '0' as int)
    }
}

/// The integer that `str::parse` reads from `s` for a signed integer type,
/// before the range check: an optional `+` or `-` followed by one or more
/// ASCII digits.
pub open spec fn signed_decimal(s: Seq<char>) -> Option<int> {
    if s.len() > 0 && (s[0] == '+' || s[0] == '-') {
        let rest = s.drop_first();
        if rest.len() > 0 && all_digits(rest) {
            Some(
                if s[0] == '-' {
                    -digits_value(rest)
                } else {
                    digits_value(rest)
                },
            )
        } else {
            None
        }
    } else if s.len() > 0 && all_digits(s) {
        Some(digits_value(s))
    } else {
        None
    }
}

/// The integer that `str::parse` reads from `s` for an unsigned integer type,
/// before the range check: an optional `+` followed by one or more ASCII digits.
pub open spec fn unsigned_decimal(s: Seq<char>) -> Option<int> {
    if s.len() > 0 && s[0] == '-' {
        None
    } else {
        signed_decimal(s)
    }
}

/// `str::parse::<i32>` on `s`.
pub open spec fn parse_i32_spec(s: Seq<char>) -> Option<int> {
    match signed_decimal(s) {
        Some(v) => if i32::MIN <= v <= i32::MAX {
            Some(v)
        } else {
            None
        },
        None => None,
    }
}

/// `str::parse::<u32>` on `s`.
pub open spec fn parse_u32_spec(s: Seq<char>) -> Option<int> {
    match unsigned_decimal(s) {
        Some(v) => if 0 <= v <= u32::MAX {
            Some(v)
        } else {
            None
        },
        None => None,
    }
}

proof fn lemma_digits_value_nonneg(s: Seq<char>)
    requires
        all_digits(s),
    ensures
        digits_value(s) >= 0,
    decreases s.len(),
{
    if s.len() > 0 {
        assert(all_digits(s.drop_last()));
        lemma_digits_value_nonneg(s.drop_last());
    }
}

/// Up to three digits read at most 999 (two at most 99, one at most 9).
pub(crate) proof fn lemma_small_digits(s: Seq<char>)
    requires
        all_digits(s),
        s.len() <= 3,
    ensures
        0 <= digits_value(s) <= 999,
        s.len() <= 2 ==> digits_value(s) <= 99,
        s.len() <= 1 ==> digits_value(s) <= 9,
    decreases s.len(),
{
    if s.len() > 0 {
        assert(all_digits(s.drop_last()));
        lemma_small_digits(s.drop_last());
        assert(is_digit(s[s.len() - 1]));
    }
}

proof fn lemma_digits_value_grows(s: Seq<char>, k: int)
    requires
        all_digits(s),
        0 <= k <= s.len(),
    ensures
        digits_value(s) >= digits_value(s.take(k)),
    decreases s.len(),
{
    if k < s.len() {
        let p = s.drop_last();
        assert(all_digits(p));
        assert(s.take(k) =~= p.take(k));
        lemma_digits_value_grows(p, k);
        lemma_digits_value_nonneg(p);
    } else {
        assert(s.take(k) =~= s);
    }
}

/// Reads the digits `v[start..end]`; `None` when one is not a digit, when the
/// range is empty, or when the value exceeds `2^40`.
pub(crate) fn read_digits(v: &Vec<char>, start: usize, end: usize) -> (r: Option<i64>)
    requires
        start <= end <= v@.len(),
    ensures
        ({
            let s = v@.subrange(start as int, end as int);
            match r {
                Some(x) => s.len() > 0 && all_digits(s) && x as int == digits_value(s) && 0 <= x
                    <= 0x100_0000_0000,
                None => !(s.len() > 0 && all_digits(s)) || digits_value(s) > 0x100_0000_0000,
            }
        }),
{
    let ghost s = v@.subrange(start as int, end as int);
    if start == end {
        return None;
    }
    let mut acc: i64 = 0;
    let mut i = start;
    while i < end
        invariant
            start <= i <= end <= v@.len(),
            s == v@.subrange(start as int, end as int),
            all_digits(s.take(i - start)),
            acc as int == digits_value(s.take(i - start)),
            0 <= acc <= 0x100_0000_0000,
        decreases end - i,
    {
        let c = v[i];
        if !('0' <= c && c <= '9') {
            assert(s[i - start] == c);
            return None;
        }
        let d = (c as u32 - '0' as u32) as i64;
        let next = acc * 10 + d;
        proof {
            let t = s.take(i - start + 1);
            assert(t.drop_last() =~= s.take(i - start));
            assert(t.last() == c);
            assert(all_digits(t));
        }
        if next > 0x100_0000_0000 {
            proof {
                assert(all_digits(s.take(i - start + 1)));
                if all_digits(s) {
                    lemma_digits_value_grows(s, i - start + 1);
                }
            }
            return None;
        }
        acc = next;
        i += 1;
    }
    assert(s.take(end - start) =~= s);
    Some(acc)
}

/// Whether an optional exec integer equals an optional spec integer.
pub open spec fn same_int<T: Integer>(r: Option<T>, o: Option<int>) -> bool {
    match (r, o) {
        (Some(a), Some(b)) => a as int == b,
        (None, None) => true,
        _ => false,
    }
}

/// `str::parse::<i32>` on the characters `v[start..end]`.
pub fn parse_i32_at(v: &Vec<char>, start: usize, end: usize) -> (r: Option<i32>)
    requires
        start <= end <= v@.len(),
    ensures
        same_int(r, parse_i32_spec(v@.subrange(start as int, end as int))),
{
    let ghost s = v@.subrange(start as int, end as int);
    if start < end {
        assert(s[0] == v@[start as int]);
    }
    if start < end && (v[start] == '+' || v[start] == '-') {
        let neg = v[start] == '-';
        assert(v@.subrange(start + 1, end as int) =~= s.drop_first());
        match read_digits(v, start + 1, end) {
            Some(x) => {
                let val: i64 = if neg {
                    -x
                } else {
                    x
                };
                if val < i32::MIN as i64 || val > i32::MAX as i64 {
                    None
                } else {
                    Some(val as i32)
                }
            },
            None => None,
        }
    } else {
        match read_digits(v, start, end) {
            Some(x) => {
                if x > i32::MAX as i64 {
                    None
                } else {
                    Some(x as i32)
                }
            },
            None => None,
        }
    }
}

/// `str::parse::<u32>` on the characters `v[start..end]`.
pub fn parse_u32_at(v: &Vec<char>, start: usize, end: usize) -> (r: Option<u32>)
    requires
        start <= end <= v@.len(),
    ensures
        same_int(r, parse_u32_spec(v@.subrange(start as int, end as int))),
{
    let ghost s = v@.subrange(start as int, end as int);
    if start < end {
        assert(s[0] == v@[start as int]);
    }
    if start < end && v[start] == '-' {
        return None;
    }
    if start < end && v[start] == '+' {
        assert(v@.subrange(start + 1, end as int) =~= s.drop_first());
        match read_digits(v, start + 1, end) {
            Some(x) => {
                if x > u32::MAX as i64 {
                    None
                } else {
                    Some(x as u32)
                }
            },
            None => None,
        }
    } else {
        match read_digits(v, start, end) {
            Some(x) => {
                if x > u32::MAX as i64 {
                    None
                } else {
                    Some(x as u32)
                }
            },
            None => None,
        }
    }
}

/// Whether `s` begins with `p`.
pub open spec fn has_prefix(s: Seq<char>, p: Seq<char>) -> bool {
    p.len() <= s.len() && s.take(p.len() as int) == p
}

/// Whether `s` ends with `p`.
pub open spec fn has_suffix(s: Seq<char>, p: Seq<char>) -> bool {
    p.len() <= s.len() && s.skip(s.len() - p.len()) == p
}

/// Whether `s` begins with `p`.
pub fn str_starts_with(s: &str, p: &str) -> (r: bool)
    ensures
        r == has_prefix(s@, p@),
{
    let n = s.unicode_len();
    let m = p.unicode_len();
    if m > n {
        return false;
    }
    let mut i: usize = 0;
    while i < m
        invariant
            n == s@.len(),
            m == p@.len(),
            m <= n,
            i <= m,
            forall|j: int| 0 <= j < i ==> s@[j] == p@[j],
        decreases m - i,
    {
        if s.get_char(i) != p.get_char(i) {
            assert(s@.take(m as int)[i as int] != p@[i as int]);
            return false;
        }
        i += 1;
    }
    assert(s@.take(m as int) =~= p@);
    true
}

/// Whether `s` ends with `p`.
pub fn str_ends_with(s: &str, p: &str) -> (r: bool)
    ensures
        r == has_suffix(s@, p@),
{
    let n = s.unicode_len();
    let m = p.unicode_len();
    if m > n {
        return false;
    }
    let d = n - m;
    let mut i: usize = 0;
    while i < m
        invariant
            n == s@.len(),
            m == p@.len(),
            d == n - m,
            i <= m,
            forall|j: int| 0 <= j < i ==> s@[d + j] == p@[j],
        decreases m - i,
    {
        if s.get_char(d + i) != p.get_char(i) {
            assert(s@.skip(d as int)[i as int] != p@[i as int]);
            return false;
        }
        i += 1;
    }
    assert(s@.skip(d as int) =~= p@);
    true
}

} // verus!
