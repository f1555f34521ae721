//! Splitting character sequences into fields, as `str::split`,
//! `str::split_whitespace` and `Path::file_name` do.

use vstd::prelude::*;

verus! {

/// What separates two fields.
#[derive(Clone, Copy)]
pub enum Separator {
    /// One given character.
    Char(char),
    /// Any character for which `char::is_whitespace` holds.
    Whitespace,
}

/// `char::is_whitespace`: the characters with the Unicode `White_Space` property.
pub open spec fn is_white_space(c: char) -> bool {
    ||| ('\u{9}' <= c && c <= '\u{d}')
    ||| c == ' '
    ||| c == '\u{85}'
    ||| c == '\u{a0}'
    ||| c == '\u{1680}'
    ||| ('\u{2000}' <= c && c <= '\u{200a}')
    ||| c == '\u{2028}'
    ||| c == '\u{2029}'
    ||| c == '\u{202f}'
    ||| c == '\u{205f}'
    ||| c == '\u{3000}'
}

/// Whether `c` separates fields.
pub open spec fn separates(sep: Separator, c: char) -> bool {
    match sep {
        Separator::Char(x) => c == x,
        Separator::Whitespace => is_white_space(c),
    }
}

/// The fields of `s` between separators, empty ones included; the same
/// fields `str::split` yields (one field for an empty `s`).
pub open spec fn split_fields(s: Seq<char>, sep: Separator) -> Seq<Seq<char>>
    decreases s.len(),
{
    if s.len() == 0 {
        seq![Seq::<char>::empty()]
    } else {
        let p = split_fields(s.drop_last(), sep);
        if separates(sep, s.last()) {
            p.push(Seq::<char>::empty())
        } else {
            p.update(p.len() - 1, p.last().push(s.last()))
        }
    }
}

/// The non-empty whitespace-separated words of `s`, as `str::split_whitespace`
/// yields them.
pub open spec fn words(s: Seq<char>) -> Seq<Seq<char>> {
    keep_nonempty(split_fields(s, Separator::Whitespace))
}

/// The fields that are not empty, in order.
pub open spec fn keep_nonempty(fs: Seq<Seq<char>>) -> Seq<Seq<char>>
    decreases fs.len(),
{
    if fs.len() == 0 {
        Seq::empty()
    } else {
        let p = keep_nonempty(fs.drop_last());
        if fs.last().len() > 0 {
            p.push(fs.last())
        } else {
            p
        }
    }
}

/// The path pieces that are neither empty nor `.`, in order.
pub open spec fn keep_path_parts(fs: Seq<Seq<char>>) -> Seq<Seq<char>>
    decreases fs.len(),
{
    if fs.len() == 0 {
        Seq::empty()
    } else {
        let p = keep_path_parts(fs.drop_last());
        if fs.last().len() > 0 && fs.last() != seq!['.'] {
            p.push(fs.last())
        } else {
            p
        }
    }
}

/// The characters that each `(start, end)` range selects from `v`.
pub open spec fn ranges_view(v: Seq<char>, rs: Seq<(usize, usize)>) -> Seq<Seq<char>> {
    Seq::new(rs.len(), |k: int| v.subrange(rs[k].0 as int, rs[k].1 as int))
}

/// All ranges lie within `[start, end]` and are well ordered.
pub open spec fn ranges_within(rs: Seq<(usize, usize)>, start: int, end: int) -> bool {
    forall|k: int| 0 <= k < rs.len() ==> start <= #[trigger] rs[k].0 <= rs[k].1 <= end
}

pub proof fn lemma_split_fields_nonempty(s: Seq<char>, sep: Separator)
    ensures
        split_fields(s, sep).len() >= 1,
    decreases s.len(),
{
    if s.len() > 0 {
        lemma_split_fields_nonempty(s.drop_last(), sep);
    }
}

/// Whether `c` separates fields.
pub fn is_separator(sep: Separator, c: char) -> (r: bool)
    ensures
        r == separates(sep, c),
{
    match sep {
        Separator::Char(x) => c == x,
        Separator::Whitespace => {
            ('\u{9}' <= c && c <= '\u{d}') || c == ' ' || c == '\u{85}' || c == '\u{a0}' || c
                == '\u{1680}' || ('\u{2000}' <= c && c <= '\u{200a}') || c == '\u{2028}' || c
                == '\u{2029}' || c == '\u{202f}' || c == '\u{205f}' || c == '\u{3000}'
        },
    }
}

/// The ranges of the fields of `v[start..end]`.
pub fn split_ranges(v: &Vec<char>, start: usize, end: usize, sep: Separator) -> (out: Vec<
    (usize, usize),
>)
    requires
        start <= end <= v@.len(),
    ensures
        ranges_view(v@, out@) == split_fields(v@.subrange(start as int, end as int), sep),
        ranges_within(out@, start as int, end as int),
{
    let mut out: Vec<(usize, usize)> = Vec::new();
    let mut cur = start;
    let mut i = start;
    proof {
        assert(v@.subrange(start as int, start as int) =~= Seq::<char>::empty());
    }
    while i < end
        invariant
            start <= cur <= i <= end <= v@.len(),
            ranges_within(out@, start as int, cur as int),
            ranges_view(v@, out@).push(v@.subrange(cur as int, i as int)) == split_fields(
                v@.subrange(start as int, i as int),
                sep,
            ),
        decreases end - i,
    {
        let c = v[i];
        let ghost before = v@.subrange(start as int, i as int);
        let ghost after = v@.subrange(start as int, i + 1);
        let ghost old_out = out@;
        proof {
            assert(after.drop_last() =~= before);
            assert(after.last() == c);
            lemma_split_fields_nonempty(before, sep);
        }
        if is_separator(sep, c) {
            out.push((cur, i));
            cur = i + 1;
            proof {
                assert(ranges_view(v@, out@) =~= ranges_view(v@, old_out).push(
                    v@.subrange(out@.last().0 as int, i as int),
                ));
                assert(v@.subrange(cur as int, i + 1) =~= Seq::<char>::empty());
                assert(ranges_view(v@, out@).push(v@.subrange(cur as int, i + 1))
                    =~= split_fields(after, sep));
            }
        } else {
            proof {
                let p = split_fields(before, sep);
                assert(v@.subrange(cur as int, i + 1) =~= v@.subrange(cur as int, i as int).push(
                    c,
                ));
                assert(ranges_view(v@, out@).push(v@.subrange(cur as int, i + 1)) =~= p.update(
                    p.len() - 1,
                    p.last().push(c),
                ));
            }
        }
        i += 1;
    }
    let ghost old_out = out@;
    out.push((cur, end));
    proof {
        assert(ranges_view(v@, out@) =~= ranges_view(v@, old_out).push(
            v@.subrange(cur as int, end as int),
        ));
    }
    out
}

/// The ranges of the non-empty whitespace-separated words of `v[start..end]`.
pub fn word_ranges(v: &Vec<char>, start: usize, end: usize) -> (out: Vec<(usize, usize)>)
    requires
        start <= end <= v@.len(),
    ensures
        ranges_view(v@, out@) == words(v@.subrange(start as int, end as int)),
        ranges_within(out@, start as int, end as int),
{
    let fields = split_ranges(v, start, end, Separator::Whitespace);
    let ghost fs = ranges_view(v@, fields@);
    let mut out: Vec<(usize, usize)> = Vec::new();
    let mut k: usize = 0;
    proof {
        assert(fs.take(0) =~= Seq::<Seq<char>>::empty());
        assert(ranges_view(v@, out@) =~= keep_nonempty(fs.take(0)));
    }
    while k < fields.len()
        invariant
            fs == ranges_view(v@, fields@),
            start <= end <= v@.len(),
            ranges_within(fields@, start as int, end as int),
            k <= fields@.len(),
            ranges_within(out@, start as int, end as int),
            ranges_view(v@, out@) == keep_nonempty(fs.take(k as int)),
        decreases fields.len() - k,
    {
        let (a, b) = fields[k];
        let ghost old_out = out@;
        proof {
            assert(fields@[k as int] == (a, b));
            assert(start <= fields@[k as int].0 <= fields@[k as int].1 <= end);
            assert(fs.take(k + 1).drop_last() =~= fs.take(k as int));
            assert(fs[k as int] == v@.subrange(a as int, b as int));
        }
        if a < b {
            out.push((a, b));
            proof {
                assert(ranges_view(v@, out@) =~= ranges_view(v@, old_out).push(
                    v@.subrange(a as int, b as int),
                ));
            }
        }
        k += 1;
    }
    proof {
        assert(fs.take(fields@.len() as int) =~= fs);
    }
    out
}

/// The final component of a Unix path as `Path::file_name` gives it: the last
/// `/`-separated piece that is neither empty nor `.`, unless that piece is
/// `..` or there is none.
pub open spec fn path_file_name(s: Seq<char>) -> Option<Seq<char>> {
    let comps = keep_path_parts(split_fields(s, Separator::Char('/')));
    if comps.len() == 0 {
        None
    } else if comps.last() == seq!['.', '.'] {
        None
    } else {
        Some(comps.last())
    }
}

/// Appending text without separators extends the last field.
pub(crate) proof fn lemma_split_append(a: Seq<char>, b: Seq<char>, sep: Separator)
    requires
        forall|k: int| 0 <= k < b.len() ==> !separates(sep, #[trigger] b[k]),
    ensures
        split_fields(a + b, sep) == split_fields(a, sep).update(
            split_fields(a, sep).len() - 1,
            split_fields(a, sep).last() + b,
        ),
    decreases b.len(),
{
    lemma_split_fields_nonempty(a, sep);
    let q = split_fields(a, sep);
    if b.len() == 0 {
        assert(a + b =~= a);
        assert(q.last() + b =~= q.last());
        assert(q.update(q.len() - 1, q.last() + b) =~= q);
    } else {
        let b1 = b.drop_last();
        assert forall|k: int| 0 <= k < b1.len() implies !separates(sep, #[trigger] b1[k]) by {
            assert(b1[k] == b[k]);
        }
        lemma_split_append(a, b1, sep);
        assert((a + b).drop_last() =~= a + b1);
        assert((a + b).last() == b.last());
        assert(!separates(sep, b[b.len() - 1]));
        let p = split_fields(a + b1, sep);
        assert(p.last() == q.last() + b1);
        assert(p.last().push(b.last()) =~= q.last() + b);
        assert(p.update(p.len() - 1, p.last().push(b.last())) =~= q.update(q.len() - 1, q.last() + b));
    }
}

/// Three fields without separators, joined by a separator, split back into
/// those three.
pub(crate) proof fn lemma_split_three(x: Seq<char>, y: Seq<char>, z: Seq<char>, c: char, sep: Separator)
    requires
        separates(sep, c),
        forall|k: int| 0 <= k < x.len() ==> !separates(sep, #[trigger] x[k]),
        forall|k: int| 0 <= k < y.len() ==> !separates(sep, #[trigger] y[k]),
        forall|k: int| 0 <= k < z.len() ==> !separates(sep, #[trigger] z[k]),
    ensures
        split_fields(x + seq![c] + y + seq![c] + z, sep) == seq![x, y, z],
{
    let e = Seq::<char>::empty();
    assert(split_fields(e, sep) == seq![e]);
    lemma_split_append(e, x, sep);
    assert(e + x =~= x);
    assert(seq![e].update(0, e + x) =~= seq![x]);
    let xc = x + seq![c];
    assert(xc.drop_last() =~= x);
    assert(split_fields(xc, sep) == seq![x].push(e));
    lemma_split_append(xc, y, sep);
    assert(seq![x].push(e).update(1, e + y) =~= seq![x, y]);
    let xcy = xc + y;
    let xcyc = xcy + seq![c];
    assert(xcyc.drop_last() =~= xcy);
    assert(split_fields(xcyc, sep) == seq![x, y].push(e));
    lemma_split_append(xcyc, z, sep);
    assert(seq![x, y].push(e).update(2, e + z) =~= seq![x, y, z]);
}

/// No field of `s` split at `c` holds `c`.
pub(crate) proof fn lemma_fields_exclude(s: Seq<char>, c: char)
    ensures
        forall|k: int, j: int|
            0 <= k < split_fields(s, Separator::Char(c)).len() && 0 <= j < split_fields(
                s,
                Separator::Char(c),
            )[k].len() ==> #[trigger] split_fields(s, Separator::Char(c))[k][j] != c,
    decreases s.len(),
{
    if s.len() > 0 {
        lemma_fields_exclude(s.drop_last(), c);
        lemma_split_fields_nonempty(s.drop_last(), Separator::Char(c));
        let p = split_fields(s.drop_last(), Separator::Char(c));
        let f = split_fields(s, Separator::Char(c));
        if !separates(Separator::Char(c), s.last()) {
            assert forall|k: int, j: int| 0 <= k < f.len() && 0 <= j < f[k].len() implies #[trigger] f[k][j] != c by {
                if k == p.len() - 1 && j == p.last().len() {
                    assert(f[k][j] == s.last());
                } else if k == p.len() - 1 {
                    assert(f[k][j] == p[k][j]);
                } else {
                    assert(f[k] == p[k]);
                }
            }
        } else {
            assert forall|k: int, j: int| 0 <= k < f.len() && 0 <= j < f[k].len() implies #[trigger] f[k][j] != c by {
                if k < p.len() {
                    assert(f[k] == p[k]);
                }
            }
        }
    }
}

/// The kept path pieces are non-empty, not `.`, and each is one of the pieces.
pub(crate) proof fn lemma_kept_parts(fs: Seq<Seq<char>>)
    ensures
        forall|k: int|
            0 <= k < keep_path_parts(fs).len() ==> {
                &&& (#[trigger] keep_path_parts(fs)[k]).len() > 0
                &&& keep_path_parts(fs)[k] != seq!['.']
                &&& exists|m: int| 0 <= m < fs.len() && fs[m] == keep_path_parts(fs)[k]
            },
    decreases fs.len(),
{
    if fs.len() > 0 {
        lemma_kept_parts(fs.drop_last());
        let p = keep_path_parts(fs.drop_last());
        let q = keep_path_parts(fs);
        assert forall|k: int| 0 <= k < q.len() implies {
            &&& (#[trigger] q[k]).len() > 0
            &&& q[k] != seq!['.']
            &&& exists|m: int| 0 <= m < fs.len() && fs[m] == q[k]
        } by {
            if k < p.len() {
                assert(q[k] == p[k]);
                let m = choose|m: int| 0 <= m < fs.drop_last().len() && fs.drop_last()[m] == p[k];
                assert(fs[m] == q[k]);
            } else {
                assert(q[k] == fs.last());
                assert(fs[fs.len() - 1] == q[k]);
            }
        }
    }
}

/// The range of the final component of the path `v`, as `Path::file_name` gives it.
pub fn file_name_range(v: &Vec<char>) -> (r: Option<(usize, usize)>)
    ensures
        match r {
            Some((a, b)) => a <= b <= v@.len() && path_file_name(v@) == Some(
                v@.subrange(a as int, b as int),
            ),
            None => path_file_name(v@) is None,
        },
{
    let n = v.len();
    let fields = split_ranges(v, 0, n, Separator::Char('/'));
    proof {
        assert(v@.subrange(0, n as int) =~= v@);
    }
    let ghost fs = ranges_view(v@, fields@);
    let mut last: Option<(usize, usize)> = None;
    let mut k: usize = 0;
    proof {
        assert(fs.take(0) =~= Seq::<Seq<char>>::empty());
    }
    while k < fields.len()
        invariant
            fs == ranges_view(v@, fields@),
            ranges_within(fields@, 0, n as int),
            n == v@.len(),
            k <= fields@.len(),
            match last {
                Some((a, b)) => a <= b <= n && keep_path_parts(fs.take(k as int)).len() > 0
                    && keep_path_parts(fs.take(k as int)).last() == v@.subrange(a as int, b as int),
                None => keep_path_parts(fs.take(k as int)).len() == 0,
            },
        decreases fields.len() - k,
    {
        let (a, b) = fields[k];
        proof {
            assert(fields@[k as int] == (a, b));
            assert(0 <= fields@[k as int].0 <= fields@[k as int].1 <= n);
            assert(fs.take(k + 1).drop_last() =~= fs.take(k as int));
            assert(fs[k as int] == v@.subrange(a as int, b as int));
        }
        let is_dot = b - a == 1 && v[a] == '.';
        proof {
            if b == a + 1 {
                assert(v@.subrange(a as int, b as int) == seq!['.'] <==> v@[a as int] == '.') by {
                    if v@[a as int] == '.' {
                        assert(v@.subrange(a as int, b as int) =~= seq!['.']);
                    }
                    if v@.subrange(a as int, b as int) == seq!['.'] {
                        assert(v@.subrange(a as int, b as int)[0] == '.');
                    }
                }
            } else {
                assert(v@.subrange(a as int, b as int).len() != 1);
            }
        }
        if a < b && !is_dot {
            last = Some((a, b));
        }
        k += 1;
    }
    proof {
        assert(fs.take(fields@.len() as int) =~= fs);
    }
    match last {
        Some((a, b)) => {
            let is_dotdot = b - a == 2 && v[a] == '.' && v[a + 1] == '.';
            proof {
                let c = v@.subrange(a as int, b as int);
                if b == a + 2 {
                    if v@[a as int] == '.' && v@[a + 1] == '.' {
                        assert(c =~= seq!['.', '.']);
                    }
                    if c == seq!['.', '.'] {
                        assert(c[0] == '.' && c[1] == '.');
                    }
                } else {
                    assert(c.len() != 2);
                }
            }
            if is_dotdot {
                None
            } else {
                Some((a, b))
            }
        },
        None => None,
    }
}

} // verus!
