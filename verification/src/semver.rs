//! Version strings of the form `v1.2.3`, read leniently as triples of numbers.
use vstd::prelude::*;

use crate::text::chars_of;

verus! {

/// `s` without its leading run of `'v'` characters.
pub open spec fn strip_v(s: Seq<char>) -> Seq<char>
    decreases s.len(),
{
    if s.len() > 0 && s[0] == 'v' {
        strip_v(s.drop_first())
    } else {
        s
    }
}

/// Position of the first `'.'` in `s`, or `s.len()` when there is none.
pub open spec fn dot_index(s: Seq<char>) -> nat
    decreases s.len(),
{
    if s.len() == 0 {
        0
    } else if s[0] == '.' {
        0
    } else {
        1 + dot_index(s.drop_first())
    }
}

pub proof fn lemma_dot_index_bound(s: Seq<char>)
    ensures
        dot_index(s) <= s.len(),
        dot_index(s) < s.len() ==> s[dot_index(s) as int] == '.',
        forall|j: int| 0 <= j < dot_index(s) ==> s[j] != '.',
    decreases s.len(),
{
    if s.len() > 0 && s[0] != '.' {
        lemma_dot_index_bound(s.drop_first());
        assert forall|j: int| 0 <= j < dot_index(s) implies s[j] != '.' by {
            if j > 0 {
                assert(s[j] == s.drop_first()[j - 1]);
            }
        }
    }
}

/// The pieces of `s` between `'.'` separators; an empty `s` gives one empty piece.
pub open spec fn split_dots(s: Seq<char>) -> Seq<Seq<char>>
    decreases s.len(),
{
    let i = dot_index(s);
    if i >= s.len() {
        seq![s]
    } else {
        proof {
            lemma_dot_index_bound(s);
        }
        seq![s.take(i as int)] + split_dots(s.skip(i + 1int))
    }
}

pub open spec fn is_digit(c: char) -> bool {
    '0' <= c && c <= '9'
}

pub open spec fn digit_value(c: char) -> nat {
    (c as u32 - '0' as u32) as nat
}

pub open spec fn all_digits(s: Seq<char>) -> bool {
    forall|i: int| 0 <= i < s.len() ==> is_digit(#[trigger] s[i])
}

/// The decimal number written by the digits of `s`.
pub open spec fn digits_value(s: Seq<char>) -> nat
    decreases s.len(),
{
    if s.len() == 0 {
        0
    } else {
        digits_value(s.drop_last()) * 10 + digit_value(s.last())
    }
}

/// What `str::parse::<u64>` accepts: an optional `'+'`, then one or more decimal
/// digits whose value fits in a `u64`.
pub open spec fn parse_u64(s: Seq<char>) -> Option<u64> {
    let d = if s.len() > 0 && s[0] == '+' {
        s.drop_first()
    } else {
        s
    };
    if d.len() > 0 && all_digits(d) && digits_value(d) <= u64::MAX {
        Some(digits_value(d) as u64)
    } else {
        None
    }
}

/// Piece `k` of the version `s` as a number; a missing or unreadable piece counts as 0.
pub open spec fn version_field(s: Seq<char>, k: nat) -> u64 {
    let parts = split_dots(strip_v(s));
    if k < parts.len() {
        match parse_u64(parts[k as int]) {
            Some(n) => n,
            None => 0,
        }
    } else {
        0
    }
}

/// The (major, minor, patch) triple that a version string stands for.
pub open spec fn semver_of(s: Seq<char>) -> (u64, u64, u64) {
    (version_field(s, 0), version_field(s, 1), version_field(s, 2))
}

/// Lexicographic "greater than" on triples.
pub open spec fn triple_gt(a: (u64, u64, u64), b: (u64, u64, u64)) -> bool {
    a.0 > b.0 || (a.0 == b.0 && (a.1 > b.1 || (a.1 == b.1 && a.2 > b.2)))
}

/// Version `a` is strictly newer than version `b`.
pub open spec fn newer(a: Seq<char>, b: Seq<char>) -> bool {
    triple_gt(semver_of(a), semver_of(b))
}

proof fn lemma_strip_v(s: Seq<char>, k: int)
    requires
        0 <= k <= s.len(),
        forall|j: int| 0 <= j < k ==> s[j] == 'v',
        k == s.len() || s[k] != 'v',
    ensures
        strip_v(s) == s.skip(k),
    decreases k,
{
    if k > 0 {
        assert forall|j: int| 0 <= j < k - 1 implies s.drop_first()[j] == 'v' by {
            assert(s.drop_first()[j] == s[j + 1]);
        }
        if k < s.len() {
            assert(s.drop_first()[k - 1] == s[k]);
        }
        lemma_strip_v(s.drop_first(), k - 1);
        assert(s.drop_first().skip(k - 1) =~= s.skip(k));
    } else {
        assert(s.skip(0) =~= s);
    }
}

proof fn lemma_dot_index_at(s: Seq<char>, k: int)
    requires
        0 <= k <= s.len(),
        forall|j: int| 0 <= j < k ==> s[j] != '.',
        k == s.len() || s[k] == '.',
    ensures
        dot_index(s) == k,
    decreases k,
{
    if k > 0 {
        assert forall|j: int| 0 <= j < k - 1 implies s.drop_first()[j] != '.' by {
            assert(s.drop_first()[j] == s[j + 1]);
        }
        if k < s.len() {
            assert(s.drop_first()[k - 1] == s[k]);
        }
        lemma_dot_index_at(s.drop_first(), k - 1);
    }
}

proof fn lemma_split_unfold(s: Seq<char>)
    ensures
        split_dots(s).len() >= 1,
        split_dots(s)[0] == s.take(dot_index(s) as int),
        dot_index(s) == s.len() ==> split_dots(s).len() == 1,
        dot_index(s) < s.len() ==> {
            let rest = split_dots(s.skip(dot_index(s) + 1int));
            &&& split_dots(s).len() == 1 + rest.len()
            &&& forall|k: int| 1 <= k < split_dots(s).len() ==> split_dots(s)[k] == rest[k - 1]
        },
    decreases s.len(),
{
    lemma_dot_index_bound(s);
    if dot_index(s) >= s.len() {
        assert(s.take(s.len() as int) =~= s);
    } else {
        lemma_split_unfold(s.skip(dot_index(s) + 1int));
    }
}

proof fn lemma_digits_monotone(s: Seq<char>, k: int)
    requires
        0 <= k <= s.len(),
    ensures
        digits_value(s.take(k)) <= digits_value(s),
    decreases s.len(),
{
    if k < s.len() {
        lemma_digits_monotone(s.drop_last(), k);
        assert(s.drop_last().take(k) =~= s.take(k));
    } else {
        assert(s.take(k) =~= s);
    }
}

/// Index of the first `'.'` at or after `start`, or `c.len()`.
fn next_dot(c: &Vec<char>, start: usize) -> (r: usize)
    requires
        start <= c.len(),
    ensures
        r == start + dot_index(c@.subrange(start as int, c.len() as int)),
        start <= r <= c.len(),
{
    let n = c.len();
    let mut i = start;
    while i < n && c[i] != '.'
        invariant
            start <= i <= n,
            n == c.len(),
            forall|j: int| start <= j < i ==> c@[j] != '.',
        decreases n - i,
    {
        i = i + 1;
    }
    proof {
        let s = c@.subrange(start as int, n as int);
        assert forall|j: int| 0 <= j < i - start implies s[j] != '.' by {
            assert(s[j] == c@[start + j]);
        }
        if i < n {
            assert(s[i - start] == c@[i as int]);
        }
        lemma_dot_index_at(s, i - start);
    }
    i
}

/// `str::parse::<u64>` on the characters `c[start..end]`.
fn parse_u64_range(c: &Vec<char>, start: usize, end: usize) -> (r: Option<u64>)
    requires
        start <= end <= c.len(),
    ensures
        r == parse_u64(c@.subrange(start as int, end as int)),
{
    let ghost s = c@.subrange(start as int, end as int);
    let mut i = start;
    if i < end && c[i] == '+' {
        i = i + 1;
    }
    let ds = i;
    let ghost d = c@.subrange(ds as int, end as int);
    proof {
        if start < end && c@[start as int] == '+' {
            assert(s.drop_first() =~= d);
        } else {
            assert(s =~= d);
        }
    }
    if ds == end {
        return None;
    }
    let mut acc: u64 = 0;
    while i < end
        invariant
            ds <= i <= end <= c.len(),
            d == c@.subrange(ds as int, end as int),
            d.len() > 0,
            s == c@.subrange(start as int, end as int),
            parse_u64(s) == (if all_digits(d) && digits_value(d) <= u64::MAX {
                Some(digits_value(d) as u64)
            } else {
                None::<u64>
            }),
            all_digits(d.take(i - ds)),
            acc == digits_value(d.take(i - ds)),
        decreases end - i,
    {
        let ch = c[i];
        let ghost k = i - ds;
        assert(d[k] == ch);
        assert(d.take(k + 1).drop_last() =~= d.take(k));
        assert(d.take(k + 1).last() == ch);
        if !('0' <= ch && ch <= '9') {
            assert(!all_digits(d)) by {
                assert(!is_digit(d[k]));
            }
            return None;
        }
        let dv = (ch as u32 - '0' as u32) as u64;
        assert(dv == digit_value(ch));
        match acc.checked_mul(10) {
            Some(m) => match m.checked_add(dv) {
                Some(a) => {
                    acc = a;
                },
                None => {
                    proof {
                        if all_digits(d) {
                            lemma_digits_monotone(d, k + 1);
                        }
                    }
                    return None;
                },
            },
            None => {
                proof {
                    if all_digits(d) {
                        lemma_digits_monotone(d, k + 1);
                    }
                }
                return None;
            },
        }
        i = i + 1;
        assert forall|j: int| 0 <= j < i - ds implies is_digit(#[trigger] d.take(i - ds)[j]) by {
            if j < k {
                assert(d.take(i - ds)[j] == d.take(k)[j]);
            }
        }
    }
    assert(d.take(end - ds) =~= d);
    Some(acc)
}

/// The number written by `c[start..end]`, or 0 when it is not one.
fn field_value(c: &Vec<char>, start: usize, end: usize) -> (r: u64)
    requires
        start <= end <= c.len(),
    ensures
        r == match parse_u64(c@.subrange(start as int, end as int)) {
            Some(n) => n,
            None => 0,
        },
{
    match parse_u64_range(c, start, end) {
        Some(n) => n,
        None => 0,
    }
}

/// Reads a version string as (major, minor, patch): leading `'v'`s are dropped, the rest
/// is split at `'.'`, and each of the first three pieces is read as a `u64`, with 0 for a
/// piece that is missing or is not a number. Pieces after the third are ignored.
pub fn parse_semver(v: &str) -> (r: (u64, u64, u64))
    ensures
        r == semver_of(v@),
{
    let c = chars_of(v);
    let n = c.len();
    let mut s0: usize = 0;
    while s0 < n && c[s0] == 'v'
        invariant
            s0 <= n,
            n == c.len(),
            forall|j: int| 0 <= j < s0 ==> c@[j] == 'v',
        decreases n - s0,
    {
        s0 = s0 + 1;
    }
    let ghost t = c@.subrange(s0 as int, n as int);
    proof {
        lemma_strip_v(c@, s0 as int);
        assert(c@.skip(s0 as int) =~= t);
        lemma_split_unfold(t);
    }
    let e0 = next_dot(&c, s0);
    let f0 = field_value(&c, s0, e0);
    proof {
        assert(t.take(e0 - s0) =~= c@.subrange(s0 as int, e0 as int));
    }
    if e0 == n {
        return (f0, 0, 0);
    }
    let s1 = e0 + 1;
    let ghost t1 = c@.subrange(s1 as int, n as int);
    proof {
        assert(t.skip(e0 - s0 + 1) =~= t1);
        lemma_split_unfold(t1);
    }
    let e1 = next_dot(&c, s1);
    let f1 = field_value(&c, s1, e1);
    proof {
        assert(t1.take(e1 - s1) =~= c@.subrange(s1 as int, e1 as int));
    }
    if e1 == n {
        return (f0, f1, 0);
    }
    let s2 = e1 + 1;
    let ghost t2 = c@.subrange(s2 as int, n as int);
    proof {
        assert(t1.skip(e1 - s1 + 1) =~= t2);
        lemma_split_unfold(t2);
    }
    let e2 = next_dot(&c, s2);
    let f2 = field_value(&c, s2, e2);
    proof {
        assert(t2.take(e2 - s2) =~= c@.subrange(s2 as int, e2 as int));
    }
    (f0, f1, f2)
}

/// Whether version `a` is strictly newer than version `b`, comparing the triples that
/// `parse_semver` reads from them, most significant first.
pub fn semver_gt(a: &str, b: &str) -> (r: bool)
    ensures
        r == newer(a@, b@),
{
    let pa = parse_semver(a);
    let pb = parse_semver(b);
    pa.0 > pb.0 || (pa.0 == pb.0 && (pa.1 > pb.1 || (pa.1 == pb.1 && pa.2 > pb.2)))
}

} // verus!
