//! Properties that hold across the functions of the registry.
use vstd::prelude::*;

use crate::catalog::{
    card_of_match, category_label, count_before, is_card_of, is_detail_of, label_count,
    latest_count, manifest_key, match_count, matches_filter, versions_named,
};
use crate::latest::{is_latest, lemma_latest_unique};
use crate::model::{CategoryCount, LxsCard, LxsDetail, LxsDocs, LxsManifest};
use crate::semver::{
    all_digits, digits_value, dot_index, is_digit, lemma_dot_index_bound, newer, parse_u64, semver_of,
    split_dots, strip_v,
};
use crate::text::{ascii_fold, contains_text, eq_ignore_ascii_case, lowercase, lt_from, text_lt};

verus! {

/// "Newer than" on versions is a strict order, and any two versions either compare or
/// read as the same (major, minor, patch) triple.
pub proof fn lemma_newer_strict_total(a: Seq<char>, b: Seq<char>, c: Seq<char>)
    ensures
        !newer(a, a),
        newer(a, b) ==> !newer(b, a),
        newer(a, b) && newer(b, c) ==> newer(a, c),
        newer(a, b) || newer(b, a) || semver_of(a) == semver_of(b),
{
}

/// A leading `v` does not change the version that a string stands for.
pub proof fn lemma_leading_v_ignored(s: Seq<char>)
    ensures
        semver_of(seq!['v'] + s) == semver_of(s),
{
    assert((seq!['v'] + s).drop_first() =~= s);
}

/// The detail view of an LXS agrees with its browse card: the same version and summary,
/// and a docs bundle exactly when the card says docs are available, given that the docs
/// handed to the detail are present exactly where the card flags say so.
pub proof fn lemma_detail_agrees_with_card(
    ms: Seq<LxsManifest>,
    flags: Seq<bool>,
    docs: Seq<Option<LxsDocs>>,
    category: Seq<char>,
    q: Seq<char>,
    card: LxsCard,
    d: LxsDetail,
    i: int,
)
    requires
        flags.len() == ms.len(),
        docs.len() == ms.len(),
        forall|j: int| 0 <= j < ms.len() ==> (#[trigger] docs[j] is Some) == flags[j],
        card_of_match(ms, flags, category, q, card),
        0 <= i < ms.len(),
        is_latest(ms, i),
        card.name@ == ms[i].name@,
        is_detail_of(d, ms, i, docs[i]),
    ensures
        d.version == card.version,
        d.summary == card.summary,
        (d.docs is Some) == card.docs_available,
{
    let j = choose|j: int|
        #![trigger ms[j]]
        is_latest(ms, j) && matches_filter(ms[j], category, q) && is_card_of(card, ms[j], flags[j]);
    lemma_latest_unique(ms, i, j);
    assert(docs[i] is Some == flags[i]);
}

/// Without a category or a query, every latest version passes the filter, so the browse
/// list has one card per LXS, as many as the category counts add up to.
pub proof fn lemma_unfiltered_lists_all(ms: Seq<LxsManifest>, n: int)
    requires
        0 <= n,
    ensures
        forall|m: LxsManifest| #[trigger] matches_filter(m, Seq::empty(), Seq::empty()),
        match_count(ms, Seq::empty(), Seq::empty(), n) == latest_count(ms, n),
    decreases n,
{
    if n > 0 {
        lemma_unfiltered_lists_all(ms, n - 1);
        assert(matches_filter(ms[n - 1], Seq::empty(), Seq::empty()));
    }
}

/// Filtering the browse list by a category lists as many LXS as that category's count,
/// provided no other category of a latest version equals it up to ASCII case and it is not
/// the label that stands for an empty category.
pub proof fn lemma_category_filter_count(ms: Seq<LxsManifest>, label: Seq<char>, n: int)
    requires
        0 <= n <= ms.len(),
        label.len() > 0,
        forall|i: int|
            0 <= i < n && is_latest(ms, i) && eq_ignore_ascii_case(
                #[trigger] category_label(ms[i]),
                label,
            ) ==> category_label(ms[i]) == label,
        forall|i: int|
            0 <= i < n && is_latest(ms, i) && #[trigger] category_label(ms[i]) == label
                ==> ms[i].category@.len() > 0,
    ensures
        match_count(ms, label, Seq::empty(), n) == label_count(ms, label, n),
    decreases n,
{
    if n > 0 {
        let i = n - 1;
        let m = ms[i];
        if is_latest(ms, i) {
            if matches_filter(m, label, Seq::empty()) {
                assert(eq_ignore_ascii_case(m.category@, label));
                assert(m.category@.len() > 0);
                assert(category_label(m) == m.category@);
            }
            if category_label(m) == label {
                assert(m.category@.len() > 0);
                assert(m.category@ == label);
                assert(eq_ignore_ascii_case(m.category@, label));
            }
        }
        lemma_category_filter_count(ms, label, n - 1);
    }
}

/// The versions listed in the detail of an LXS include the version of every one of its
/// manifests.
pub proof fn lemma_versions_include(ms: Seq<LxsManifest>, i: int)
    requires
        0 <= i < ms.len(),
    ensures
        versions_named(ms, ms[i].name@).contains(ms[i].version),
    decreases ms.len(),
{
    let name = ms[i].name@;
    let rest = versions_named(ms.drop_last(), name);
    if i == ms.len() - 1 {
        assert(versions_named(ms, name) == rest.push(ms[i].version));
        assert(rest.push(ms[i].version)[rest.len() as int] == ms[i].version);
    } else {
        assert(ms.drop_last()[i] == ms[i]);
        lemma_versions_include(ms.drop_last(), i);
        let k = choose|k: int| 0 <= k < rest.len() && rest[k] == ms[i].version;
        if ms.last().name@ == name {
            assert(rest.push(ms.last().version)[k] == ms[i].version);
        }
    }
}

/// Versions compare as numbers, most significant field first: a larger major is newer; with
/// equal majors a larger minor is newer; with equal majors and minors, `a` is newer than `b`
/// exactly when its patch is the larger number.
pub proof fn lemma_newer_by_fields(a: Seq<char>, b: Seq<char>)
    ensures
        semver_of(a).0 > semver_of(b).0 ==> newer(a, b),
        semver_of(a).0 < semver_of(b).0 ==> !newer(a, b),
        semver_of(a).0 == semver_of(b).0 && semver_of(a).1 > semver_of(b).1 ==> newer(a, b),
        semver_of(a).0 == semver_of(b).0 && semver_of(a).1 < semver_of(b).1 ==> !newer(a, b),
        semver_of(a).0 == semver_of(b).0 && semver_of(a).1 == semver_of(b).1 ==> (newer(a, b)
            <==> semver_of(a).2 > semver_of(b).2),
{
}

/// Category entries are ordered by count, larger first; of two entries with equal counts,
/// the one whose name comes first in dictionary order is listed first, whatever the
/// lengths of the names.
pub proof fn lemma_count_order(a: CategoryCount, b: CategoryCount)
    ensures
        a.count > b.count ==> count_before(a, b),
        a.count < b.count ==> !count_before(a, b),
        a.count == b.count ==> (count_before(a, b) <==> text_lt(a.name@, b.name@)),
{
}

/// With a non-empty query and no category, a manifest passes the browse filter when the
/// lower-cased query occurs at any position of its lower-cased name, summary or domain.
pub proof fn lemma_query_matches_anywhere(m: LxsManifest, q: Seq<char>, i: int)
    requires
        q.len() > 0,
        0 <= i,
        ({
            let lq = lowercase(q);
            let hay = lowercase(m.name@);
            let sum = lowercase(m.summary@);
            let dom = lowercase(m.domain@);
            ||| i + lq.len() <= hay.len() && hay.subrange(i, i + lq.len()) == lq
            ||| i + lq.len() <= sum.len() && sum.subrange(i, i + lq.len()) == lq
            ||| i + lq.len() <= dom.len() && dom.subrange(i, i + lq.len()) == lq
        }),
    ensures
        matches_filter(m, Seq::empty(), q),
{
}

/// With a non-empty query and no category, a manifest passes the browse filter only when
/// the lower-cased query occurs somewhere in its lower-cased name, summary or domain.
pub proof fn lemma_query_match_has_occurrence(m: LxsManifest, q: Seq<char>)
    requires
        q.len() > 0,
        matches_filter(m, Seq::empty(), q),
    ensures
        exists|i: int|
            #![trigger lowercase(m.name@).subrange(i, i + lowercase(q).len())]
            0 <= i && {
                ||| i + lowercase(q).len() <= lowercase(m.name@).len() && lowercase(m.name@).subrange(
                    i,
                    i + lowercase(q).len(),
                ) == lowercase(q)
                ||| i + lowercase(q).len() <= lowercase(m.summary@).len() && lowercase(
                    m.summary@,
                ).subrange(i, i + lowercase(q).len()) == lowercase(q)
                ||| i + lowercase(q).len() <= lowercase(m.domain@).len() && lowercase(
                    m.domain@,
                ).subrange(i, i + lowercase(q).len()) == lowercase(q)
            },
{
    let lq = lowercase(q);
    if contains_text(lowercase(m.name@), lq) {
        let i = choose|i: int|
            0 <= i && i + lq.len() <= lowercase(m.name@).len() && #[trigger] lowercase(m.name@).subrange(i, i + lq.len()) == lq;
        assert(lowercase(m.name@).subrange(i, i + lq.len()) == lq);
    } else if contains_text(lowercase(m.summary@), lq) {
        let i = choose|i: int|
            0 <= i && i + lq.len() <= lowercase(m.summary@).len() && #[trigger] lowercase(m.summary@).subrange(i, i + lq.len()) == lq;
        assert(lowercase(m.name@).subrange(i, i + lq.len()) == lowercase(m.name@).subrange(i, i + lq.len()));
    } else {
        let i = choose|i: int|
            0 <= i && i + lq.len() <= lowercase(m.domain@).len() && #[trigger] lowercase(m.domain@).subrange(i, i + lq.len()) == lq;
        assert(lowercase(m.name@).subrange(i, i + lq.len()) == lowercase(m.name@).subrange(i, i + lq.len()));
    }
}

/// The scan key of a manifest is its name, a dash and its version, as written.
pub proof fn lemma_manifest_key_text(m: LxsManifest)
    ensures
        manifest_key(m) == m.name@ + seq!['-'] + m.version@,
{
    assert(m.name@.push('-') =~= m.name@ + seq!['-']);
}

/// An LXS with an empty category is listed under exactly `Uncategorized`, whatever its other
/// fields; any other category is listed as written.
pub proof fn lemma_category_label_text(m: LxsManifest)
    ensures
        m.category@.len() == 0 ==> category_label(m) == "Uncategorized"@,
        m.category@.len() > 0 ==> category_label(m) == m.category@,
{
}

/// Dictionary order, read at the first position `k` where the two texts part: a proper
/// prefix comes first, otherwise the smaller character there decides.
pub proof fn lemma_text_lt_at(a: Seq<char>, b: Seq<char>, k: int)
    requires
        0 <= k <= a.len(),
        k <= b.len(),
        a.take(k) == b.take(k),
    ensures
        k < a.len() && k < b.len() && a[k] != b[k] ==> (text_lt(a, b) <==> a[k] < b[k]),
        k == a.len() && k < b.len() ==> text_lt(a, b),
        k == b.len() ==> !text_lt(a, b),
{
    lemma_lt_from_prefix(a, b, 0, k);
}

proof fn lemma_lt_from_prefix(a: Seq<char>, b: Seq<char>, i: int, k: int)
    requires
        0 <= i <= k <= a.len(),
        k <= b.len(),
        a.take(k) == b.take(k),
    ensures
        lt_from(a, b, i as nat) == lt_from(a, b, k as nat),
    decreases k - i,
{
    if i < k {
        assert(a[i] == a.take(k)[i] && b[i] == b.take(k)[i]);
        lemma_lt_from_prefix(a, b, i + 1, k);
    }
}

/// Two characters are equal up to ASCII case exactly when they are the same character, or
/// the same ASCII letter in the two cases.
pub proof fn lemma_fold_eq_means(x: char, y: char)
    ensures
        ascii_fold(x) == ascii_fold(y) <==> {
            ||| x as u32 == y as u32
            ||| 'A' <= x <= 'Z' && y as u32 == x as u32 + 32
            ||| 'A' <= y <= 'Z' && x as u32 == y as u32 + 32
        },
{
    assert('A' as u32 == 65 && 'Z' as u32 == 90);
}

/// Equal up to ASCII case: the same length, and at each position the same character, or the
/// same ASCII letter in the two cases.
pub proof fn lemma_eq_ignore_ascii_case_means(a: Seq<char>, b: Seq<char>)
    ensures
        eq_ignore_ascii_case(a, b) <==> a.len() == b.len() && forall|i: int|
            0 <= i < a.len() ==> {
                ||| #[trigger] a[i] as u32 == b[i] as u32
                ||| 'A' <= a[i] <= 'Z' && b[i] as u32 == a[i] as u32 + 32
                ||| 'A' <= b[i] <= 'Z' && a[i] as u32 == b[i] as u32 + 32
            },
{
    assert forall|i: int| 0 <= i < a.len() implies (ascii_fold(#[trigger] a[i]) == ascii_fold(b[i])
        <==> {
        ||| a[i] as u32 == b[i] as u32
        ||| 'A' <= a[i] <= 'Z' && b[i] as u32 == a[i] as u32 + 32
        ||| 'A' <= b[i] <= 'Z' && a[i] as u32 == b[i] as u32 + 32
    }) by {
        lemma_fold_eq_means(a[i], b[i]);
    }
}

/// The decimal value of digits: appending a digit multiplies by ten and adds that digit,
/// which counts `'0'` as 0 through `'9'` as 9.
pub proof fn lemma_digits_value_push(s: Seq<char>, c: char)
    requires
        is_digit(c),
    ensures
        digits_value(s.push(c)) == digits_value(s) * 10 + (c as u32 - 48),
        (c as u32 - 48) < 10,
        digits_value(Seq::<char>::empty()) == 0,
{
    assert(s.push(c).drop_last() =~= s);
}

/// What counts as a digit: exactly the characters `'0'` to `'9'`.
pub proof fn lemma_is_digit_means(c: char)
    ensures
        is_digit(c) <==> 48 <= c as u32 <= 57,
{
}

/// A number with a `+` in front reads the same, and text holding a character other than a
/// digit (after an optional leading `+`) is not a number.
pub proof fn lemma_parse_u64_shape(d: Seq<char>)
    ensures
        d.len() > 0 && d[0] != '+' ==> parse_u64(seq!['+'] + d) == parse_u64(d),
        d.len() > 0 && d[0] != '+' && (exists|i: int| 0 <= i < d.len() && !is_digit(#[trigger] d[i]))
            ==> parse_u64(d) is None,
        parse_u64(Seq::<char>::empty()) is None,
        all_digits(d) && d.len() > 0 && digits_value(d) <= u64::MAX ==> parse_u64(d) == Some(
            digits_value(d) as u64,
        ),
        all_digits(d) && digits_value(d) > u64::MAX ==> parse_u64(d) is None,
{
    assert((seq!['+'] + d).drop_first() =~= d);
    if d.len() > 0 && d[0] != '+' && (exists|i: int| 0 <= i < d.len() && !is_digit(#[trigger] d[i])) {
        let i = choose|i: int| 0 <= i < d.len() && !is_digit(#[trigger] d[i]);
        assert(!all_digits(d));
    }
}

/// A version written as three dot-free pieces reads as those three pieces, each as a number
/// (0 when it is not one), whatever follows after a third dot.
pub proof fn lemma_semver_of_pieces(x: Seq<char>, y: Seq<char>, z: Seq<char>, rest: Seq<char>)
    requires
        forall|i: int| 0 <= i < x.len() ==> #[trigger] x[i] != '.',
        forall|i: int| 0 <= i < y.len() ==> #[trigger] y[i] != '.',
        forall|i: int| 0 <= i < z.len() ==> #[trigger] z[i] != '.',
        x.len() == 0 || x[0] != 'v',
        rest.len() == 0 || rest[0] == '.',
    ensures
        ({
            let v = x + seq!['.'] + y + seq!['.'] + z + rest;
            let num = |p: Seq<char>| match parse_u64(p) {
                Some(n) => n,
                None => 0u64,
            };
            semver_of(v) == (num(x), num(y), num(z))
        }),
{
    let v = x + seq!['.'] + y + seq!['.'] + z + rest;
    let v1 = y + seq!['.'] + z + rest;
    let v2 = z + rest;
    assert(v =~= x + (seq!['.'] + v1));
    assert(v1 =~= y + (seq!['.'] + v2));
    assert(v[x.len() as int] == '.');
    assert forall|i: int| 0 <= i < x.len() implies v[i] == x[i] by {}
    lemma_strip_v_none(v, x);
    lemma_split_at_piece(x, v1);
    lemma_split_at_piece(y, v2);
    lemma_split_first_piece(z, rest);
    let p2 = split_dots(v2);
    let p1 = split_dots(v1);
    let p = split_dots(v);
    assert(p1 =~= seq![y] + p2);
    assert(p =~= seq![x] + p1);
    assert(p[0] == x && p[1] == y && p[2] == z);
}

/// Text that does not start with `v` keeps its leading characters.
proof fn lemma_strip_v_none(v: Seq<char>, x: Seq<char>)
    requires
        v.len() > x.len(),
        v[x.len() as int] == '.',
        forall|i: int| 0 <= i < x.len() ==> v[i] == x[i],
        x.len() == 0 || x[0] != 'v',
    ensures
        strip_v(v) == v,
{
    if x.len() == 0 {
        assert(v[0] == '.');
    } else {
        assert(v[0] == x[0]);
    }
}

/// Splitting `x . t`, with `x` free of dots, gives the piece `x`, then the pieces of `t`.
proof fn lemma_split_at_piece(x: Seq<char>, t: Seq<char>)
    requires
        forall|i: int| 0 <= i < x.len() ==> #[trigger] x[i] != '.',
    ensures
        split_dots(x + (seq!['.'] + t)) == seq![x] + split_dots(t),
{
    let s = x + (seq!['.'] + t);
    lemma_dot_index_first(s, x.len() as int);
    assert(s.take(x.len() as int) =~= x);
    assert(s.skip(x.len() + 1int) =~= t);
}

/// The first piece of `z` followed by anything is `z`'s first piece when `z` is free of
/// dots and the rest is empty or starts with a dot.
proof fn lemma_split_first_piece(z: Seq<char>, rest: Seq<char>)
    requires
        forall|i: int| 0 <= i < z.len() ==> #[trigger] z[i] != '.',
    ensures
        split_dots(z + rest).len() >= 1,
        rest.len() == 0 || rest[0] == '.' ==> split_dots(z + rest)[0] == z,
{
    let s = z + rest;
    lemma_dot_index_bound(s);
    lemma_split_len(s);
    if rest.len() == 0 || rest[0] == '.' {
        lemma_dot_index_first(s, z.len() as int);
        assert(s.take(z.len() as int) =~= z);
        if dot_index(s) < s.len() {
        } else {
            assert(s =~= z);
        }
    }
}

proof fn lemma_split_len(s: Seq<char>)
    ensures
        split_dots(s).len() >= 1,
    decreases s.len(),
{
    lemma_dot_index_bound(s);
    if dot_index(s) < s.len() {
        lemma_split_len(s.skip(dot_index(s) + 1int));
    }
}

/// In text whose first `k` characters are not dots and whose character `k` is a dot (or
/// which ends at `k`), the first dot stands at `k`.
proof fn lemma_dot_index_first(s: Seq<char>, k: int)
    requires
        0 <= k <= s.len(),
        forall|j: int| 0 <= j < k ==> s[j] != '.',
        k == s.len() || s[k] == '.',
    ensures
        dot_index(s) == k,
    decreases k,
{
    if k > 0 {
        assert forall|j: int| 0 <= j < k - 1 implies s.drop_first()[j] != '.' by {
            assert(s.drop_first()[j] == s[j + 1]);
        }
        if k < s.len() {
            assert(s.drop_first()[k - 1] == s[k]);
        }
        lemma_dot_index_first(s.drop_first(), k - 1);
    }
}

/// The versions of a name over two lists, one after the other, are those of the first list
/// followed by those of the second; a single manifest contributes its version exactly when
/// it has the name. So the versions come in the order the manifests are listed.
pub proof fn lemma_versions_named_concat(a: Seq<LxsManifest>, b: Seq<LxsManifest>, name: Seq<char>)
    ensures
        versions_named(a + b, name) == versions_named(a, name) + versions_named(b, name),
        forall|m: LxsManifest|
            #[trigger] versions_named(seq![m], name) == if m.name@ == name {
                seq![m.version]
            } else {
                Seq::<String>::empty()
            },
    decreases b.len(),
{
    assert forall|m: LxsManifest|
        #[trigger] versions_named(seq![m], name) == if m.name@ == name {
            seq![m.version]
        } else {
            Seq::<String>::empty()
        } by {
        assert(seq![m].drop_last() =~= Seq::<LxsManifest>::empty());
        assert(versions_named(Seq::<LxsManifest>::empty(), name) == Seq::<String>::empty());
        if m.name@ == name {
            assert(Seq::<String>::empty().push(m.version) =~= seq![m.version]);
        }
    }
    if b.len() == 0 {
        assert(a + b =~= a);
        assert(versions_named(a, name) + Seq::<String>::empty() =~= versions_named(a, name));
    } else {
        lemma_versions_named_concat(a, b.drop_last(), name);
        assert((a + b).drop_last() =~= a + b.drop_last());
        assert((a + b).last() == b.last());
        let va = versions_named(a, name);
        let vb = versions_named(b.drop_last(), name);
        assert((va + vb).push(b.last().version) =~= va + vb.push(b.last().version));
    }
}

} // verus!
