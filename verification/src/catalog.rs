//! The category counts, browse cards and detail views built from the latest version of
//! each LXS, and the orders in which they are listed.
use vstd::prelude::*;

use crate::model::{CategoryCount, LookupError, LxsCard, LxsDetail, LxsDocs, LxsManifest, copy_strings};
use crate::order::{SortKey, lemma_same_elements, sort_by_key};
use crate::latest::{find_latest, is_latest, latest_flags, lemma_latest_unique};
use crate::text::{
    chars_contain, chars_lt, chars_of, contains_text, eq_ignore_ascii_case, lemma_lt_from_transitive,
    lemma_text_lt_strict_total, lowercase, lowercase_chars, str_eq_ignore_ascii_case, str_lt, text_lt,
};

verus! {

broadcast use vstd::seq_lib::group_to_multiset_ensures;

/// The category that an LXS is listed under; an empty one reads `Uncategorized`.
pub open spec fn category_label(m: LxsManifest) -> Seq<char> {
    if m.category@.len() == 0 {
        "Uncategorized"@
    } else {
        m.category@
    }
}

/// How many of the first `n` manifests are latest versions listed under `label`.
pub open spec fn label_count(ms: Seq<LxsManifest>, label: Seq<char>, n: int) -> nat
    decreases n,
{
    if n <= 0 {
        0
    } else {
        label_count(ms, label, n - 1) + if is_latest(ms, n - 1) && category_label(ms[n - 1])
            == label {
            1nat
        } else {
            0nat
        }
    }
}

/// How many of the first `n` manifests are latest versions.
pub open spec fn latest_count(ms: Seq<LxsManifest>, n: int) -> nat
    decreases n,
{
    if n <= 0 {
        0
    } else {
        latest_count(ms, n - 1) + if is_latest(ms, n - 1) {
            1nat
        } else {
            0nat
        }
    }
}

/// The browse filter: `category` (when given) equals the manifest's category up to ASCII
/// case, and the query (when given), lower-cased, occurs in the lower-cased name, summary
/// or domain.
pub open spec fn matches_filter(m: LxsManifest, category: Seq<char>, q: Seq<char>) -> bool {
    &&& (category.len() == 0 || eq_ignore_ascii_case(m.category@, category))
    &&& (q.len() == 0 || contains_text(lowercase(m.name@), lowercase(q))
        || contains_text(lowercase(m.summary@), lowercase(q)) || contains_text(
        lowercase(m.domain@),
        lowercase(q),
    ))
}

/// How many of the first `n` manifests are latest versions that pass the filter.
pub open spec fn match_count(ms: Seq<LxsManifest>, category: Seq<char>, q: Seq<char>, n: int) -> nat
    decreases n,
{
    if n <= 0 {
        0
    } else {
        match_count(ms, category, q, n - 1) + if is_latest(ms, n - 1) && matches_filter(
            ms[n - 1],
            category,
            q,
        ) {
            1nat
        } else {
            0nat
        }
    }
}

/// `c` is the browse card of manifest `m`, whose docs bundle is present iff `docs`.
pub open spec fn is_card_of(c: LxsCard, m: LxsManifest, docs: bool) -> bool {
    &&& c.name == m.name
    &&& c.version == m.version
    &&& c.category@ == category_label(m)
    &&& c.status == m.status
    &&& c.publisher == m.publisher
    &&& c.summary == m.summary
    &&& c.runtime == m.runtime.base
    &&& c.targets@ == m.targets@
    &&& c.source == m.provenance.source
    &&& c.commit == m.provenance.commit
    &&& c.docs_available == docs
}

/// The versions of the manifests named `name`, in the order listed.
pub open spec fn versions_named(ms: Seq<LxsManifest>, name: Seq<char>) -> Seq<String>
    decreases ms.len(),
{
    if ms.len() == 0 {
        Seq::empty()
    } else {
        let rest = versions_named(ms.drop_last(), name);
        if ms.last().name@ == name {
            rest.push(ms.last().version)
        } else {
            rest
        }
    }
}

/// Sort key of a manifest in a registry scan: its name, a dash, its version.
pub open spec fn manifest_key(m: LxsManifest) -> Seq<char> {
    m.name@.push('-') + m.version@
}

/// Order of category counts: larger counts first, then names in dictionary order.
pub open spec fn count_before(a: CategoryCount, b: CategoryCount) -> bool {
    a.count > b.count || (a.count == b.count && text_lt(a.name@, b.name@))
}

impl SortKey for CategoryCount {
    open spec fn before(a: Self, b: Self) -> bool {
        count_before(a, b)
    }

    proof fn lemma_before_irreflexive(a: Self) {
        lemma_text_lt_strict_total(a.name@, a.name@);
    }

    proof fn lemma_before_transitive(a: Self, b: Self, c: Self) {
        if a.count == b.count && b.count == c.count {
            lemma_lt_from_transitive(a.name@, b.name@, c.name@, 0);
        }
    }

    fn goes_before(&self, other: &Self) -> (r: bool) {
        self.count > other.count || (self.count == other.count && str_lt(
            self.name.as_str(),
            other.name.as_str(),
        ))
    }
}

impl SortKey for LxsCard {
    open spec fn before(a: Self, b: Self) -> bool {
        text_lt(a.name@, b.name@)
    }

    proof fn lemma_before_irreflexive(a: Self) {
        lemma_text_lt_strict_total(a.name@, a.name@);
    }

    proof fn lemma_before_transitive(a: Self, b: Self, c: Self) {
        lemma_lt_from_transitive(a.name@, b.name@, c.name@, 0);
    }

    fn goes_before(&self, other: &Self) -> (r: bool) {
        str_lt(self.name.as_str(), other.name.as_str())
    }
}

impl SortKey for LxsManifest {
    open spec fn before(a: Self, b: Self) -> bool {
        text_lt(manifest_key(a), manifest_key(b))
    }

    proof fn lemma_before_irreflexive(a: Self) {
        lemma_text_lt_strict_total(manifest_key(a), manifest_key(a));
    }

    proof fn lemma_before_transitive(a: Self, b: Self, c: Self) {
        lemma_lt_from_transitive(manifest_key(a), manifest_key(b), manifest_key(c), 0);
    }

    fn goes_before(&self, other: &Self) -> (r: bool) {
        let ka = key_chars(self);
        let kb = key_chars(other);
        chars_lt(&ka, &kb)
    }
}

impl SortKey for String {
    open spec fn before(a: Self, b: Self) -> bool {
        text_lt(a@, b@)
    }

    proof fn lemma_before_irreflexive(a: Self) {
        lemma_text_lt_strict_total(a@, a@);
    }

    proof fn lemma_before_transitive(a: Self, b: Self, c: Self) {
        lemma_lt_from_transitive(a@, b@, c@, 0);
    }

    fn goes_before(&self, other: &Self) -> (r: bool) {
        str_lt(self.as_str(), other.as_str())
    }
}

/// The characters of the scan key of `m`.
fn key_chars(m: &LxsManifest) -> (r: Vec<char>)
    ensures
        r@ == manifest_key(*m),
{
    let mut k = chars_of(m.name.as_str());
    k.push('-');
    let mut v = chars_of(m.version.as_str());
    k.append(&mut v);
    k
}

/// The category label of `m`.
fn label_of(m: &LxsManifest) -> (r: String)
    ensures
        r@ == category_label(*m),
{
    if m.category.as_str().is_empty() {
        String::from_str("Uncategorized")
    } else {
        m.category.clone()
    }
}

/// Every label with a positive count among the first `n` manifests is listed in `r`.
pub open spec fn covers_labels(ms: Seq<LxsManifest>, r: Seq<CategoryCount>, n: int) -> bool {
    forall|label: Seq<char>|
        #![trigger label_count(ms, label, n)]
        label_count(ms, label, n) > 0 ==> lists_label(r, label)
}

/// The sum of the counts in `r`.
pub open spec fn total_count(r: Seq<CategoryCount>) -> nat
    decreases r.len(),
{
    if r.len() == 0 {
        0
    } else {
        total_count(r.drop_last()) + r.last().count as nat
    }
}

proof fn lemma_total_count_remove(r: Seq<CategoryCount>, j: int)
    requires
        0 <= j < r.len(),
    ensures
        total_count(r) == total_count(r.remove(j)) + r[j].count,
    decreases r.len(),
{
    if j < r.len() - 1 {
        lemma_total_count_remove(r.drop_last(), j);
        assert(r.remove(j).drop_last() =~= r.drop_last().remove(j));
        assert(r.remove(j).last() == r.last());
    } else {
        assert(r.remove(j) =~= r.drop_last());
    }
}

proof fn lemma_total_count_update(r: Seq<CategoryCount>, j: int, c: CategoryCount)
    requires
        0 <= j < r.len(),
    ensures
        total_count(r.update(j, c)) + r[j].count == total_count(r) + c.count,
{
    lemma_total_count_remove(r, j);
    lemma_total_count_remove(r.update(j, c), j);
    assert(r.update(j, c).remove(j) =~= r.remove(j));
}

/// Rearranging the entries keeps the sum of the counts.
pub proof fn lemma_total_count_same_elements(a: Seq<CategoryCount>, b: Seq<CategoryCount>)
    requires
        a.to_multiset() == b.to_multiset(),
    ensures
        total_count(a) == total_count(b),
    decreases a.len(),
{
    lemma_same_elements(a, b);
    if a.len() > 0 {
        let x = a.last();
        assert(a.contains(x)) by {
            assert(a[a.len() - 1] == x);
        }
        assert(b.contains(x));
        let j = choose|j: int| 0 <= j < b.len() && b[j] == x;
        lemma_total_count_remove(b, j);
        assert(a =~= a.drop_last().push(x));
        assert(a.to_multiset() =~= a.drop_last().to_multiset().insert(x));
        assert(b.remove(j).to_multiset() =~= b.to_multiset().remove(x));
        assert(a.drop_last().to_multiset() =~= b.remove(j).to_multiset());
        lemma_total_count_same_elements(a.drop_last(), b.remove(j));
    }
}

proof fn lemma_latest_count_step(ms: Seq<LxsManifest>, i: int)
    requires
        0 <= i,
    ensures
        latest_count(ms, i + 1) == latest_count(ms, i) + if is_latest(ms, i) {
            1nat
        } else {
            0nat
        },
{
}

/// Some entry of `r` is named `label`.
pub open spec fn lists_label(r: Seq<CategoryCount>, label: Seq<char>) -> bool {
    exists|k: int| 0 <= k < r.len() && #[trigger] r[k].name@ == label
}

proof fn lemma_label_count_step(ms: Seq<LxsManifest>, label: Seq<char>, i: int)
    requires
        0 <= i,
    ensures
        label_count(ms, label, i + 1) == label_count(ms, label, i) + if is_latest(ms, i)
            && category_label(ms[i]) == label {
            1nat
        } else {
            0nat
        },
{
}

proof fn lemma_label_count_bound(ms: Seq<LxsManifest>, label: Seq<char>, i: int)
    requires
        0 <= i,
    ensures
        label_count(ms, label, i) <= i,
    decreases i,
{
    if i > 0 {
        lemma_label_count_bound(ms, label, i - 1);
    }
}

#[verifier::loop_isolation(false)]
/// Category counts over the latest version of each LXS: one entry per category label
/// (an empty category reads `Uncategorized`), with the number of LXS listed under it,
/// ordered by count (largest first), then by name.
pub fn categories(manifests: &Vec<LxsManifest>) -> (r: Vec<CategoryCount>)
    ensures
        forall|k: int|
            0 <= k < r.len() ==> #[trigger] r@[k].count == label_count(
                manifests@,
                r@[k].name@,
                manifests.len() as int,
            ),
        forall|k: int| 0 <= k < r.len() ==> #[trigger] r@[k].count > 0,
        forall|a: int, b: int|
            0 <= a < b < r.len() ==> #[trigger] r@[a].name@ != #[trigger] r@[b].name@,
        forall|i: int|
            0 <= i < manifests.len() && is_latest(manifests@, i) ==> #[trigger] lists_label(
                r@,
                category_label(manifests@[i]),
            ),
        forall|a: int, b: int|
            0 <= a < b < r.len() ==> count_before(#[trigger] r@[a], #[trigger] r@[b]),
        forall|a: int, b: int|
            0 <= a < b < r.len() ==> #[trigger] r@[a].count >= #[trigger] r@[b].count,
        forall|a: int, b: int|
            0 <= a < b < r.len() && #[trigger] r@[a].count == #[trigger] r@[b].count ==> text_lt(
                r@[a].name@,
                r@[b].name@,
            ),
        total_count(r@) == latest_count(manifests@, manifests.len() as int),
{
    let ghost ms = manifests@;
    let n = manifests.len();
    let flags = latest_flags(manifests);
    let mut r: Vec<CategoryCount> = Vec::new();
    assert(total_count(r@) == 0);
    for i in 0..n
        invariant
            n == manifests.len(),
            ms == manifests@,
            flags.len() == n,
            forall|x: int| 0 <= x < n ==> #[trigger] flags@[x] == is_latest(ms, x),
            forall|k: int|
                0 <= k < r.len() ==> #[trigger] r@[k].count == label_count(ms, r@[k].name@, i as int),
            forall|k: int| 0 <= k < r.len() ==> #[trigger] r@[k].count > 0,
            forall|a: int, b: int|
                0 <= a < b < r.len() ==> #[trigger] r@[a].name@ != #[trigger] r@[b].name@,
            covers_labels(ms, r@, i as int),
            total_count(r@) == latest_count(ms, i as int),
    {
        proof {
            lemma_latest_count_step(ms, i as int);
        }
        if flags[i] {
            let label = label_of(&manifests[i]);
            let mut k: usize = 0;
            while k < r.len() && r[k].name != label
                invariant
                    k <= r.len(),
                    forall|kk: int| 0 <= kk < k ==> r@[kk].name@ != label@,
                decreases r.len() - k,
            {
                k = k + 1;
            }
            let ghost old_r = r@;
            proof {
                assert forall|l: Seq<char>| #[trigger] label_count(ms, l, i + 1) == label_count(ms, l, i as int)
                    + if l == label@ { 1nat } else { 0nat } by {
                    lemma_label_count_step(ms, l, i as int);
                }
            }
            if k < r.len() {
                let mut c = r.remove(k);
                proof {
                    lemma_label_count_bound(ms, label@, i as int);
                }
                c.count = c.count + 1;
                r.insert(k, c);
                proof {
                    assert(r@ =~= old_r.update(k as int, c));
                    lemma_total_count_update(old_r, k as int, c);
                    assert forall|kk: int| 0 <= kk < r.len() implies #[trigger] r@[kk].count
                        == label_count(ms, r@[kk].name@, i + 1) by {
                        if kk != k {
                            assert(r@[kk] == old_r[kk]);
                        }
                    }
                    assert forall|a: int, b: int| 0 <= a < b < r.len() implies #[trigger] r@[a].name@
                        != #[trigger] r@[b].name@ by {
                        assert(r@[a].name@ == old_r[a].name@);
                        assert(r@[b].name@ == old_r[b].name@);
                    }
                    assert forall|l: Seq<char>| #[trigger] label_count(ms, l, i + 1) > 0 implies lists_label(r@, l) by {
                        if l == label@ {
                            assert(r@[k as int].name@ == l);
                        } else {
                            assert(label_count(ms, l, i as int) > 0);
                            assert(lists_label(old_r, l));
                            let kk = choose|kk: int| 0 <= kk < old_r.len() && #[trigger] old_r[kk].name@ == l;
                            assert(r@[kk].name@ == old_r[kk].name@);
                        }
                    }
                }
            } else {
                proof {
                    if label_count(ms, label@, i as int) > 0 {
                        assert(lists_label(old_r, label@));
                        let kk = choose|kk: int| 0 <= kk < old_r.len() && #[trigger] old_r[kk].name@ == label@;
                        assert(false);
                    }
                }
                r.push(CategoryCount { name: label, count: 1 });
                proof {
                    assert(r@.drop_last() =~= old_r);
                    assert forall|kk: int| 0 <= kk < r.len() implies #[trigger] r@[kk].count
                        == label_count(ms, r@[kk].name@, i + 1) by {
                        if kk < old_r.len() {
                            assert(r@[kk] == old_r[kk]);
                        }
                    }
                    assert forall|a: int, b: int| 0 <= a < b < r.len() implies #[trigger] r@[a].name@
                        != #[trigger] r@[b].name@ by {
                        assert(r@[a] == old_r[a]);
                        if b < old_r.len() {
                            assert(r@[b] == old_r[b]);
                        }
                    }
                    assert forall|l: Seq<char>| #[trigger] label_count(ms, l, i + 1) > 0 implies lists_label(r@, l) by {
                        if l == label@ {
                            assert(r@[old_r.len() as int].name@ == l);
                        } else {
                            assert(label_count(ms, l, i as int) > 0);
                            assert(lists_label(old_r, l));
                            let kk = choose|kk: int| 0 <= kk < old_r.len() && #[trigger] old_r[kk].name@ == l;
                            assert(r@[kk] == old_r[kk]);
                        }
                    }
                }
            }
        } else {
            proof {
                assert forall|l: Seq<char>| #[trigger] label_count(ms, l, i + 1) == label_count(ms, l, i as int) by {
                    lemma_label_count_step(ms, l, i as int);
                }
            }
        }
    }
    let ghost unsorted = r@;
    proof {
        assert forall|a: int, b: int| 0 <= a < b < unsorted.len() implies unsorted[a] != unsorted[b] by {
            assert(unsorted[a].name@ != unsorted[b].name@);
        }
        assert(unsorted.no_duplicates());
    }
    sort_by_key(&mut r);
    proof {
        lemma_same_elements(unsorted, r@);
        lemma_total_count_same_elements(unsorted, r@);
        assert forall|k: int| 0 <= k < r.len() implies unsorted.contains(#[trigger] r@[k]) by {
            assert(r@.contains(r@[k]));
        }
        assert forall|k: int| 0 <= k < r.len() implies #[trigger] r@[k].count == label_count(
            ms,
            r@[k].name@,
            n as int,
        ) && r@[k].count > 0 by {
            assert(unsorted.contains(r@[k]));
        }
        assert forall|a: int, b: int| 0 <= a < b < r.len() implies #[trigger] r@[a].name@
            != #[trigger] r@[b].name@ by {
            assert(unsorted.contains(r@[a]));
            assert(unsorted.contains(r@[b]));
            let pa = choose|p: int| 0 <= p < unsorted.len() && unsorted[p] == r@[a];
            let pb = choose|p: int| 0 <= p < unsorted.len() && unsorted[p] == r@[b];
            if pa < pb {
                assert(unsorted[pa].name@ != unsorted[pb].name@);
            } else if pb < pa {
                assert(unsorted[pb].name@ != unsorted[pa].name@);
            }
        }
        assert forall|i: int| 0 <= i < manifests.len() && is_latest(manifests@, i) implies #[trigger] lists_label(
            r@,
            category_label(manifests@[i]),
        ) by {
            let l = category_label(ms[i]);
            lemma_label_count_positive(ms, l, i, n as int);
            assert(lists_label(unsorted, l));
            let kk = choose|kk: int| 0 <= kk < unsorted.len() && #[trigger] unsorted[kk].name@ == l;
            assert(unsorted[kk] == unsorted[kk]);
            assert(unsorted.contains(unsorted[kk]));
            assert(r@.contains(unsorted[kk]));
            let k2 = choose|k2: int| 0 <= k2 < r@.len() && r@[k2] == unsorted[kk];
            assert(r@[k2].name@ == l);
        }
        assert forall|a: int, b: int| 0 <= a < b < r.len() implies count_before(
            #[trigger] r@[a],
            #[trigger] r@[b],
        ) by {
            assert(r@[a].name@ != r@[b].name@);
            assert(!count_before(r@[b], r@[a]));
            lemma_text_lt_strict_total(r@[a].name@, r@[b].name@);
        }
    }
    r
}

proof fn lemma_label_count_positive(ms: Seq<LxsManifest>, label: Seq<char>, i: int, n: int)
    requires
        0 <= i < n,
        is_latest(ms, i),
        category_label(ms[i]) == label,
    ensures
        label_count(ms, label, n) > 0,
    decreases n,
{
    if i < n - 1 {
        lemma_label_count_positive(ms, label, i, n - 1);
    }
}

/// Whether manifest `m` passes the browse filter; `ql` is the lower-cased query.
fn passes_filter(m: &LxsManifest, category: &str, q: &str, ql: &Vec<char>) -> (r: bool)
    requires
        ql@ == lowercase(q@),
    ensures
        r == matches_filter(*m, category@, q@),
{
    let cat_ok = category.is_empty() || str_eq_ignore_ascii_case(m.category.as_str(), category);
    if !cat_ok {
        return false;
    }
    if q.is_empty() {
        return true;
    }
    let name = lowercase_chars(m.name.as_str());
    if chars_contain(&name, ql) {
        return true;
    }
    let summary = lowercase_chars(m.summary.as_str());
    if chars_contain(&summary, ql) {
        return true;
    }
    let domain = lowercase_chars(m.domain.as_str());
    chars_contain(&domain, ql)
}

/// The browse card of `m`.
fn card_of(m: &LxsManifest, docs: bool) -> (c: LxsCard)
    ensures
        is_card_of(c, *m, docs),
{
    LxsCard {
        name: m.name.clone(),
        version: m.version.clone(),
        category: label_of(m),
        status: m.status.clone(),
        publisher: m.publisher.clone(),
        summary: m.summary.clone(),
        runtime: m.runtime.base.clone(),
        targets: copy_strings(&m.targets),
        source: m.provenance.source.clone(),
        commit: m.provenance.commit.clone(),
        docs_available: docs,
    }
}

/// Some card in `r` is the card of `m`.
pub open spec fn has_card(r: Seq<LxsCard>, m: LxsManifest, docs: bool) -> bool {
    exists|k: int| 0 <= k < r.len() && #[trigger] is_card_of(r[k], m, docs)
}

/// `c` is the card of a latest version that passes the filter.
pub open spec fn card_of_match(
    ms: Seq<LxsManifest>,
    docs: Seq<bool>,
    category: Seq<char>,
    q: Seq<char>,
    c: LxsCard,
) -> bool {
    exists|i: int|
        #![trigger ms[i]]
        is_latest(ms, i) && matches_filter(ms[i], category, q) && is_card_of(c, ms[i], docs[i])
}

proof fn lemma_match_count_step(ms: Seq<LxsManifest>, category: Seq<char>, q: Seq<char>, i: int)
    requires
        0 <= i,
    ensures
        match_count(ms, category, q, i + 1) == match_count(ms, category, q, i) + if is_latest(
            ms,
            i,
        ) && matches_filter(ms[i], category, q) {
            1nat
        } else {
            0nat
        },
{
}

/// The browse list: the card of the latest version of every LXS that passes the filter
/// (`category` and `q` may be empty), ordered by name. `docs_available[i]` tells whether
/// `manifests[i]` ships a docs bundle.
#[verifier::loop_isolation(false)]
pub fn list_lxs(
    manifests: &Vec<LxsManifest>,
    docs_available: &Vec<bool>,
    category: &str,
    q: &str,
) -> (r: Vec<LxsCard>)
    requires
        docs_available.len() == manifests.len(),
    ensures
        r.len() == match_count(manifests@, category@, q@, manifests.len() as int),
        forall|k: int|
            0 <= k < r.len() ==> #[trigger] card_of_match(
                manifests@,
                docs_available@,
                category@,
                q@,
                r@[k],
            ),
        forall|i: int|
            0 <= i < manifests.len() && is_latest(manifests@, i) && matches_filter(
                manifests@[i],
                category@,
                q@,
            ) ==> #[trigger] has_card(r@, manifests@[i], docs_available@[i]),
        forall|a: int, b: int|
            0 <= a < b < r.len() ==> text_lt(#[trigger] r@[a].name@, #[trigger] r@[b].name@),
{
    let ghost ms = manifests@;
    let ghost docs = docs_available@;
    let n = manifests.len();
    let flags = latest_flags(manifests);
    let ql = lowercase_chars(q);
    let mut cards: Vec<LxsCard> = Vec::new();
    let ghost mut src: Seq<int> = Seq::empty();
    for i in 0..n
        invariant
            n == manifests.len(),
            flags.len() == n,
            forall|x: int| 0 <= x < n ==> #[trigger] flags@[x] == is_latest(ms, x),
            cards.len() == src.len(),
            cards.len() == match_count(ms, category@, q@, i as int),
            forall|k: int|
                0 <= k < src.len() ==> 0 <= #[trigger] src[k] < i && is_latest(ms, src[k])
                    && matches_filter(ms[src[k]], category@, q@) && is_card_of(
                    cards@[k],
                    ms[src[k]],
                    docs[src[k]],
                ),
            forall|a: int, b: int| 0 <= a < b < src.len() ==> #[trigger] src[a] < #[trigger] src[b],
            forall|x: int|
                0 <= x < i && is_latest(ms, x) && matches_filter(ms[x], category@, q@)
                    ==> #[trigger] has_card(cards@, ms[x], docs[x]),
    {
        proof {
            lemma_match_count_step(ms, category@, q@, i as int);
        }
        if flags[i] && passes_filter(&manifests[i], category, q, &ql) {
            let c = card_of(&manifests[i], docs_available[i]);
            let ghost old_cards = cards@;
            cards.push(c);
            proof {
                src = src.push(i as int);
                assert forall|x: int|
                    0 <= x < i + 1 && is_latest(ms, x) && matches_filter(ms[x], category@, q@)
                        implies #[trigger] has_card(cards@, ms[x], docs[x]) by {
                    if x < i {
                        assert(has_card(old_cards, ms[x], docs[x]));
                        let k = choose|k: int| 0 <= k < old_cards.len() && #[trigger] is_card_of(old_cards[k], ms[x], docs[x]);
                        assert(cards@[k] == old_cards[k]);
                    } else {
                        assert(is_card_of(cards@[old_cards.len() as int], ms[x], docs[x]));
                    }
                }
            }
        }
    }
    let ghost unsorted = cards@;
    proof {
        assert forall|a: int, b: int| 0 <= a < b < unsorted.len() implies unsorted[a].name@
            != unsorted[b].name@ by {
            assert(src[a] < src[b]);
            if unsorted[a].name@ == unsorted[b].name@ {
                lemma_latest_unique(ms, src[a], src[b]);
            }
        }
        assert forall|a: int, b: int| 0 <= a < b < unsorted.len() implies unsorted[a]
            != unsorted[b] by {
            assert(unsorted[a].name@ != unsorted[b].name@);
        }
        assert(unsorted.no_duplicates());
    }
    sort_by_key(&mut cards);
    proof {
        lemma_same_elements(unsorted, cards@);
        assert forall|k: int| 0 <= k < cards.len() implies #[trigger] card_of_match(
            ms,
            docs,
            category@,
            q@,
            cards@[k],
        ) by {
            assert(cards@.contains(cards@[k]));
            let p = choose|p: int| 0 <= p < unsorted.len() && unsorted[p] == cards@[k];
            let i = src[p];
            assert(0 <= i < n && is_latest(ms, i) && matches_filter(ms[i], category@, q@)
                && is_card_of(cards@[k], ms[i], docs[i]));
        }
        assert forall|i: int|
            0 <= i < n && is_latest(ms, i) && matches_filter(ms[i], category@, q@) implies #[trigger] has_card(
            cards@,
            ms[i],
            docs[i],
        ) by {
            assert(has_card(unsorted, ms[i], docs[i]));
            let p = choose|p: int| 0 <= p < unsorted.len() && #[trigger] is_card_of(unsorted[p], ms[i], docs[i]);
            assert(unsorted.contains(unsorted[p]));
            let k = choose|k: int| 0 <= k < cards@.len() && cards@[k] == unsorted[p];
            assert(is_card_of(cards@[k], ms[i], docs[i]));
        }
        assert forall|a: int, b: int| 0 <= a < b < cards.len() implies text_lt(
            #[trigger] cards@[a].name@,
            #[trigger] cards@[b].name@,
        ) by {
            assert(cards@.contains(cards@[a]));
            assert(cards@.contains(cards@[b]));
            let pa = choose|p: int| 0 <= p < unsorted.len() && unsorted[p] == cards@[a];
            let pb = choose|p: int| 0 <= p < unsorted.len() && unsorted[p] == cards@[b];
            assert(pa != pb);
            if pa < pb {
                assert(unsorted[pa].name@ != unsorted[pb].name@);
            } else {
                assert(unsorted[pb].name@ != unsorted[pa].name@);
            }
            assert(!text_lt(cards@[b].name@, cards@[a].name@));
            lemma_text_lt_strict_total(cards@[a].name@, cards@[b].name@);
        }
    }
    cards
}

proof fn lemma_versions_named_prefix(ms: Seq<LxsManifest>, name: Seq<char>, i: int)
    requires
        0 <= i < ms.len(),
    ensures
        versions_named(ms.take(i + 1), name) == if ms[i].name@ == name {
            versions_named(ms.take(i), name).push(ms[i].version)
        } else {
            versions_named(ms.take(i), name)
        },
{
    assert(ms.take(i + 1).drop_last() =~= ms.take(i));
}

/// The versions of the manifests named like `manifests[i]`, in the order listed.
fn versions_of(manifests: &Vec<LxsManifest>, i: usize) -> (r: Vec<String>)
    requires
        i < manifests.len(),
    ensures
        r@ == versions_named(manifests@, manifests@[i as int].name@),
{
    let ghost ms = manifests@;
    let ghost name = ms[i as int].name@;
    let mut r: Vec<String> = Vec::new();
    for k in 0..manifests.len()
        invariant
            i < manifests.len(),
            ms == manifests@,
            name == ms[i as int].name@,
            r@ == versions_named(ms.take(k as int), name),
    {
        proof {
            lemma_versions_named_prefix(ms, name, k as int);
        }
        if manifests[k].name == manifests[i].name {
            r.push(manifests[k].version.clone());
        }
    }
    assert(ms.take(manifests.len() as int) =~= ms);
    r
}

/// `d` is the detail view of `ms[i]`: its own fields, the versions of every manifest of
/// the same name in the order listed, and `docs` as its docs bundle.
pub open spec fn is_detail_of(d: LxsDetail, ms: Seq<LxsManifest>, i: int, docs: Option<LxsDocs>) -> bool {
    let m = ms[i];
    &&& d.name == m.name
    &&& d.domain == m.domain
    &&& d.version == m.version
    &&& d.category == m.category
    &&& d.status == m.status
    &&& d.publisher == m.publisher
    &&& d.summary == m.summary
    &&& d.targets == m.targets
    &&& d.contract == m.contract
    &&& d.runtime == m.runtime
    &&& d.provenance == m.provenance
    &&& d.release == m.release
    &&& d.versions@ == versions_named(ms, m.name@)
    &&& d.docs == docs
}

/// The detail view of `manifests[latest]`: its own fields, the versions of every manifest
/// of the same name in the order listed, and `docs` as its docs bundle.
pub fn detail(manifests: Vec<LxsManifest>, latest: usize, docs: Option<LxsDocs>) -> (d: LxsDetail)
    requires
        latest < manifests.len(),
    ensures
        is_detail_of(d, manifests@, latest as int, docs),
{
    let versions = versions_of(&manifests, latest);
    let mut ms = manifests;
    let m = ms.swap_remove(latest);
    LxsDetail {
        name: m.name,
        domain: m.domain,
        version: m.version,
        category: m.category,
        status: m.status,
        publisher: m.publisher,
        summary: m.summary,
        targets: m.targets,
        contract: m.contract,
        runtime: m.runtime,
        provenance: m.provenance,
        release: m.release,
        versions,
        docs,
    }
}

/// The detail view of the LXS called `name`: the detail of its latest version, with
/// `docs[i]` as the docs bundle when `manifests[i]` is that version; `NotFound(name)` when
/// no manifest has that name.
pub fn lxs_detail(manifests: Vec<LxsManifest>, name: &str, docs: Vec<Option<LxsDocs>>) -> (r:
    Result<LxsDetail, LookupError>)
    requires
        docs.len() == manifests.len(),
    ensures
        match r {
            Ok(d) => exists|i: int|
                #![trigger manifests@[i]]
                0 <= i < manifests.len() && is_latest(manifests@, i) && manifests@[i].name@
                    == name@ && is_detail_of(d, manifests@, i, docs@[i]),
            Err(LookupError::NotFound(n)) => n@ == name@ && forall|i: int|
                0 <= i < manifests.len() ==> #[trigger] manifests@[i].name@ != name@,
        },
{
    match find_latest(&manifests, name) {
        Ok(i) => {
            let ghost ms = manifests@;
            let ghost all_docs = docs@;
            let mut docs = docs;
            let own = docs.swap_remove(i);
            let d = detail(manifests, i, own);
            assert(0 <= i < ms.len() && is_latest(ms, i as int) && ms[i as int].name@ == name@
                && is_detail_of(d, ms, i as int, all_docs[i as int]));
            Ok(d)
        },
        Err(e) => Err(e),
    }
}

/// Orders the manifests read from a registry scan by their `name-version` key, in
/// dictionary order; the same manifests stay, each as often.
pub fn sort_scanned(manifests: &mut Vec<LxsManifest>)
    ensures
        final(manifests)@.to_multiset() == old(manifests)@.to_multiset(),
        forall|a: int, b: int|
            0 <= a < b < final(manifests)@.len() ==> !text_lt(
                manifest_key(#[trigger] final(manifests)@[b]),
                manifest_key(#[trigger] final(manifests)@[a]),
            ),
        forall|a: int, b: int|
            0 <= a < b < final(manifests)@.len() ==> !text_lt(
                (#[trigger] final(manifests)@[b]).name@ + seq!['-'] + final(manifests)@[b].version@,
                (#[trigger] final(manifests)@[a]).name@ + seq!['-'] + final(manifests)@[a].version@,
            ),
{
    sort_by_key(manifests);
    proof {
        assert forall|m: LxsManifest| #[trigger] manifest_key(m) == m.name@ + seq!['-'] + m.version@ by {
            assert(m.name@.push('-') =~= m.name@ + seq!['-']);
        }
    }
}

/// The docs bundle of a version, with its file names in dictionary order.
pub fn docs_bundle(
    files: Vec<String>,
    has_openapi: bool,
    index: String,
    api: String,
    examples: String,
    changelog: String,
    gotchas: String,
) -> (d: LxsDocs)
    ensures
        d.files@.to_multiset() == files@.to_multiset(),
        forall|a: int, b: int|
            0 <= a < b < d.files@.len() ==> !text_lt(
                (#[trigger] d.files@[b])@,
                (#[trigger] d.files@[a])@,
            ),
        d.has_openapi == has_openapi,
        d.index == index,
        d.api == api,
        d.examples == examples,
        d.changelog == changelog,
        d.gotchas == gotchas,
{
    let mut files = files;
    sort_by_key(&mut files);
    LxsDocs { files, has_openapi, index, api, examples, changelog, gotchas }
}

} // verus!
