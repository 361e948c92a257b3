//! Which manifest is the latest version of each LXS.
use vstd::prelude::*;

use crate::model::{LookupError, LxsManifest};
use crate::semver::{newer, semver_gt};

verus! {

/// `ms[i]` is the latest version of its LXS: no manifest of the same name has a newer
/// version, and every one listed before it has an older version (so of several manifests
/// with equally new versions, the first listed counts).
pub open spec fn is_latest(ms: Seq<LxsManifest>, i: int) -> bool {
    &&& 0 <= i < ms.len()
    &&& forall|k: int|
        0 <= k < ms.len() && #[trigger] ms[k].name@ == ms[i as int].name@ ==> {
            &&& !newer(ms[k].version@, ms[i as int].version@)
            &&& (k < i ==> newer(ms[i as int].version@, ms[k].version@))
        }
}

/// `is_latest`, looking only at the first `n` manifests.
pub open spec fn is_latest_upto(ms: Seq<LxsManifest>, n: int, i: int) -> bool {
    &&& 0 <= i < n
    &&& forall|k: int|
        0 <= k < n && #[trigger] ms[k].name@ == ms[i as int].name@ ==> {
            &&& !newer(ms[k].version@, ms[i as int].version@)
            &&& (k < i ==> newer(ms[i as int].version@, ms[k].version@))
        }
}

/// Manifests `a` and `b` of `ms` are versions of the same LXS.
pub open spec fn same_name(ms: Seq<LxsManifest>, a: int, b: int) -> bool {
    ms[a].name@ == ms[b].name@
}

/// One of the indices in `r` is a manifest with the name of `ms[i]`.
pub open spec fn picks_name_of(ms: Seq<LxsManifest>, r: Seq<usize>, i: int) -> bool {
    exists|j: int| 0 <= j < r.len() && #[trigger] same_name(ms, r[j] as int, i)
}

/// A latest version of some LXS is the only one of that name.
pub proof fn lemma_latest_unique(ms: Seq<LxsManifest>, i: int, j: int)
    requires
        is_latest(ms, i),
        is_latest(ms, j),
        ms[i as int].name@ == ms[j].name@,
    ensures
        i == j,
{
    if i < j {
        assert(ms[i as int].name@ == ms[j].name@);
    } else if j < i {
        assert(ms[j].name@ == ms[i as int].name@);
    }
}

/// `r` picks, among the first `n` manifests, the latest version of each name seen.
pub open spec fn latest_table(ms: Seq<LxsManifest>, n: int, r: Seq<usize>) -> bool {
    &&& forall|j: int| 0 <= j < r.len() ==> #[trigger] r[j] < n
    &&& forall|j: int| 0 <= j < r.len() ==> is_latest_upto(ms, n, #[trigger] r[j] as int)
    &&& forall|a: int, b: int|
        0 <= a < b < r.len() ==> !same_name(ms, #[trigger] r[a] as int, #[trigger] r[b] as int)
    &&& forall|k: int| 0 <= k < n ==> #[trigger] picks_name_of(ms, r, k)
}

/// A latest pick among the first `i` manifests stays the latest pick once `ms[i]`, of
/// another name, is looked at.
proof fn lemma_upto_other_name(ms: Seq<LxsManifest>, i: int, x: int)
    requires
        0 <= i < ms.len(),
        is_latest_upto(ms, i, x),
        !same_name(ms, x, i),
    ensures
        is_latest_upto(ms, i + 1, x),
{
}

/// A latest pick among the first `i` manifests stays the latest pick when `ms[i]`, of
/// the same name, is not newer.
proof fn lemma_upto_not_newer(ms: Seq<LxsManifest>, i: int, x: int)
    requires
        0 <= i < ms.len(),
        is_latest_upto(ms, i, x),
        same_name(ms, x, i),
        !newer(ms[i].version@, ms[x].version@),
    ensures
        is_latest_upto(ms, i + 1, x),
{
}

/// `ms[i]`, newer than the latest pick `x` of its name among the first `i` manifests, is
/// the latest pick among the first `i + 1`.
proof fn lemma_upto_newer(ms: Seq<LxsManifest>, i: int, x: int)
    requires
        0 <= i < ms.len(),
        is_latest_upto(ms, i, x),
        same_name(ms, x, i),
        newer(ms[i].version@, ms[x].version@),
    ensures
        is_latest_upto(ms, i + 1, i),
{
    assert forall|k: int|
        0 <= k < i + 1 && #[trigger] ms[k].name@ == ms[i].name@ implies {
        &&& !newer(ms[k].version@, ms[i].version@)
        &&& (k < i ==> newer(ms[i].version@, ms[k].version@))
    } by {
        if k < i {
            assert(ms[k].name@ == ms[x].name@);
        }
    }
}

/// `ms[i]`, whose name no earlier manifest has, is the latest pick among the first `i + 1`.
proof fn lemma_upto_first(ms: Seq<LxsManifest>, i: int)
    requires
        0 <= i < ms.len(),
        forall|k: int| 0 <= k < i ==> !#[trigger] same_name(ms, k, i),
    ensures
        is_latest_upto(ms, i + 1, i),
{
    assert forall|k: int| 0 <= k < i + 1 && #[trigger] ms[k].name@ == ms[i].name@ implies k == i by {
        if k < i {
            assert(same_name(ms, k, i));
        }
    }
}

proof fn lemma_table_replace(ms: Seq<LxsManifest>, i: usize, r: Seq<usize>, j: int)
    requires
        0 <= i < ms.len(),
        latest_table(ms, i as int, r),
        0 <= j < r.len(),
        same_name(ms, r[j] as int, i as int),
        newer(ms[i as int].version@, ms[r[j] as int].version@),
    ensures
        latest_table(ms, i + 1int, r.update(j, i)),
{
    let r2 = r.update(j, i);
    assert forall|jj: int| 0 <= jj < r2.len() implies is_latest_upto(
        ms,
        i + 1,
        #[trigger] r2[jj] as int,
    ) by {
        if jj != j {
            if jj < j {
                assert(!same_name(ms, r[jj] as int, r[j] as int));
            } else {
                assert(!same_name(ms, r[j] as int, r[jj] as int));
            }
            lemma_upto_other_name(ms, i as int, r[jj] as int);
        } else {
            lemma_upto_newer(ms, i as int, r[j] as int);
        }
    }
    assert forall|a: int, b: int| 0 <= a < b < r2.len() implies !same_name(
        ms,
        #[trigger] r2[a] as int,
        #[trigger] r2[b] as int,
    ) by {
        assert(!same_name(ms, r[a] as int, r[b] as int));
    }
    assert forall|k: int| 0 <= k < i + 1 implies #[trigger] picks_name_of(ms, r2, k) by {
        if k < i {
            assert(picks_name_of(ms, r, k));
            let jj = choose|jj: int| 0 <= jj < r.len() && #[trigger] same_name(ms, r[jj] as int, k);
            assert(same_name(ms, r2[jj] as int, k));
        } else {
            assert(same_name(ms, r2[j] as int, k));
        }
    }
}

proof fn lemma_table_keep(ms: Seq<LxsManifest>, i: usize, r: Seq<usize>, j: int)
    requires
        0 <= i < ms.len(),
        latest_table(ms, i as int, r),
        0 <= j < r.len(),
        same_name(ms, r[j] as int, i as int),
        !newer(ms[i as int].version@, ms[r[j] as int].version@),
    ensures
        latest_table(ms, i + 1int, r),
{
    assert forall|jj: int| 0 <= jj < r.len() implies is_latest_upto(
        ms,
        i + 1,
        #[trigger] r[jj] as int,
    ) by {
        if jj == j {
            lemma_upto_not_newer(ms, i as int, r[j] as int);
        } else {
            if jj < j {
                assert(!same_name(ms, r[jj] as int, r[j] as int));
            } else {
                assert(!same_name(ms, r[j] as int, r[jj] as int));
            }
            lemma_upto_other_name(ms, i as int, r[jj] as int);
        }
    }
    assert forall|k: int| 0 <= k < i + 1 implies #[trigger] picks_name_of(ms, r, k) by {
        if k == i {
            assert(same_name(ms, r[j] as int, k));
        }
    }
}

proof fn lemma_table_push(ms: Seq<LxsManifest>, i: usize, r: Seq<usize>)
    requires
        0 <= i < ms.len(),
        latest_table(ms, i as int, r),
        forall|j: int| 0 <= j < r.len() ==> !#[trigger] same_name(ms, r[j] as int, i as int),
    ensures
        latest_table(ms, i + 1int, r.push(i)),
{
    let r2 = r.push(i);
    assert forall|k: int| 0 <= k < i implies !#[trigger] same_name(ms, k, i as int) by {
        assert(picks_name_of(ms, r, k));
        let jj = choose|jj: int| 0 <= jj < r.len() && #[trigger] same_name(ms, r[jj] as int, k);
        assert(!same_name(ms, r[jj] as int, i as int));
    }
    lemma_upto_first(ms, i as int);
    assert forall|jj: int| 0 <= jj < r2.len() implies is_latest_upto(
        ms,
        i + 1,
        #[trigger] r2[jj] as int,
    ) by {
        if jj < r.len() {
            assert(r2[jj] == r[jj]);
            assert(!same_name(ms, r[jj] as int, i as int));
            lemma_upto_other_name(ms, i as int, r[jj] as int);
        } else {
            assert(r2[jj] == i);
        }
    }
    assert forall|a: int, b: int| 0 <= a < b < r2.len() implies !same_name(
        ms,
        #[trigger] r2[a] as int,
        #[trigger] r2[b] as int,
    ) by {
        assert(r2[a] == r[a]);
        if b < r.len() {
            assert(r2[b] == r[b]);
            assert(!same_name(ms, r[a] as int, r[b] as int));
        } else {
            assert(r2[b] == i);
            assert(!same_name(ms, r[a] as int, i as int));
        }
    }
    assert forall|k: int| 0 <= k < i + 1 implies #[trigger] picks_name_of(ms, r2, k) by {
        if k < i {
            assert(picks_name_of(ms, r, k));
            let jj = choose|jj: int| 0 <= jj < r.len() && #[trigger] same_name(ms, r[jj] as int, k);
            assert(r2[jj] == r[jj]);
            assert(same_name(ms, r2[jj] as int, k));
        } else {
            assert(r2[r.len() as int] == i);
            assert(same_name(ms, r2[r.len() as int] as int, k));
        }
    }
}

/// Picks the latest version of each LXS: the result holds one index per distinct name, and
/// each index is the manifest that `is_latest` describes for that name.
pub fn latest_by_name(manifests: &Vec<LxsManifest>) -> (r: Vec<usize>)
    ensures
        forall|j: int| 0 <= j < r.len() ==> #[trigger] r@[j] < manifests.len(),
        forall|j: int| 0 <= j < r.len() ==> is_latest(manifests@, #[trigger] r@[j] as int),
        forall|a: int, b: int|
            0 <= a < b < r.len() ==> manifests@[#[trigger] r@[a] as int].name@ != manifests@[#[trigger] r@[b] as int].name@,
        forall|i: int| 0 <= i < manifests.len() ==> #[trigger] picks_name_of(manifests@, r@, i),
{
    let ghost ms = manifests@;
    let n = manifests.len();
    let mut r: Vec<usize> = Vec::new();
    for i in 0..n
        invariant
            n == manifests.len(),
            ms == manifests@,
            latest_table(ms, i as int, r@),
    {
        let mut j: usize = 0;
        while j < r.len() && manifests[r[j]].name != manifests[i].name
            invariant
                0 <= j <= r.len(),
                i < n,
                n == manifests.len(),
                ms == manifests@,
                latest_table(ms, i as int, r@),
                forall|jj: int| 0 <= jj < j ==> !#[trigger] same_name(ms, r@[jj] as int, i as int),
            decreases r.len() - j,
        {
            j = j + 1;
        }
        if j < r.len() {
            let e = r[j];
            if semver_gt(manifests[i].version.as_str(), manifests[e].version.as_str()) {
                proof {
                    lemma_table_replace(ms, i, r@, j as int);
                }
                r.set(j, i);
            } else {
                proof {
                    lemma_table_keep(ms, i, r@, j as int);
                }
            }
        } else {
            proof {
                lemma_table_push(ms, i, r@);
            }
            r.push(i);
        }
    }
    proof {
        assert(latest_table(ms, n as int, r@));
        assert forall|j: int| 0 <= j < r.len() implies is_latest(manifests@, #[trigger] r@[j] as int) by {
            assert(is_latest_upto(ms, n as int, r@[j] as int));
        }
        assert forall|a: int, b: int| 0 <= a < b < r.len() implies manifests@[#[trigger] r@[a] as int].name@
            != manifests@[#[trigger] r@[b] as int].name@ by {
            assert(!same_name(ms, r@[a] as int, r@[b] as int));
        }
        assert forall|i: int| 0 <= i < manifests.len() implies #[trigger] picks_name_of(
            manifests@,
            r@,
            i,
        ) by {
            assert(picks_name_of(ms, r@, i));
        }
    }
    r
}

/// For each manifest, whether it is the latest version of its LXS.
pub(crate) fn latest_flags(manifests: &Vec<LxsManifest>) -> (f: Vec<bool>)
    ensures
        f.len() == manifests.len(),
        forall|i: int| 0 <= i < f.len() ==> #[trigger] f@[i] == is_latest(manifests@, i),
{
    let ghost ms = manifests@;
    let latest = latest_by_name(manifests);
    let n = manifests.len();
    let mut f: Vec<bool> = Vec::new();
    for i in 0..n
        invariant
            f.len() == i,
            forall|k: int| 0 <= k < i ==> !#[trigger] f@[k],
    {
        f.push(false);
    }
    for j in 0..latest.len()
        invariant
            f.len() == n,
            n == manifests.len(),
            ms == manifests@,
            forall|jj: int| 0 <= jj < latest.len() ==> #[trigger] latest@[jj] < n,
            forall|i: int|
                0 <= i < n ==> (#[trigger] f@[i] <==> exists|jj: int|
                    0 <= jj < j && #[trigger] latest@[jj] == i),
    {
        let ghost old_f = f@;
        f.set(latest[j], true);
        assert forall|i: int| 0 <= i < n implies (#[trigger] f@[i] <==> exists|jj: int|
            0 <= jj < j + 1 && #[trigger] latest@[jj] == i) by {
            if i == latest@[j as int] {
                assert(latest@[j as int] == i);
            } else {
                assert(f@[i] == old_f[i]);
            }
        }
    }
    assert forall|i: int| 0 <= i < f.len() implies #[trigger] f@[i] == is_latest(ms, i) by {
        if f@[i] {
            let jj = choose|jj: int| 0 <= jj < latest.len() && #[trigger] latest@[jj] == i;
            assert(is_latest(ms, latest@[jj] as int));
        }
        if is_latest(ms, i) {
            assert(picks_name_of(ms, latest@, i));
            let jj = choose|jj: int| 0 <= jj < latest@.len() && #[trigger] same_name(ms, latest@[jj] as int, i);
            assert(is_latest(ms, latest@[jj] as int));
            lemma_latest_unique(ms, latest@[jj] as int, i);
        }
    }
    f
}

/// Finds the latest version of the LXS called `name`: its index when some manifest has
/// that name, `NotFound(name)` when none has.
pub fn find_latest(manifests: &Vec<LxsManifest>, name: &str) -> (r: Result<usize, LookupError>)
    ensures
        match r {
            Ok(i) => i < manifests.len() && is_latest(manifests@, i as int) && manifests@[i as int].name@
                == name@,
            Err(LookupError::NotFound(n)) => n@ == name@ && forall|i: int|
                0 <= i < manifests.len() ==> #[trigger] manifests@[i].name@ != name@,
        },
{
    let ghost ms = manifests@;
    let n = manifests.len();
    let wanted = String::from_str(name);
    let mut best: Option<usize> = None;
    for i in 0..n
        invariant
            n == manifests.len(),
            ms == manifests@,
            wanted@ == name@,
            match best {
                None => forall|k: int| 0 <= k < i ==> #[trigger] ms[k].name@ != name@,
                Some(b) => b < i && ms[b as int].name@ == name@ && is_latest_upto(ms, i as int, b as int),
            },
    {
        if manifests[i].name == wanted {
            match best {
                None => {
                    best = Some(i);
                },
                Some(b) => {
                    if semver_gt(manifests[i].version.as_str(), manifests[b].version.as_str()) {
                        best = Some(i);
                        proof {
                            assert forall|k: int|
                                0 <= k < i + 1 && #[trigger] ms[k].name@ == ms[i as int].name@ implies {
                                &&& !newer(ms[k].version@, ms[i as int].version@)
                                &&& (k < i ==> newer(ms[i as int].version@, ms[k].version@))
                            } by {
                                if k < i {
                                    assert(ms[k].name@ == ms[b as int].name@);
                                }
                            }
                        }
                    } else {
                        proof {
                            assert forall|k: int|
                                0 <= k < i + 1 && #[trigger] ms[k].name@ == ms[b as int].name@ implies {
                                &&& !newer(ms[k].version@, ms[b as int].version@)
                                &&& (k < b ==> newer(ms[b as int].version@, ms[k].version@))
                            } by {
                                if k < i {
                                    assert(ms[k].name@ == ms[b as int].name@);
                                }
                            }
                        }
                    }
                },
            }
        } else {
            proof {
                match best {
                    None => {},
                    Some(b) => {
                        assert forall|k: int|
                            0 <= k < i + 1 && #[trigger] ms[k].name@ == ms[b as int].name@ implies {
                            &&& !newer(ms[k].version@, ms[b as int].version@)
                            &&& (k < b ==> newer(ms[b as int].version@, ms[k].version@))
                        } by {
                            if k < i {
                                assert(ms[k].name@ == ms[b as int].name@);
                            }
                        }
                    },
                }
            }
        }
    }
    match best {
        Some(b) => Ok(b),
        None => Err(LookupError::NotFound(wanted)),
    }
}

} // verus!
