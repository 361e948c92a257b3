//! A strict order on values, and an insertion sort that uses it.
use vstd::prelude::*;

verus! {

broadcast use vstd::seq_lib::group_to_multiset_ensures;

/// A strict order: `before(a, b)` means that `a` must be listed ahead of `b`.
pub trait SortKey: Sized {
    spec fn before(a: Self, b: Self) -> bool;

    proof fn lemma_before_irreflexive(a: Self)
        ensures
            !Self::before(a, a),
    ;

    proof fn lemma_before_transitive(a: Self, b: Self, c: Self)
        requires
            Self::before(a, b),
            Self::before(b, c),
        ensures
            Self::before(a, c),
    ;

    fn goes_before(&self, other: &Self) -> (r: bool)
        ensures
            r == Self::before(*self, *other),
    ;
}

/// No element of `s` must be listed ahead of an element that comes earlier in `s`.
pub open spec fn sorted_by_key<T: SortKey>(s: Seq<T>) -> bool {
    forall|a: int, b: int| 0 <= a < b < s.len() ==> !T::before(#[trigger] s[b], #[trigger] s[a])
}

proof fn lemma_remove_insert_multiset<T>(s: Seq<T>, i: int, pos: int)
    requires
        0 <= i < s.len(),
        0 <= pos < s.len(),
    ensures
        s.remove(i).insert(pos, s[i]).to_multiset() =~= s.to_multiset(),
{
    let r = s.remove(i);
    let t = r.insert(pos, s[i]);
    r.insert_ensures(pos, s[i]);
    assert(t.remove(pos) =~= r);
    assert(t.remove(pos).to_multiset() =~= t.to_multiset().remove(t[pos]));
    assert(r.to_multiset() =~= s.to_multiset().remove(s[i]));
    assert(s.to_multiset().count(s[i]) > 0);
    assert(t.to_multiset().count(s[i]) > 0);
}

/// Two sequences with the same elements, each as often, hold the same values.
pub proof fn lemma_same_elements<T>(a: Seq<T>, b: Seq<T>)
    requires
        a.to_multiset() == b.to_multiset(),
    ensures
        a.len() == b.len(),
        forall|x: T| a.contains(x) <==> b.contains(x),
        a.no_duplicates() ==> b.no_duplicates(),
{
    assert(a.len() == a.to_multiset().len());
    assert(b.len() == b.to_multiset().len());
    assert forall|x: T| a.contains(x) <==> b.contains(x) by {
        assert(a.contains(x) <==> a.to_multiset().count(x) > 0);
        assert(b.contains(x) <==> b.to_multiset().count(x) > 0);
    }
    if a.no_duplicates() {
        a.lemma_multiset_has_no_duplicates();
        b.lemma_multiset_has_no_duplicates_conv();
    }
}

/// Sorts `v` so that no element is listed after one that it must precede. The result
/// holds the same elements as `v`, each as often.
pub fn sort_by_key<T: SortKey>(v: &mut Vec<T>)
    ensures
        final(v)@.to_multiset() == old(v)@.to_multiset(),
        sorted_by_key(final(v)@),
{
    let n = v.len();
    let mut i: usize = 1;
    if n == 0 {
        return;
    }
    while i < n
        invariant
            1 <= i <= n,
            n == v.len(),
            v@.to_multiset() == old(v)@.to_multiset(),
            forall|a: int, b: int|
                0 <= a < b < i ==> !T::before(#[trigger] v@[b], #[trigger] v@[a]),
        decreases n - i,
    {
        let ghost before_remove = v@;
        let x = v.remove(i);
        // first position in the sorted prefix whose element `x` must precede
        let mut pos: usize = 0;
        while pos < i && !x.goes_before(&v[pos])
            invariant
                0 <= pos <= i,
                i < n,
                v.len() == n - 1,
                v@ == before_remove.remove(i as int),
                x == before_remove[i as int],
                forall|j: int| 0 <= j < pos ==> !T::before(x, #[trigger] v@[j]),
            decreases i - pos,
        {
            pos = pos + 1;
        }
        let ghost prefix = v@;
        v.insert(pos, x);
        proof {
            lemma_remove_insert_multiset(before_remove, i as int, pos as int);
            prefix.insert_ensures(pos as int, x);
            assert forall|a: int, b: int| 0 <= a < b < i + 1 implies !T::before(
                #[trigger] v@[b],
                #[trigger] v@[a],
            ) by {
                if b < pos {
                    assert(v@[a] == before_remove[a] && v@[b] == before_remove[b]);
                } else if b == pos {
                    assert(v@[a] == prefix[a]);
                } else if a == pos {
                    // v@[b] is an element of the sorted prefix at or after `pos`
                    assert(v@[b] == prefix[b - 1]);
                    assert(T::before(x, prefix[pos as int]));
                    if T::before(prefix[b - 1], x) {
                        T::lemma_before_transitive(prefix[b - 1], x, prefix[pos as int]);
                        if b - 1 == pos {
                            T::lemma_before_irreflexive(prefix[pos as int]);
                        } else {
                            assert(prefix[pos as int] == before_remove[pos as int]);
                            assert(prefix[b - 1] == before_remove[b - 1]);
                        }
                    }
                } else if a < pos {
                    assert(v@[a] == prefix[a]);
                    assert(v@[b] == prefix[b - 1]);
                    assert(prefix[a] == before_remove[a]);
                    assert(prefix[b - 1] == before_remove[b - 1]);
                } else {
                    assert(v@[a] == prefix[a - 1]);
                    assert(v@[b] == prefix[b - 1]);
                    assert(prefix[a - 1] == before_remove[a - 1]);
                    assert(prefix[b - 1] == before_remove[b - 1]);
                }
            }
        }
        i = i + 1;
    }
}

} // verus!
