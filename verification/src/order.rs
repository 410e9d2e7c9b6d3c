//! Stable ordering of query results by an integer key.
use vstd::prelude::*;

verus! {

broadcast use vstd::multiset::group_multiset_axioms;

/// Order of (key, position) pairs: by key, then by position.
pub open spec fn keyed_le(a: (i128, usize), b: (i128, usize)) -> bool {
    a.0 < b.0 || (a.0 == b.0 && a.1 <= b.1)
}

pub open spec fn keyed_lt(a: (i128, usize), b: (i128, usize)) -> bool {
    a.0 < b.0 || (a.0 == b.0 && a.1 < b.1)
}

pub open spec fn sorted_le(s: Seq<(i128, usize)>) -> bool {
    forall|i: int, j: int| 0 <= i < j < s.len() ==> keyed_le(#[trigger] s[i], #[trigger] s[j])
}

pub open spec fn strictly_sorted(s: Seq<(i128, usize)>) -> bool {
    forall|i: int, j: int| 0 <= i < j < s.len() ==> keyed_lt(#[trigger] s[i], #[trigger] s[j])
}

/// Each key paired with its position.
pub open spec fn keyed(keys: Seq<i128>) -> Seq<(i128, usize)> {
    Seq::new(keys.len(), |i: int| (keys[i], i as usize))
}

/// The (key, position) pairs in increasing order.
pub open spec fn sorted_keyed(keys: Seq<i128>) -> Seq<(i128, usize)> {
    choose|s: Seq<(i128, usize)>| strictly_sorted(s) && s.to_multiset() == keyed(keys).to_multiset()
}

/// The positions of `keys` ordered by key, equal keys keeping their order.
pub open spec fn key_order(keys: Seq<i128>) -> Seq<usize> {
    sorted_keyed(keys).map_values(|p: (i128, usize)| p.1)
}

/// Sorts the pairs in place.
/// Trusted: calls `slice::sort`, which std documents as sorting the slice
/// (a permutation of it) in ascending order, tuples comparing
/// lexicographically.
#[verifier::external_body]
fn sort_pairs(v: &mut Vec<(i128, usize)>)
    ensures
        final(v)@.to_multiset() == old(v)@.to_multiset(),
        sorted_le(final(v)@),
{
    v.sort();
}

proof fn lemma_sorted_unique(a: Seq<(i128, usize)>, b: Seq<(i128, usize)>)
    requires
        strictly_sorted(a),
        strictly_sorted(b),
        a.to_multiset() == b.to_multiset(),
    ensures
        a == b,
    decreases a.len(),
{
    vstd::seq_lib::to_multiset_len(a);
    vstd::seq_lib::to_multiset_len(b);
    if a.len() == 0 {
        assert(b.len() == 0);
        assert(a =~= b);
    } else {
        assert(b.len() == a.len());
        assert(a.contains(a[0]));
        vstd::seq_lib::to_multiset_contains(a, a[0]);
        vstd::seq_lib::to_multiset_contains(b, a[0]);
        assert(b.contains(a[0]));
        assert(b.contains(b[0]));
        vstd::seq_lib::to_multiset_contains(b, b[0]);
        vstd::seq_lib::to_multiset_contains(a, b[0]);
        assert(a.contains(b[0]));
        let j = choose|j: int| 0 <= j < b.len() && b[j] == a[0];
        let i = choose|i: int| 0 <= i < a.len() && a[i] == b[0];
        if i > 0 && j > 0 {
            assert(keyed_lt(a[0], a[i]));
            assert(keyed_lt(b[0], b[j]));
        }
        assert(a[0] == b[0]);
        vstd::seq_lib::to_multiset_remove(a, 0);
        vstd::seq_lib::to_multiset_remove(b, 0);
        assert(a.remove(0).to_multiset() == b.remove(0).to_multiset());
        assert(a.remove(0) =~= a.drop_first());
        assert(b.remove(0) =~= b.drop_first());
        lemma_sorted_unique(a.drop_first(), b.drop_first());
        assert forall|k: int| 0 <= k < a.len() implies a[k] == b[k] by {
            if k > 0 {
                assert(a[k] == a.drop_first()[k - 1]);
                assert(b[k] == b.drop_first()[k - 1]);
            }
        }
        assert(a =~= b);
    }
}

/// The positions of `keys` ordered by key, equal keys keeping their order.
pub fn key_order_exec(keys: &Vec<i128>) -> (order: Vec<usize>)
    ensures
        order@ == key_order(keys@),
        order@.len() == keys@.len(),
        forall|x: int| 0 <= x < order@.len() ==> (#[trigger] order@[x] as int) < keys@.len(),
{
    let mut v: Vec<(i128, usize)> = Vec::new();
    let mut i: usize = 0;
    while i < keys.len()
        invariant
            i <= keys@.len(),
            v@ == keyed(keys@).take(i as int),
        decreases keys@.len() - i,
    {
        v.push((keys[i], i));
        i += 1;
        assert(v@ =~= keyed(keys@).take(i as int));
    }
    assert(v@ =~= keyed(keys@));
    sort_pairs(&mut v);
    proof {
        let w = v@;
        assert(keyed(keys@).no_duplicates()) by {
            assert forall|a: int, b: int| 0 <= a < keyed(keys@).len() && 0 <= b < keyed(keys@).len() && a != b
                implies keyed(keys@)[a] != keyed(keys@)[b] by {}
        }
        keyed(keys@).lemma_multiset_has_no_duplicates();
        w.lemma_multiset_has_no_duplicates_conv();
        vstd::seq_lib::to_multiset_len(w);
        vstd::seq_lib::to_multiset_len(keyed(keys@));
        assert(strictly_sorted(w)) by {
            assert forall|a: int, b: int| 0 <= a < b < w.len() implies keyed_lt(#[trigger] w[a], #[trigger] w[b]) by {
                assert(keyed_le(w[a], w[b]));
            }
        }
        lemma_sorted_unique(w, sorted_keyed(keys@));
    }
    let mut order: Vec<usize> = Vec::new();
    let mut k: usize = 0;
    while k < v.len()
        invariant
            k <= v@.len(),
            v@ == sorted_keyed(keys@),
            v@.len() == keys@.len(),
            order@ == key_order(keys@).take(k as int),
        decreases v@.len() - k,
    {
        order.push(v[k].1);
        k += 1;
        assert(order@ =~= key_order(keys@).take(k as int));
    }
    assert(order@ =~= key_order(keys@));
    proof {
        assert forall|x: int| 0 <= x < order@.len() implies (#[trigger] order@[x] as int) < keys@.len() by {
            assert(v@.to_multiset() == keyed(keys@).to_multiset());
            assert(v@.contains(v@[x]));
            vstd::seq_lib::to_multiset_contains(v@, v@[x]);
            vstd::seq_lib::to_multiset_contains(keyed(keys@), v@[x]);
            assert(keyed(keys@).contains(v@[x]));
        }
    }
    order
}

/// Whether position `a` comes before position `b` in key order: a smaller
/// key, or an equal key and a smaller position.
pub open spec fn ordered_pair(keys: Seq<i128>, a: int, b: int) -> bool {
    keys[a] < keys[b] || (keys[a] == keys[b] && a < b)
}

/// The order of `keys` lists every position once, and positions by
/// increasing key, equal keys by increasing position.
pub proof fn lemma_key_order(keys: Seq<i128>)
    requires
        keys.len() <= usize::MAX,
    ensures
        key_order(keys).len() == keys.len(),
        forall|x: int| 0 <= x < keys.len() ==> (#[trigger] key_order(keys)[x] as int) < keys.len(),
        key_order(keys).no_duplicates(),
        forall|i: int, j: int| 0 <= i < j < keys.len() ==>
            #[trigger] ordered_pair(keys, key_order(keys)[i] as int, key_order(keys)[j] as int),
        forall|x: int| 0 <= x < keys.len() ==> #[trigger] key_order(keys).contains(x as usize),
{
    let k = keyed(keys);
    let le = |a: (i128, usize), b: (i128, usize)| keyed_le(a, b);
    assert(vstd::relations::total_ordering(le)) by {
        assert forall|a: (i128, usize), b: (i128, usize)| #[trigger] le(a, b) && #[trigger] le(b, a) implies a == b by {}
    }
    k.lemma_sort_by_ensures(le);
    let w = k.sort_by(le);
    assert(k.no_duplicates()) by {
        assert forall|a: int, b: int| 0 <= a < k.len() && 0 <= b < k.len() && a != b implies k[a] != k[b] by {}
    }
    k.lemma_multiset_has_no_duplicates();
    w.lemma_multiset_has_no_duplicates_conv();
    assert(strictly_sorted(w)) by {
        assert forall|a: int, b: int| 0 <= a < b < w.len() implies keyed_lt(#[trigger] w[a], #[trigger] w[b]) by {
            assert(le(w[a], w[b]));
        }
    }
    let s = sorted_keyed(keys);
    assert(strictly_sorted(s) && s.to_multiset() == k.to_multiset());
    vstd::seq_lib::to_multiset_len(s);
    vstd::seq_lib::to_multiset_len(k);
    assert forall|x: int| 0 <= x < s.len() implies #[trigger] s[x] == (keys[s[x].1 as int], s[x].1) && (s[x].1 as int) < keys.len() by {
        assert(s.contains(s[x]));
        vstd::seq_lib::to_multiset_contains(s, s[x]);
        vstd::seq_lib::to_multiset_contains(k, s[x]);
        let p = choose|p: int| 0 <= p < k.len() && k[p] == s[x];
        assert(k[p] == (keys[p], p as usize));
    }
    let o = key_order(keys);
    assert forall|x: int| 0 <= x < keys.len() implies (#[trigger] key_order(keys)[x] as int) < keys.len() by {
        assert(o[x] == s[x].1);
    }
    assert forall|i: int, j: int| 0 <= i < o.len() && 0 <= j < o.len() && i != j implies o[i] != o[j] by {
        assert(o[i] == s[i].1);
        assert(o[j] == s[j].1);
        if i < j { assert(keyed_lt(s[i], s[j])); } else { assert(keyed_lt(s[j], s[i])); }
    }
    assert forall|i: int, j: int| 0 <= i < j < keys.len() implies
        #[trigger] ordered_pair(keys, key_order(keys)[i] as int, key_order(keys)[j] as int) by {
        assert(keyed_lt(s[i], s[j]));
        assert(s[i] == (keys[s[i].1 as int], s[i].1));
        assert(s[j] == (keys[s[j].1 as int], s[j].1));
        assert(o[i] == s[i].1);
        assert(o[j] == s[j].1);
    }
    assert forall|x: int| 0 <= x < keys.len() implies #[trigger] key_order(keys).contains(x as usize) by {
        assert(k[x] == (keys[x], x as usize));
        assert(k.contains(k[x]));
        vstd::seq_lib::to_multiset_contains(k, k[x]);
        vstd::seq_lib::to_multiset_contains(s, k[x]);
        let i = choose|i: int| 0 <= i < s.len() && s[i] == k[x];
        assert(o[i] == s[i].1);
    }
}

} // verus!
