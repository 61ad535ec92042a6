//! A sparse height-indexed map, represented as a vector of (height, value)
//! pairs held in strictly ascending height order. This is the shared
//! representation of both the chain store and the changeset.

use vstd::prelude::*;

verus! {

/// The pairs are in strictly ascending height order (so heights are unique).
pub open spec fn strictly_sorted<V>(s: Seq<(u32, V)>) -> bool {
    forall|i: int, j: int|
        0 <= i < j < s.len() ==> (#[trigger] s[i]).0 < (#[trigger] s[j]).0
}

/// Some pair of `s` carries height `h`.
pub open spec fn has_height<V>(s: Seq<(u32, V)>, h: u32) -> bool {
    exists|i: int| 0 <= i < s.len() && (#[trigger] s[i]).0 == h
}

/// The map described by a sequence of (height, value) pairs; when a height
/// occurs more than once, the later pair wins.
pub open spec fn pairs_map<V>(s: Seq<(u32, V)>) -> Map<u32, V>
    decreases s.len(),
{
    if s.len() == 0 {
        Map::empty()
    } else {
        pairs_map(s.drop_last()).insert(s.last().0, s.last().1)
    }
}

/// A height is in the map exactly when some pair carries it.
pub proof fn lemma_pairs_map_domain<V>(s: Seq<(u32, V)>, h: u32)
    ensures
        pairs_map(s).contains_key(h) <==> has_height(s, h),
    decreases s.len(),
{
    if s.len() > 0 {
        lemma_pairs_map_domain(s.drop_last(), h);
        if s.last().0 != h {
            if has_height(s, h) {
                let i = choose|i: int| 0 <= i < s.len() && (#[trigger] s[i]).0 == h;
                assert(i < s.len() - 1);
                assert(s.drop_last()[i] == s[i]);
            }
            if has_height(s.drop_last(), h) {
                let i = choose|i: int|
                    0 <= i < s.drop_last().len() && (#[trigger] s.drop_last()[i]).0 == h;
                assert(s[i] == s.drop_last()[i]);
            }
        }
    }
}

/// A pair that no later pair overrides gives the map's value at its height.
pub proof fn lemma_pairs_map_index<V>(s: Seq<(u32, V)>, i: int)
    requires
        0 <= i < s.len(),
        forall|k: int| i < k < s.len() ==> (#[trigger] s[k]).0 != s[i].0,
    ensures
        pairs_map(s).contains_key(s[i].0),
        pairs_map(s)[s[i].0] == s[i].1,
    decreases s.len(),
{
    if i < s.len() - 1 {
        assert(s.drop_last()[i] == s[i]);
        assert forall|k: int| i < k < s.drop_last().len() implies (#[trigger] s.drop_last()[k]).0
            != s.drop_last()[i].0 by {
            assert(s.drop_last()[k] == s[k]);
        }
        lemma_pairs_map_index(s.drop_last(), i);
        assert(s[i].0 != s.last().0);
    }
}

/// The sorted representation is canonical: two sorted pair sequences that
/// describe the same map are the same sequence.
pub proof fn lemma_sorted_canonical<V>(s1: Seq<(u32, V)>, s2: Seq<(u32, V)>)
    requires
        strictly_sorted(s1),
        strictly_sorted(s2),
        pairs_map(s1) == pairs_map(s2),
    ensures
        s1 == s2,
    decreases s1.len(),
{
    if s1.len() == 0 {
        if s2.len() > 0 {
            lemma_pairs_map_index(s2, s2.len() - 1);
            lemma_pairs_map_domain(s1, s2.last().0);
        }
        assert(s1 =~= s2);
    } else if s2.len() == 0 {
        lemma_pairs_map_index(s1, s1.len() - 1);
        lemma_pairs_map_domain(s2, s1.last().0);
    } else {
        let l1 = s1.last();
        let l2 = s2.last();
        lemma_pairs_map_index(s1, s1.len() - 1);
        lemma_pairs_map_index(s2, s2.len() - 1);
        lemma_pairs_map_domain(s1, l2.0);
        lemma_pairs_map_domain(s2, l1.0);
        let k1 = choose|k: int| 0 <= k < s1.len() && (#[trigger] s1[k]).0 == l2.0;
        let k2 = choose|k: int| 0 <= k < s2.len() && (#[trigger] s2[k]).0 == l1.0;
        assert(s1[k1].0 <= l1.0);
        assert(s2[k2].0 <= l2.0);
        assert(l1.0 == l2.0);
        assert(l1.1 == pairs_map(s1)[l1.0]);
        assert(l2.1 == pairs_map(s2)[l2.0]);
        assert(l1 == l2);
        lemma_pairs_map_domain(s1.drop_last(), l1.0);
        if has_height(s1.drop_last(), l1.0) {
            let k = choose|k: int|
                0 <= k < s1.drop_last().len() && (#[trigger] s1.drop_last()[k]).0 == l1.0;
            assert(s1[k] == s1.drop_last()[k]);
        }
        lemma_pairs_map_domain(s2.drop_last(), l2.0);
        if has_height(s2.drop_last(), l2.0) {
            let k = choose|k: int|
                0 <= k < s2.drop_last().len() && (#[trigger] s2.drop_last()[k]).0 == l2.0;
            assert(s2[k] == s2.drop_last()[k]);
        }
        assert(pairs_map(s1.drop_last()) =~= pairs_map(s1).remove(l1.0));
        assert(pairs_map(s2.drop_last()) =~= pairs_map(s2).remove(l2.0));
        lemma_sorted_canonical(s1.drop_last(), s2.drop_last());
        assert forall|i: int| 0 <= i < s1.len() implies s1[i] == s2[i] by {
            if i < s1.len() - 1 {
                assert(s1.drop_last()[i] == s2.drop_last()[i]);
            }
        }
        assert(s1 =~= s2);
    }
}

/// Extending a prefix by one pair adds exactly that pair's height.
pub proof fn lemma_has_height_take_step<V>(s: Seq<(u32, V)>, j: int, h: u32)
    requires
        0 <= j < s.len(),
    ensures
        has_height(s.take(j + 1), h) <==> (has_height(s.take(j), h) || s[j].0 == h),
{
    if has_height(s.take(j + 1), h) {
        let kk = choose|kk: int|
            0 <= kk < s.take(j + 1).len() && (#[trigger] s.take(j + 1)[kk]).0 == h;
        if kk < j {
            assert(s.take(j)[kk].0 == h);
        }
    }
    if has_height(s.take(j), h) {
        let kk = choose|kk: int| 0 <= kk < s.take(j).len() && (#[trigger] s.take(j)[kk]).0 == h;
        assert(s.take(j + 1)[kk].0 == h);
    }
    if s[j].0 == h {
        assert(s.take(j + 1)[j].0 == h);
    }
}

/// Looks up the value recorded at `height`, if any: with duplicate heights
/// the latest pair wins, as in `pairs_map`.
pub fn lookup<V: Copy>(v: &Vec<(u32, V)>, height: u32) -> (r: Option<V>)
    ensures
        match r {
            Some(value) => pairs_map(v@).contains_key(height) && pairs_map(v@)[height] == value,
            None => !pairs_map(v@).contains_key(height),
        },
{
    let n = v.len();
    let mut i: usize = n;
    while i > 0
        invariant
            n == v@.len(),
            0 <= i <= n,
            forall|k: int| i <= k < n ==> (#[trigger] v@[k]).0 != height,
        decreases i,
    {
        if v[i - 1].0 == height {
            proof {
                lemma_pairs_map_index(v@, i - 1);
            }
            return Some(v[i - 1].1);
        }
        i -= 1;
    }
    proof {
        lemma_pairs_map_domain(v@, height);
    }
    None
}

/// Inserts `value` at `height`, overwriting any value already there.
pub fn upsert<V: Copy>(v: &mut Vec<(u32, V)>, height: u32, value: V)
    requires
        strictly_sorted(old(v)@),
    ensures
        strictly_sorted(final(v)@),
        pairs_map(final(v)@) == pairs_map(old(v)@).insert(height, value),
{
    let ghost s0 = v@;
    let n = v.len();
    let mut i: usize = 0;
    while i < n && v[i].0 < height
        invariant
            strictly_sorted(v@),
            v@ == s0,
            n == v@.len(),
            0 <= i <= n,
            forall|k: int| 0 <= k < i ==> (#[trigger] v@[k]).0 < height,
        decreases n - i,
    {
        i += 1;
    }
    if i < n && v[i].0 == height {
        v.set(i, (height, value));
        proof {
            lemma_sorted_update(s0, v@, i as int, height, value);
        }
    } else {
        v.insert(i, (height, value));
        proof {
            lemma_sorted_insert_at(s0, v@, i as int, height, value);
        }
    }
}

/// Removes the entry at `height`, if there is one.
pub fn delete<V: Copy>(v: &mut Vec<(u32, V)>, height: u32)
    requires
        strictly_sorted(old(v)@),
    ensures
        strictly_sorted(final(v)@),
        pairs_map(final(v)@) == pairs_map(old(v)@).remove(height),
{
    let ghost s0 = v@;
    let n = v.len();
    let mut i: usize = 0;
    while i < n && v[i].0 != height
        invariant
            strictly_sorted(v@),
            v@ == s0,
            n == v@.len(),
            0 <= i <= n,
            forall|k: int| 0 <= k < i ==> (#[trigger] v@[k]).0 != height,
        decreases n - i,
    {
        i += 1;
    }
    if i < n {
        v.remove(i);
        proof {
            lemma_sorted_remove_at(s0, v@, i as int, height);
        }
    } else {
        proof {
            lemma_pairs_map_domain(s0, height);
            assert(pairs_map(s0).remove(height) =~= pairs_map(s0));
        }
    }
}

/// Overwriting the pair at position `i` updates the map at that height.
proof fn lemma_sorted_update<V>(s0: Seq<(u32, V)>, s1: Seq<(u32, V)>, i: int, height: u32, value: V)
    requires
        strictly_sorted(s0),
        0 <= i < s0.len(),
        s0[i].0 == height,
        s1 == s0.update(i, (height, value)),
    ensures
        strictly_sorted(s1),
        pairs_map(s1) == pairs_map(s0).insert(height, value),
{
    assert(strictly_sorted(s1));
    assert forall|h: u32| #[trigger]
        pairs_map(s1).contains_key(h) == pairs_map(s0).insert(height, value).contains_key(h)
        && (pairs_map(s1).contains_key(h) ==> pairs_map(s1)[h] == pairs_map(s0).insert(
        height,
        value,
    )[h]) by {
        lemma_pairs_map_domain(s0, h);
        lemma_pairs_map_domain(s1, h);
        if h == height {
            lemma_pairs_map_index(s1, i);
        } else {
            if has_height(s0, h) {
                let k = choose|k: int| 0 <= k < s0.len() && (#[trigger] s0[k]).0 == h;
                assert(s1[k] == s0[k]);
                lemma_pairs_map_index(s0, k);
                lemma_pairs_map_index(s1, k);
            }
            if has_height(s1, h) {
                let k = choose|k: int| 0 <= k < s1.len() && (#[trigger] s1[k]).0 == h;
                assert(k != i);
                assert(s1[k] == s0[k]);
            }
        }
    }
    assert(pairs_map(s1) =~= pairs_map(s0).insert(height, value));
}

/// Inserting a fresh pair at its sorted position updates the map at that height.
proof fn lemma_sorted_insert_at<V>(
    s0: Seq<(u32, V)>,
    s1: Seq<(u32, V)>,
    i: int,
    height: u32,
    value: V,
)
    requires
        strictly_sorted(s0),
        0 <= i <= s0.len(),
        forall|k: int| 0 <= k < i ==> (#[trigger] s0[k]).0 < height,
        forall|k: int| i <= k < s0.len() ==> (#[trigger] s0[k]).0 > height,
        s1 == s0.insert(i, (height, value)),
    ensures
        strictly_sorted(s1),
        pairs_map(s1) == pairs_map(s0).insert(height, value),
{
    assert forall|p: int, q: int| 0 <= p < q < s1.len() implies (#[trigger] s1[p]).0 < (
    #[trigger] s1[q]).0 by {
        assert(p < i ==> s1[p] == s0[p]);
        assert(p > i ==> s1[p] == s0[p - 1]);
        assert(q < i ==> s1[q] == s0[q]);
        assert(q > i ==> s1[q] == s0[q - 1]);
    }
    assert forall|h: u32| #[trigger]
        pairs_map(s1).contains_key(h) == pairs_map(s0).insert(height, value).contains_key(h)
        && (pairs_map(s1).contains_key(h) ==> pairs_map(s1)[h] == pairs_map(s0).insert(
        height,
        value,
    )[h]) by {
        lemma_pairs_map_domain(s0, h);
        lemma_pairs_map_domain(s1, h);
        if h == height {
            assert(s1[i] == (height, value));
            lemma_pairs_map_index(s1, i);
        } else {
            if has_height(s0, h) {
                let k = choose|k: int| 0 <= k < s0.len() && (#[trigger] s0[k]).0 == h;
                let k1: int = if k < i {
                    k
                } else {
                    k + 1
                };
                assert(s1[k1] == s0[k]);
                lemma_pairs_map_index(s0, k);
                lemma_pairs_map_index(s1, k1);
            }
            if has_height(s1, h) {
                let k = choose|k: int| 0 <= k < s1.len() && (#[trigger] s1[k]).0 == h;
                assert(k != i);
                let k0: int = if k < i {
                    k
                } else {
                    k - 1
                };
                assert(s1[k] == s0[k0]);
            }
        }
    }
    assert(pairs_map(s1) =~= pairs_map(s0).insert(height, value));
}

/// Removing the pair at position `i` removes that height from the map.
proof fn lemma_sorted_remove_at<V>(s0: Seq<(u32, V)>, s1: Seq<(u32, V)>, i: int, height: u32)
    requires
        strictly_sorted(s0),
        0 <= i < s0.len(),
        s0[i].0 == height,
        s1 == s0.remove(i),
    ensures
        strictly_sorted(s1),
        pairs_map(s1) == pairs_map(s0).remove(height),
{
    assert forall|p: int, q: int| 0 <= p < q < s1.len() implies (#[trigger] s1[p]).0 < (
    #[trigger] s1[q]).0 by {
        assert(p < i ==> s1[p] == s0[p]);
        assert(p >= i ==> s1[p] == s0[p + 1]);
        assert(q < i ==> s1[q] == s0[q]);
        assert(q >= i ==> s1[q] == s0[q + 1]);
    }
    assert forall|h: u32| #[trigger]
        pairs_map(s1).contains_key(h) == pairs_map(s0).remove(height).contains_key(h)
        && (pairs_map(s1).contains_key(h) ==> pairs_map(s1)[h] == pairs_map(s0).remove(height)[h])
        by {
        lemma_pairs_map_domain(s0, h);
        lemma_pairs_map_domain(s1, h);
        if h == height {
            if has_height(s1, h) {
                let k = choose|k: int| 0 <= k < s1.len() && (#[trigger] s1[k]).0 == h;
                assert(k < i ==> s1[k] == s0[k]);
                assert(k >= i ==> s1[k] == s0[k + 1]);
            }
        } else {
            if has_height(s0, h) {
                let k = choose|k: int| 0 <= k < s0.len() && (#[trigger] s0[k]).0 == h;
                assert(k != i);
                let k1: int = if k < i {
                    k
                } else {
                    k - 1
                };
                assert(s1[k1] == s0[k]);
                lemma_pairs_map_index(s0, k);
                lemma_pairs_map_index(s1, k1);
            }
            if has_height(s1, h) {
                let k = choose|k: int| 0 <= k < s1.len() && (#[trigger] s1[k]).0 == h;
                assert(k < i ==> s1[k] == s0[k]);
                assert(k >= i ==> s1[k] == s0[k + 1]);
            }
        }
    }
    assert(pairs_map(s1) =~= pairs_map(s0).remove(height));
}

} // verus!
