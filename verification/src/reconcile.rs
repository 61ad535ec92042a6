//! The mathematical model of reconciliation: what the agreement height, the
//! invalidation bound, the connectivity check and the resulting changeset are,
//! stated over maps from height to identity. The executable store proves its
//! methods against these definitions.

use vstd::prelude::*;

use crate::BlockHash;
use crate::BlockId;

verus! {

/// The answer the local chain store gives to an ancestor query: unknowable
/// orderings and heights the store has no record of are indeterminate, and a
/// definite answer demands that both the queried block and the static
/// reference match the store exactly.
pub open spec fn ancestor_query(m: Map<u32, BlockHash>, block: BlockId, static_block: BlockId) -> Option<bool> {
    if block.height > static_block.height {
        None
    } else if m.contains_key(block.height) && m.contains_key(static_block.height) {
        Some(m[block.height] == block.hash && m[static_block.height] == static_block.hash)
    } else {
        None
    }
}

/// The store and the update record the same identity at height `h`.
pub open spec fn agrees_at(s: Map<u32, BlockHash>, u: Map<u32, BlockHash>, h: u32) -> bool {
    s.contains_key(h) && u.contains_key(h) && s[h] == u[h]
}

/// `h` is the greatest height at which store and update agree.
pub open spec fn is_agreement_height(
    s: Map<u32, BlockHash>,
    u: Map<u32, BlockHash>,
    h: u32,
) -> bool {
    agrees_at(s, u, h) && forall|h2: u32| agrees_at(s, u, h2) ==> h2 <= h
}

/// `h` is the greatest height recorded in `m`.
pub open spec fn is_tip_height(m: Map<u32, BlockHash>, h: u32) -> bool {
    m.contains_key(h) && forall|h2: u32| m.contains_key(h2) ==> h2 <= h
}

/// `h` is the least height of the store at or above `lb`.
pub open spec fn is_first_at_or_above(s: Map<u32, BlockHash>, lb: u32, h: u32) -> bool {
    s.contains_key(h) && lb <= h && forall|h2: u32| s.contains_key(h2) && lb <= h2 ==> h <= h2
}

/// The lower bound of the heights to invalidate. `None` stands for "no
/// invalidation at all": the update's tip already agrees with the store.
pub open spec fn invalidate_lower_bound(s: Map<u32, BlockHash>, u: Map<u32, BlockHash>) -> Option<
    u32,
> {
    if exists|h: u32| is_agreement_height(s, u, h) {
        let a = choose|h: u32| is_agreement_height(s, u, h);
        if is_tip_height(u, a) {
            None
        } else {
            Some((a + 1) as u32)
        }
    } else {
        Some(0)
    }
}

/// The first height of the store that requires invalidation, if any.
pub open spec fn first_invalid_height(s: Map<u32, BlockHash>, u: Map<u32, BlockHash>) -> Option<
    u32,
> {
    match invalidate_lower_bound(s, u) {
        None => None,
        Some(lb) => if exists|h: u32| is_first_at_or_above(s, lb, h) {
            Some(choose|h: u32| is_first_at_or_above(s, lb, h))
        } else {
            None
        },
    }
}

/// The store's entry at `h` is stale: it sits at or above the first height to
/// invalidate.
pub open spec fn stale_at(s: Map<u32, BlockHash>, f: Option<u32>, h: u32) -> bool {
    f is Some && s.contains_key(h) && f.unwrap() <= h
}

/// The update sets `h`: it records an identity there that the store lacks.
pub open spec fn updated_at(s: Map<u32, BlockHash>, u: Map<u32, BlockHash>, h: u32) -> bool {
    u.contains_key(h) && !(s.contains_key(h) && s[h] == u[h])
}

/// The changeset that reconciliation produces, given the first height to
/// invalidate: a removal for every stale store entry, overridden by an
/// insertion for every height the update sets.
pub open spec fn changeset_map(
    s: Map<u32, BlockHash>,
    u: Map<u32, BlockHash>,
    f: Option<u32>,
) -> Map<u32, Option<BlockHash>> {
    Map::new(
        |h: u32| stale_at(s, f, h) || updated_at(s, u, h),
        |h: u32|
            if updated_at(s, u, h) {
                Some(u[h])
            } else {
                None
            },
    )
}

/// What reconciling store `s` against update `u` yields: the changeset, or
/// the height at which the update fails to connect.
pub open spec fn reconcile(s: Map<u32, BlockHash>, u: Map<u32, BlockHash>) -> Result<
    Map<u32, Option<BlockHash>>,
    u32,
> {
    if forall|h: u32| !u.contains_key(h) {
        Ok(Map::empty())
    } else {
        match first_invalid_height(s, u) {
            Some(f) => if u.contains_key(f) {
                Ok(changeset_map(s, u, Some(f)))
            } else {
                Err(f)
            },
            None => Ok(changeset_map(s, u, None)),
        }
    }
}

/// The store that results from applying changeset `c` to store `m`: a present
/// value overwrites the height, an absent marker removes it.
pub open spec fn apply_map(m: Map<u32, BlockHash>, c: Map<u32, Option<BlockHash>>) -> Map<
    u32,
    BlockHash,
> {
    Map::new(
        |h: u32|
            if c.contains_key(h) {
                c[h] is Some
            } else {
                m.contains_key(h)
            },
        |h: u32|
            if c.contains_key(h) {
                c[h].unwrap()
            } else {
                m[h]
            },
    )
}

/// The changeset that rebuilds store `m` from nothing: every entry, present.
pub open spec fn initial_map(m: Map<u32, BlockHash>) -> Map<u32, Option<BlockHash>> {
    Map::new(|h: u32| m.contains_key(h), |h: u32| Some(m[h]))
}

/// Among the heights `h` at or below `bound` with `p(h)`, there is a greatest.
proof fn lemma_greatest_below(p: spec_fn(u32) -> bool, bound: u32)
    requires
        exists|h: u32| h <= bound && #[trigger] p(h),
    ensures
        exists|h: u32| h <= bound && #[trigger] p(h) && forall|h2: u32| h2 <= bound && #[trigger] p(h2) ==> h2 <= h,
    decreases bound,
{
    if p(bound) {
        assert(bound <= bound && p(bound) && forall|h2: u32|
            h2 <= bound && #[trigger] p(h2) ==> h2 <= bound);
    } else {
        assert(exists|h: u32| h <= (bound - 1) as u32 && #[trigger] p(h));
        lemma_greatest_below(p, (bound - 1) as u32);
        let w = choose|h: u32|
            h <= (bound - 1) as u32 && #[trigger] p(h) && forall|h2: u32|
                h2 <= (bound - 1) as u32 && #[trigger] p(h2) ==> h2 <= h;
        assert(w <= bound && p(w) && forall|h2: u32| h2 <= bound && #[trigger] p(h2) ==> h2 <= w);
    }
}

/// Every nonempty set of heights with `p` has a greatest member.
pub proof fn lemma_greatest(p: spec_fn(u32) -> bool)
    requires
        exists|h: u32| #[trigger] p(h),
    ensures
        exists|h: u32| #[trigger] p(h) && forall|h2: u32| #[trigger] p(h2) ==> h2 <= h,
{
    let w0 = choose|h: u32| #[trigger] p(h);
    assert(w0 <= u32::MAX && p(w0));
    lemma_greatest_below(p, u32::MAX);
    let w = choose|h: u32|
        h <= u32::MAX && #[trigger] p(h) && forall|h2: u32| h2 <= u32::MAX && #[trigger] p(h2) ==> h2 <= h;
    assert(forall|h2: u32| #[trigger] p(h2) ==> h2 <= w);
}

/// If store and update agree anywhere, there is an agreement height.
pub proof fn lemma_agreement_exists(s: Map<u32, BlockHash>, u: Map<u32, BlockHash>, h: u32)
    requires
        agrees_at(s, u, h),
    ensures
        exists|a: u32| is_agreement_height(s, u, a),
{
    let p = |h2: u32| agrees_at(s, u, h2);
    assert(p(h));
    lemma_greatest(p);
    let a = choose|h2: u32| #[trigger] p(h2) && forall|h3: u32| #[trigger] p(h3) ==> h3 <= h2;
    assert(agrees_at(s, u, a));
    assert forall|h2: u32| agrees_at(s, u, h2) implies h2 <= a by {
        assert(p(h2));
    }
    assert(is_agreement_height(s, u, a));
}

/// The invalidation bound, given the agreement height.
pub proof fn lemma_lower_bound_at(s: Map<u32, BlockHash>, u: Map<u32, BlockHash>, a: u32)
    requires
        is_agreement_height(s, u, a),
    ensures
        invalidate_lower_bound(s, u) == if is_tip_height(u, a) {
            None::<u32>
        } else {
            Some((a + 1) as u32)
        },
        !is_tip_height(u, a) ==> a < u32::MAX,
{
    assert(exists|h: u32| is_agreement_height(s, u, h));
    let c = choose|h: u32| is_agreement_height(s, u, h);
    assert(agrees_at(s, u, c));
    assert(agrees_at(s, u, a));
    assert(c <= a && a <= c);
    if !is_tip_height(u, a) {
        let w = choose|h2: u32| u.contains_key(h2) && !(h2 <= a);
        assert(u.contains_key(w) && a < w);
    }
}

/// The invalidation bound when store and update agree nowhere.
pub proof fn lemma_lower_bound_none(s: Map<u32, BlockHash>, u: Map<u32, BlockHash>)
    requires
        forall|h: u32| !agrees_at(s, u, h),
    ensures
        invalidate_lower_bound(s, u) == Some(0u32),
{
    assert(forall|h: u32| !is_agreement_height(s, u, h));
}

/// The first height to invalidate, given a witness for it.
pub proof fn lemma_first_invalid_at(s: Map<u32, BlockHash>, u: Map<u32, BlockHash>, f: u32)
    requires
        invalidate_lower_bound(s, u) is Some,
        is_first_at_or_above(s, invalidate_lower_bound(s, u).unwrap(), f),
    ensures
        first_invalid_height(s, u) == Some(f),
{
    let lb = invalidate_lower_bound(s, u).unwrap();
    assert(exists|h: u32| is_first_at_or_above(s, lb, h));
    let c = choose|h: u32| is_first_at_or_above(s, lb, h);
    assert(s.contains_key(c) && lb <= c);
    assert(s.contains_key(f) && lb <= f);
    assert(c <= f && f <= c);
}

/// There is no height to invalidate when the store holds nothing at or above
/// the bound.
pub proof fn lemma_first_invalid_none(s: Map<u32, BlockHash>, u: Map<u32, BlockHash>)
    requires
        invalidate_lower_bound(s, u) matches Some(lb) ==> forall|h: u32|
            s.contains_key(h) ==> h < lb,
    ensures
        first_invalid_height(s, u) is None,
{
    match invalidate_lower_bound(s, u) {
        None => {},
        Some(lb) => {
            assert(forall|h: u32| !is_first_at_or_above(s, lb, h));
        },
    }
}

/// Minimality: a successfully computed changeset never carries an entry for a
/// height where store and update already agree.
pub proof fn lemma_reconcile_minimal(s: Map<u32, BlockHash>, u: Map<u32, BlockHash>, h: u32)
    requires
        reconcile(s, u) is Ok,
        agrees_at(s, u, h),
    ensures
        !reconcile(s, u)->Ok_0.contains_key(h),
{
    lemma_agreement_exists(s, u, h);
    let a = choose|a2: u32| is_agreement_height(s, u, a2);
    assert(is_agreement_height(s, u, a));
    assert(h <= a);
    assert(!updated_at(s, u, h));
    match first_invalid_height(s, u) {
        None => {},
        Some(f) => {
            lemma_lower_bound_at(s, u, a);
            if is_tip_height(u, a) {
                assert(first_invalid_height(s, u) is None);
            } else {
                let lb = (a + 1) as u32;
                assert(exists|h2: u32| is_first_at_or_above(s, lb, h2));
                let c = choose|h2: u32| is_first_at_or_above(s, lb, h2);
                assert(lb <= c);
                assert(f == c);
                assert(h < lb);
                assert(!stale_at(s, Some(f), h));
            }
        },
    }
}

/// Round trip: applying a store's initial changeset to an empty store
/// reproduces the store exactly.
pub proof fn lemma_initial_changeset_round_trip(m: Map<u32, BlockHash>)
    ensures
        apply_map(Map::empty(), initial_map(m)) == m,
{
    assert(apply_map(Map::empty(), initial_map(m)) =~= m);
}

/// Applying an empty changeset changes nothing.
pub proof fn lemma_apply_empty(m: Map<u32, BlockHash>)
    ensures
        apply_map(m, Map::empty()) == m,
{
    assert(apply_map(m, Map::empty()) =~= m);
}

/// Re-application stability: applying the same changeset a second time to a
/// store already advanced by it leaves the store unchanged.
pub proof fn lemma_apply_twice(m: Map<u32, BlockHash>, c: Map<u32, Option<BlockHash>>)
    ensures
        apply_map(apply_map(m, c), c) == apply_map(m, c),
{
    assert(apply_map(apply_map(m, c), c) =~= apply_map(m, c));
}

} // verus!
