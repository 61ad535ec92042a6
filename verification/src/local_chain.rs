//! The local chain: a sparse, ordered store of height-to-identity
//! checkpoints. It answers ancestor queries over its own record, reconciles
//! itself against update snapshots, and is mutated only by applying a
//! changeset.

use vstd::prelude::*;

use core::convert::Infallible;

use crate::BlockHash;
use crate::BlockId;
use crate::chain_oracle::ChainOracle;
use crate::changeset::ChangeSet;
use crate::changeset::UpdateNotConnectedError;
use crate::reconcile::agrees_at;
use crate::reconcile::ancestor_query;
use crate::reconcile::apply_map;
use crate::reconcile::changeset_map;
use crate::reconcile::first_invalid_height;
use crate::reconcile::initial_map;
use crate::reconcile::invalidate_lower_bound;
use crate::reconcile::is_agreement_height;
use crate::reconcile::is_first_at_or_above;
use crate::reconcile::is_tip_height;
use crate::reconcile::lemma_first_invalid_at;
use crate::reconcile::lemma_first_invalid_none;
use crate::reconcile::lemma_lower_bound_at;
use crate::reconcile::lemma_lower_bound_none;
use crate::reconcile::lemma_reconcile_minimal;
use crate::reconcile::reconcile;
use crate::reconcile::stale_at;
use crate::reconcile::updated_at;
use crate::sparse::has_height;
use crate::sparse::lemma_has_height_take_step;
use crate::sparse::lemma_pairs_map_domain;
use crate::sparse::lemma_pairs_map_index;
use crate::sparse::lemma_sorted_canonical;
use crate::sparse::lookup;
use crate::sparse::pairs_map;
use crate::sparse::strictly_sorted;
use crate::sparse::upsert;

verus! {

/// The map described by a sequence of checkpoints; when two checkpoints carry
/// the same height, the later one wins.
pub open spec fn blocks_map(s: Seq<BlockId>) -> Map<u32, BlockHash>
    decreases s.len(),
{
    if s.len() == 0 {
        Map::empty()
    } else {
        blocks_map(s.drop_last()).insert(s.last().height, s.last().hash)
    }
}

/// A sparse ordered store of height-to-identity checkpoints. Gaps are heights
/// about which nothing is known, not heights known to be empty.
#[derive(Debug)]
pub struct LocalChain {
    blocks: Vec<(u32, BlockHash)>,
}

impl LocalChain {
    /// The checkpoints are held in strictly ascending height order.
    pub closed spec fn wf(self) -> bool {
        strictly_sorted(self.blocks@)
    }

    /// Constructs the store from a collection of checkpoints; when two carry
    /// the same height, the later one in the collection wins.
    pub fn from_blocks(blocks: Vec<BlockId>) -> (r: LocalChain)
        ensures
            r.wf(),
            r@ == blocks_map(blocks@),
    {
        let n = blocks.len();
        let mut chain = LocalChain { blocks: Vec::new() };
        let mut i: usize = 0;
        while i < n
            invariant
                n == blocks@.len(),
                0 <= i <= n,
                strictly_sorted(chain.blocks@),
                pairs_map(chain.blocks@) == blocks_map(blocks@.take(i as int)),
            decreases n - i,
        {
            upsert(&mut chain.blocks, blocks[i].height, blocks[i].hash);
            proof {
                assert(blocks@.take(i + 1).drop_last() =~= blocks@.take(i as int));
                assert(blocks@.take(i + 1).last() == blocks@[i as int]);
            }
            i += 1;
        }
        proof {
            assert(blocks@.take(n as int) =~= blocks@);
        }
        chain
    }

    /// The checkpoint with the greatest height, or `None` if the store is
    /// empty.
    pub fn tip(&self) -> (r: Option<BlockId>)
        requires
            self.wf(),
        ensures
            match r {
                Some(b) => self@.contains_key(b.height) && self@[b.height] == b.hash
                    && is_tip_height(self@, b.height),
                None => self@ == Map::<u32, BlockHash>::empty(),
            },
    {
        let n = self.blocks.len();
        if n == 0 {
            None
        } else {
            let e = self.blocks[n - 1];
            proof {
                lemma_pairs_map_index(self.blocks@, n - 1);
                assert forall|h2: u32| self@.contains_key(h2) implies h2 <= e.0 by {
                    lemma_pairs_map_domain(self.blocks@, h2);
                    let k = choose|k: int|
                        0 <= k < self.blocks@.len() && (#[trigger] self.blocks@[k]).0 == h2;
                    assert(k <= n - 1);
                }
            }
            Some(BlockId { height: e.0, hash: e.1 })
        }
    }

    /// The checkpoint recorded at the given height, or `None`.
    pub fn get_block(&self, height: u32) -> (r: Option<BlockId>)
        ensures
            match r {
                Some(b) => b.height == height && self@.contains_key(height) && self@[height]
                    == b.hash,
                None => !self@.contains_key(height),
            },
    {
        match lookup(&self.blocks, height) {
            Some(hash) => Some(BlockId { height, hash }),
            None => None,
        }
    }

    /// The full contents as checkpoints in ascending height order: the plain
    /// form for snapshot interchange.
    pub fn blocks(&self) -> (r: Vec<BlockId>)
        requires
            self.wf(),
        ensures
            forall|i: int, j: int|
                0 <= i < j < r@.len() ==> (#[trigger] r@[i]).height < (#[trigger] r@[j]).height,
            forall|i: int|
                0 <= i < r@.len() ==> self@.contains_key((#[trigger] r@[i]).height) && self@[r@[
                    i
                ].height] == r@[i].hash,
            forall|h: u32|
                self@.contains_key(h) ==> exists|i: int|
                    0 <= i < r@.len() && (#[trigger] r@[i]).height == h,
    {
        let n = self.blocks.len();
        let mut r: Vec<BlockId> = Vec::new();
        let mut i: usize = 0;
        while i < n
            invariant
                n == self.blocks@.len(),
                strictly_sorted(self.blocks@),
                0 <= i <= n,
                r@.len() == i,
                forall|k: int|
                    0 <= k < i ==> #[trigger] r@[k] == (BlockId {
                        height: self.blocks@[k].0,
                        hash: self.blocks@[k].1,
                    }),
            decreases n - i,
        {
            let e = self.blocks[i];
            r.push(BlockId { height: e.0, hash: e.1 });
            i += 1;
        }
        proof {
            assert forall|k: int| 0 <= k < n implies self@.contains_key(
                (#[trigger] r@[k]).height,
            ) && self@[r@[k].height] == r@[k].hash by {
                lemma_pairs_map_index(self.blocks@, k);
            }
            assert forall|h: u32| self@.contains_key(h) implies exists|k: int|
                0 <= k < r@.len() && (#[trigger] r@[k]).height == h by {
                lemma_pairs_map_domain(self.blocks@, h);
                let k = choose|k: int|
                    0 <= k < self.blocks@.len() && (#[trigger] self.blocks@[k]).0 == h;
                assert(r@[k].height == h);
            }
        }
        r
    }

    /// The changeset that rebuilds the store from nothing: every checkpoint,
    /// staged as a present entry. Used to seed external persistence of the
    /// whole store as a diff against an empty starting point.
    pub fn initial_changeset(&self) -> (r: ChangeSet)
        requires
            self.wf(),
        ensures
            r.wf(),
            r@ == initial_map(self@),
    {
        let n = self.blocks.len();
        let mut cs = ChangeSet::new();
        let mut i: usize = 0;
        proof {
            assert(cs@ =~= initial_map(pairs_map(self.blocks@.take(0))));
        }
        while i < n
            invariant
                n == self.blocks@.len(),
                strictly_sorted(self.blocks@),
                0 <= i <= n,
                cs.wf(),
                cs@ == initial_map(pairs_map(self.blocks@.take(i as int))),
            decreases n - i,
        {
            let e = self.blocks[i];
            cs.insert_entry(e.0, Some(e.1));
            proof {
                assert(self.blocks@.take(i + 1).drop_last() =~= self.blocks@.take(i as int));
                assert(self.blocks@.take(i + 1).last() == self.blocks@[i as int]);
                assert(cs@ =~= initial_map(pairs_map(self.blocks@.take(i + 1))));
            }
            i += 1;
        }
        proof {
            assert(self.blocks@.take(n as int) =~= self.blocks@);
        }
        cs
    }

    /// Applies the given changeset: a present entry inserts or overwrites its
    /// height, an absent marker removes it outright.
    pub fn apply_changeset(&mut self, changeset: ChangeSet)
        requires
            old(self).wf(),
            changeset.wf(),
        ensures
            final(self).wf(),
            final(self)@ == apply_map(old(self)@, changeset@),
    {
        let ghost m0 = old(self)@;
        let entries = changeset.entries();
        let n = entries.len();
        let mut i: usize = 0;
        proof {
            assert(pairs_map(entries@.take(0)) =~= Map::<u32, Option<BlockHash>>::empty());
            assert(apply_map(m0, pairs_map(entries@.take(0))) =~= m0);
        }
        while i < n
            invariant
                n == entries@.len(),
                0 <= i <= n,
                strictly_sorted(self.blocks@),
                pairs_map(self.blocks@) == apply_map(m0, pairs_map(entries@.take(i as int))),
            decreases n - i,
        {
            let e = entries[i];
            match e.1 {
                Some(hash) => upsert(&mut self.blocks, e.0, hash),
                None => crate::sparse::delete(&mut self.blocks, e.0),
            }
            proof {
                assert(entries@.take(i + 1).drop_last() =~= entries@.take(i as int));
                assert(entries@.take(i + 1).last() == entries@[i as int]);
                let c = pairs_map(entries@.take(i as int));
                let c1 = pairs_map(entries@.take(i + 1));
                assert(c1 == c.insert(e.0, e.1));
                assert(pairs_map(self.blocks@) =~= apply_map(m0, c1));
            }
            i += 1;
        }
        proof {
            assert(entries@.take(n as int) =~= entries@);
            assert(pairs_map(entries@) == changeset@);
        }
    }

    /// Computes the minimal changeset that transforms this store into one
    /// consistent with `update`, or fails with the lowest height at which the
    /// store requires invalidation but the update supplies no replacement
    /// checkpoint.
    pub fn determine_changeset(&self, update: &LocalChain) -> (r: Result<
        ChangeSet,
        UpdateNotConnectedError,
    >)
        requires
            self.wf(),
            update.wf(),
        ensures
            match r {
                Ok(cs) => {
                    &&& cs.wf()
                    &&& reconcile(self@, update@) is Ok
                    &&& cs@ == reconcile(self@, update@)->Ok_0
                    &&& forall|h: u32| agrees_at(self@, update@, h) ==> !cs@.contains_key(h)
                },
                Err(e) => {
                    &&& reconcile(self@, update@) == Err::<Map<u32, Option<BlockHash>>, u32>(e.0)
                    &&& self@.contains_key(e.0)
                    &&& !update@.contains_key(e.0)
                },
            },
    {
        let un = update.blocks.len();
        if un == 0 {
            proof {
                assert(forall|h: u32| !update@.contains_key(h));
            }
            return Ok(ChangeSet::new());
        }
        let update_tip = update.blocks[un - 1].0;
        proof {
            lemma_pairs_map_index(update.blocks@, un - 1);
            assert forall|h2: u32| update@.contains_key(h2) implies h2 <= update_tip by {
                lemma_pairs_map_domain(update.blocks@, h2);
                let k = choose|k: int|
                    0 <= k < update.blocks@.len() && (#[trigger] update.blocks@[k]).0 == h2;
                assert(k <= un - 1);
            }
            assert(is_tip_height(update@, update_tip));
        }
        // The greatest height at which the update and this store record the
        // same identity, scanning the update from its greatest height down.
        let mut agreement: Option<u32> = None;
        let mut k: usize = un;
        while k > 0 && agreement.is_none()
            invariant
                self.wf(),
                update.wf(),
                un == update.blocks@.len(),
                0 <= k <= un,
                agreement is None ==> forall|jj: int|
                    k <= jj < un ==> !agrees_at(
                        self@,
                        update@,
                        (#[trigger] update.blocks@[jj]).0,
                    ),
                agreement matches Some(a) ==> is_agreement_height(self@, update@, a),
            decreases k,
        {
            let e = update.blocks[k - 1];
            proof {
                lemma_pairs_map_index(update.blocks@, k - 1);
            }
            let hit = match lookup(&self.blocks, e.0) {
                Some(sh) => sh == e.1,
                None => false,
            };
            if hit {
                agreement = Some(e.0);
                proof {
                    assert(agrees_at(self@, update@, e.0));
                    assert forall|h2: u32| agrees_at(self@, update@, h2) implies h2 <= e.0 by {
                        lemma_pairs_map_domain(update.blocks@, h2);
                        let jj = choose|jj: int|
                            0 <= jj < update.blocks@.len() && (#[trigger] update.blocks@[jj]).0
                                == h2;
                        if jj >= k {
                            assert(!agrees_at(self@, update@, update.blocks@[jj].0));
                        }
                    }
                    assert(is_agreement_height(self@, update@, e.0));
                }
            } else {
                proof {
                    assert(!agrees_at(self@, update@, e.0));
                }
            }
            k -= 1;
        }
        // The lower bound of the heights to invalidate; `None` is "nothing".
        let invalidate_lb: Option<u32> = match agreement {
            Some(a) => {
                proof {
                    lemma_lower_bound_at(self@, update@, a);
                    if a == update_tip {
                        assert(is_tip_height(update@, a));
                    } else {
                        assert(is_tip_height(update@, a) ==> a == update_tip);
                    }
                }
                if a == update_tip {
                    None
                } else {
                    Some(a + 1)
                }
            },
            None => {
                proof {
                    assert forall|h2: u32| !agrees_at(self@, update@, h2) by {
                        if agrees_at(self@, update@, h2) {
                            lemma_pairs_map_domain(update.blocks@, h2);
                            let jj = choose|jj: int|
                                0 <= jj < update.blocks@.len() && (#[trigger] update.blocks@[jj]).0
                                    == h2;
                            assert(!agrees_at(self@, update@, update.blocks@[jj].0));
                        }
                    }
                    lemma_lower_bound_none(self@, update@);
                }
                Some(0)
            },
        };
        proof {
            assert(invalidate_lower_bound(self@, update@) == invalidate_lb);
        }
        // The first height of this store at or above the bound, if any.
        let mut first_invalid: Option<u32> = None;
        let mut first_idx: usize = 0;
        if let Some(lb) = invalidate_lb {
            let sn = self.blocks.len();
            let mut i: usize = 0;
            while i < sn && self.blocks[i].0 < lb
                invariant
                    self.wf(),
                    sn == self.blocks@.len(),
                    0 <= i <= sn,
                    forall|jj: int| 0 <= jj < i ==> (#[trigger] self.blocks@[jj]).0 < lb,
                decreases sn - i,
            {
                i += 1;
            }
            if i < sn {
                let f = self.blocks[i].0;
                first_invalid = Some(f);
                first_idx = i;
                proof {
                    lemma_pairs_map_index(self.blocks@, i as int);
                    assert forall|h2: u32| self@.contains_key(h2) && lb <= h2 implies f <= h2 by {
                        lemma_pairs_map_domain(self.blocks@, h2);
                        let jj = choose|jj: int|
                            0 <= jj < self.blocks@.len() && (#[trigger] self.blocks@[jj]).0 == h2;
                        if jj < i {
                            assert(self.blocks@[jj].0 < lb);
                        }
                    }
                    assert(is_first_at_or_above(self@, lb, f));
                    lemma_first_invalid_at(self@, update@, f);
                }
            } else {
                proof {
                    assert forall|h2: u32| self@.contains_key(h2) implies h2 < lb by {
                        lemma_pairs_map_domain(self.blocks@, h2);
                        let jj = choose|jj: int|
                            0 <= jj < self.blocks@.len() && (#[trigger] self.blocks@[jj]).0 == h2;
                    }
                    lemma_first_invalid_none(self@, update@);
                }
            }
        }
        proof {
            assert(first_invalid_height(self@, update@) == first_invalid);
        }
        // Connectivity: the first invalidated height must be re-supplied by
        // the update, so the two views can be proven contiguous.
        if let Some(f) = first_invalid {
            if lookup(&update.blocks, f).is_none() {
                proof {
                    assert(reconcile(self@, update@) == Err::<Map<u32, Option<BlockHash>>, u32>(
                        f,
                    ));
                }
                return Err(UpdateNotConnectedError(f));
            }
        }
        let ghost fg = first_invalid;
        // Stage the removal of every store entry at or above the boundary.
        let mut cs = ChangeSet::new();
        if let Some(f) = first_invalid {
            let sn = self.blocks.len();
            let mut i: usize = first_idx;
            while i < sn
                invariant
                    self.wf(),
                    sn == self.blocks@.len(),
                    first_idx <= i <= sn,
                    first_idx < sn,
                    (#[trigger] self.blocks@[first_idx as int]).0 == f,
                    cs.wf(),
                    forall|h2: u32|
                        #[trigger] cs@.contains_key(h2) <==> exists|jj: int|
                            first_idx <= jj < i && (#[trigger] self.blocks@[jj]).0 == h2,
                    forall|h2: u32| cs@.contains_key(h2) ==> #[trigger] cs@[h2] is None,
                decreases sn - i,
            {
                let e = self.blocks[i];
                cs.insert_entry(e.0, None);
                proof {
                    assert forall|h2: u32| #[trigger] cs@.contains_key(h2) implies exists|jj: int|
                        first_idx <= jj < i + 1 && (#[trigger] self.blocks@[jj]).0 == h2 by {
                        if h2 == e.0 {
                            assert(first_idx <= i < i + 1 && self.blocks@[i as int].0 == h2);
                        } else {
                            let jj = choose|jj: int|
                                first_idx <= jj < i && (#[trigger] self.blocks@[jj]).0 == h2;
                            assert(first_idx <= jj < i + 1 && self.blocks@[jj].0 == h2);
                        }
                    }
                }
                i += 1;
            }
            proof {
                assert forall|h2: u32|
                    #[trigger] cs@.contains_key(h2) <==> stale_at(self@, fg, h2) by {
                    if cs@.contains_key(h2) {
                        let jj = choose|jj: int|
                            first_idx <= jj < sn && (#[trigger] self.blocks@[jj]).0 == h2;
                        lemma_pairs_map_index(self.blocks@, jj);
                        assert(self.blocks@[first_idx as int].0 <= self.blocks@[jj].0);
                    }
                    if stale_at(self@, fg, h2) {
                        lemma_pairs_map_domain(self.blocks@, h2);
                        let jj = choose|jj: int|
                            0 <= jj < self.blocks@.len() && (#[trigger] self.blocks@[jj]).0 == h2;
                        if jj < first_idx {
                            assert(self.blocks@[jj].0 < self.blocks@[first_idx as int].0);
                        }
                        assert(first_idx <= jj < sn && self.blocks@[jj].0 == h2);
                    }
                }
            }
        }
        proof {
            assert(forall|h2: u32|
                #[trigger] cs@.contains_key(h2) <==> (stale_at(self@, fg, h2) || (updated_at(
                    self@,
                    update@,
                    h2,
                ) && has_height(update.blocks@.take(0), h2))));
        }
        // Stage an insertion for every height where the update differs from
        // this store.
        let mut j: usize = 0;
        while j < un
            invariant
                self.wf(),
                update.wf(),
                un == update.blocks@.len(),
                0 <= j <= un,
                cs.wf(),
                forall|h2: u32|
                    #[trigger] cs@.contains_key(h2) <==> (stale_at(self@, fg, h2) || (updated_at(
                        self@,
                        update@,
                        h2,
                    ) && has_height(update.blocks@.take(j as int), h2))),
                forall|h2: u32|
                    cs@.contains_key(h2) ==> #[trigger] cs@[h2] == (if updated_at(
                        self@,
                        update@,
                        h2,
                    ) && has_height(update.blocks@.take(j as int), h2) {
                        Some(update@[h2])
                    } else {
                        None::<BlockHash>
                    }),
            decreases un - j,
        {
            let e = update.blocks[j];
            proof {
                lemma_pairs_map_index(update.blocks@, j as int);
            }
            let differs = match lookup(&self.blocks, e.0) {
                Some(sh) => sh != e.1,
                None => true,
            };
            let ghost cs0 = cs@;
            if differs {
                cs.insert_entry(e.0, Some(e.1));
            }
            proof {
                assert(differs == updated_at(self@, update@, e.0));
                assert forall|h2: u32|
                    #[trigger] cs@.contains_key(h2) <==> (stale_at(self@, fg, h2) || (updated_at(
                        self@,
                        update@,
                        h2,
                    ) && has_height(update.blocks@.take(j + 1), h2))) by {
                    assert(cs0.contains_key(h2) <==> (stale_at(self@, fg, h2) || (updated_at(
                        self@,
                        update@,
                        h2,
                    ) && has_height(update.blocks@.take(j as int), h2))));
                    lemma_has_height_take_step(update.blocks@, j as int, h2);
                    if differs {
                        assert(cs@ == cs0.insert(e.0, Some(e.1)));
                    } else {
                        assert(cs@ == cs0);
                    }
                }
                assert forall|h2: u32| cs@.contains_key(h2) implies #[trigger] cs@[h2] == (
                if updated_at(self@, update@, h2) && has_height(update.blocks@.take(j + 1), h2) {
                    Some(update@[h2])
                } else {
                    None::<BlockHash>
                }) by {
                    assert(cs0.contains_key(h2) ==> #[trigger] cs0[h2] == (if updated_at(
                        self@,
                        update@,
                        h2,
                    ) && has_height(update.blocks@.take(j as int), h2) {
                        Some(update@[h2])
                    } else {
                        None::<BlockHash>
                    }));
                    assert(cs0.contains_key(h2) <==> (stale_at(self@, fg, h2) || (updated_at(
                        self@,
                        update@,
                        h2,
                    ) && has_height(update.blocks@.take(j as int), h2))));
                    lemma_has_height_take_step(update.blocks@, j as int, h2);
                    if h2 == e.0 && differs {
                        assert(cs@[h2] == Some(e.1));
                        assert(update@[h2] == e.1);
                    }
                }
            }
            j += 1;
        }
        proof {
            assert(update.blocks@.take(un as int) =~= update.blocks@);
            assert forall|h2: u32|
                has_height(update.blocks@, h2) <==> update@.contains_key(h2) by {
                lemma_pairs_map_domain(update.blocks@, h2);
            }
            assert(cs@ =~= changeset_map(self@, update@, fg));
            assert(update@.contains_key(update_tip));
            assert(reconcile(self@, update@) == Ok::<Map<u32, Option<BlockHash>>, u32>(cs@));
            assert forall|h: u32| agrees_at(self@, update@, h) implies !cs@.contains_key(h) by {
                lemma_reconcile_minimal(self@, update@, h);
            }
        }
        Ok(cs)
    }

    /// Updates the store with an update snapshot: computes the changeset and
    /// applies it in one step. On failure the store is left unmodified.
    pub fn apply_update(&mut self, update: LocalChain) -> (r: Result<
        ChangeSet,
        UpdateNotConnectedError,
    >)
        requires
            old(self).wf(),
            update.wf(),
        ensures
            match r {
                Ok(cs) => {
                    &&& cs.wf()
                    &&& reconcile(old(self)@, update@) is Ok
                    &&& cs@ == reconcile(old(self)@, update@)->Ok_0
                    &&& final(self).wf()
                    &&& final(self)@ == apply_map(old(self)@, cs@)
                },
                Err(e) => {
                    &&& *final(self) == *old(self)
                    &&& reconcile(old(self)@, update@) == Err::<Map<u32, Option<BlockHash>>, u32>(
                        e.0,
                    )
                },
            },
    {
        let cs = match self.determine_changeset(&update) {
            Ok(cs) => cs,
            Err(e) => {
                return Err(e);
            },
        };
        self.apply_changeset(cs.clone());
        Ok(cs)
    }

    /// The set of all heights the store records.
    pub fn heights(&self) -> (r: std::collections::BTreeSet<u32>)
        ensures
            r@ == self@.dom(),
    {
        broadcast use vstd::laws_cmp::group_laws_cmp;

        let n = self.blocks.len();
        let mut r: std::collections::BTreeSet<u32> = std::collections::BTreeSet::new();
        let mut i: usize = 0;
        while i < n
            invariant
                n == self.blocks@.len(),
                0 <= i <= n,
                forall|h: u32|
                    #[trigger] r@.contains(h) <==> has_height(self.blocks@.take(i as int), h),
            decreases n - i,
        {
            let h = self.blocks[i].0;
            r.insert(h);
            proof {
                assert forall|h2: u32|
                    has_height(self.blocks@.take(i + 1), h2) <==> (has_height(
                        self.blocks@.take(i as int),
                        h2,
                    ) || h2 == h) by {
                    if has_height(self.blocks@.take(i + 1), h2) {
                        let k = choose|k: int|
                            0 <= k < self.blocks@.take(i + 1).len() && (#[trigger] self.blocks@.take(
                                i + 1,
                            )[k]).0 == h2;
                        if k < i {
                            assert(self.blocks@.take(i as int)[k].0 == h2);
                        }
                    }
                    if has_height(self.blocks@.take(i as int), h2) {
                        let k = choose|k: int|
                            0 <= k < self.blocks@.take(i as int).len() && (
                            #[trigger] self.blocks@.take(i as int)[k]).0 == h2;
                        assert(self.blocks@.take(i + 1)[k].0 == h2);
                    }
                    if h2 == h {
                        assert(self.blocks@.take(i + 1)[i as int].0 == h2);
                    }
                }
            }
            i += 1;
        }
        proof {
            assert(self.blocks@.take(n as int) =~= self.blocks@);
            assert forall|h: u32| #[trigger] r@.contains(h) <==> self@.contains_key(h) by {
                lemma_pairs_map_domain(self.blocks@, h);
            }
            assert(r@ =~= self@.dom());
        }
        r
    }
}

/// Idempotence: reconciling a store against an update equal to the store's
/// own contents yields an empty changeset.
pub proof fn lemma_reconcile_identity(c: LocalChain)
    requires
        c.wf(),
    ensures
        reconcile(c@, c@) is Ok,
        reconcile(c@, c@)->Ok_0 == Map::<u32, Option<BlockHash>>::empty(),
{
    let m = c@;
    let n = c.blocks@.len();
    if n == 0 {
        assert(forall|h: u32| !m.contains_key(h));
        assert(reconcile(m, m) == Ok::<Map<u32, Option<BlockHash>>, u32>(Map::empty()));
    } else {
        lemma_pairs_map_index(c.blocks@, n - 1);
        let t = c.blocks@[n - 1].0;
        assert forall|h2: u32| m.contains_key(h2) implies h2 <= t by {
            lemma_pairs_map_domain(c.blocks@, h2);
            let k = choose|k: int| 0 <= k < c.blocks@.len() && (#[trigger] c.blocks@[k]).0 == h2;
            assert(k <= n - 1);
        }
        assert(is_tip_height(m, t));
        assert(agrees_at(m, m, t));
        assert(is_agreement_height(m, m, t));
        lemma_lower_bound_at(m, m, t);
        assert(invalidate_lower_bound(m, m) is None);
        assert(first_invalid_height(m, m) is None);
        assert(forall|h: u32| !updated_at(m, m, h));
        assert(changeset_map(m, m, None) =~= Map::<u32, Option<BlockHash>>::empty());
        assert(reconcile(m, m) == Ok::<Map<u32, Option<BlockHash>>, u32>(
            changeset_map(m, m, None),
        ));
    }
}

impl ChainOracle for LocalChain {
    /// The local store answers from its own record and never fails.
    type Error = Infallible;

    fn is_block_in_chain(&self, block: BlockId, static_block: BlockId) -> (r: Result<
        Option<bool>,
        Infallible,
    >)
        ensures
            r == Ok::<Option<bool>, Infallible>(ancestor_query(self@, block, static_block)),
    {
        if block.height > static_block.height {
            return Ok(None);
        }
        match (lookup(&self.blocks, block.height), lookup(&self.blocks, static_block.height)) {
            (Some(hash), Some(static_hash)) => Ok(
                Some(hash == block.hash && static_hash == static_block.hash),
            ),
            _ => Ok(None),
        }
    }
}

impl View for LocalChain {
    type V = Map<u32, BlockHash>;

    closed spec fn view(&self) -> Map<u32, BlockHash> {
        pairs_map(self.blocks@)
    }
}

impl Clone for LocalChain {
    /// A deep copy: the duplicate records exactly the same checkpoints, so it
    /// can serve as an immutable snapshot of the chain.
    fn clone(&self) -> (r: Self)
        ensures
            r@ == self@,
            r.wf() <==> self.wf(),
    {
        let n = self.blocks.len();
        let mut blocks: Vec<(u32, BlockHash)> = Vec::new();
        let mut i: usize = 0;
        while i < n
            invariant
                n == self.blocks@.len(),
                0 <= i <= n,
                blocks@ == self.blocks@.subrange(0, i as int),
            decreases n - i,
        {
            blocks.push(self.blocks[i]);
            proof {
                assert(self.blocks@.subrange(0, i + 1) =~= self.blocks@.subrange(
                    0,
                    i as int,
                ).push(self.blocks@[i as int]));
            }
            i += 1;
        }
        proof {
            assert(self.blocks@.subrange(0, n as int) =~= self.blocks@);
        }
        LocalChain { blocks }
    }
}

impl PartialEq for LocalChain {
    /// Equality of the recorded contents, checkpoint by checkpoint. On
    /// well-formed stores this is exactly equality of the recorded maps,
    /// since the sorted representation is canonical.
    fn eq(&self, other: &LocalChain) -> (r: bool)
        ensures
            r ==> self@ == other@,
            self.wf() && other.wf() ==> (r <==> self@ == other@),
    {
        let n = self.blocks.len();
        if n != other.blocks.len() {
            proof {
                if self.wf() && other.wf() && self@ == other@ {
                    lemma_sorted_canonical(self.blocks@, other.blocks@);
                }
            }
            return false;
        }
        let mut i: usize = 0;
        while i < n
            invariant
                n == self.blocks@.len(),
                n == other.blocks@.len(),
                0 <= i <= n,
                forall|k: int| 0 <= k < i ==> self.blocks@[k] == other.blocks@[k],
            decreases n - i,
        {
            let a = self.blocks[i];
            let b = other.blocks[i];
            if a.0 != b.0 || a.1 != b.1 {
                proof {
                    if self.wf() && other.wf() && self@ == other@ {
                        lemma_sorted_canonical(self.blocks@, other.blocks@);
                    }
                }
                return false;
            }
            i += 1;
        }
        proof {
            assert(self.blocks@ =~= other.blocks@);
        }
        true
    }
}

impl Eq for LocalChain {}

impl vstd::std_specs::cmp::PartialEqSpecImpl for LocalChain {
    open spec fn obeys_eq_spec() -> bool {
        true
    }

    closed spec fn eq_spec(&self, other: &LocalChain) -> bool {
        self.blocks@ == other.blocks@
    }
}

impl Default for LocalChain {
    /// The empty store.
    fn default() -> (r: Self)
        ensures
            r.wf(),
            r@ == Map::<u32, BlockHash>::empty(),
    {
        LocalChain { blocks: Vec::new() }
    }
}

} // verus!
