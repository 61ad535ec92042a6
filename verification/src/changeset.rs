//! The changeset: the diff that reconciliation produces and that mutates the
//! chain store. An entry with a present identity means "the store must record
//! this identity at this height"; an absent marker means "any entry at this
//! height must be removed".

use vstd::prelude::*;

use crate::BlockHash;
use crate::sparse::lookup;
use crate::sparse::pairs_map;
use crate::sparse::strictly_sorted;
use crate::sparse::upsert;

verus! {

/// An ordered mapping from height to an optional identity, kept as a vector
/// of pairs in strictly ascending height order.
#[derive(Debug)]
pub struct ChangeSet {
    entries: Vec<(u32, Option<BlockHash>)>,
}

impl ChangeSet {
    /// The entries are in strictly ascending height order.
    pub closed spec fn wf(self) -> bool {
        strictly_sorted(self.entries@)
    }

    /// An empty changeset: a no-op.
    pub fn new() -> (r: ChangeSet)
        ensures
            r.wf(),
            r@ == Map::<u32, Option<BlockHash>>::empty(),
    {
        ChangeSet { entries: Vec::new() }
    }

    /// Records that `height` must carry `value` after application: a present
    /// identity to set, or an absent marker to remove the height. Overwrites
    /// any entry already staged at that height.
    pub fn insert_entry(&mut self, height: u32, value: Option<BlockHash>)
        requires
            old(self).wf(),
        ensures
            final(self).wf(),
            final(self)@ == old(self)@.insert(height, value),
    {
        upsert(&mut self.entries, height, value);
    }

    /// The staged value at `height`: `None` when the changeset does not touch
    /// that height.
    pub fn get_entry(&self, height: u32) -> (r: Option<Option<BlockHash>>)
        requires
            self.wf(),
        ensures
            match r {
                Some(value) => self@.contains_key(height) && self@[height] == value,
                None => !self@.contains_key(height),
            },
    {
        lookup(&self.entries, height)
    }

    /// The staged entries, ascending by height.
    pub fn entries(&self) -> (r: &Vec<(u32, Option<BlockHash>)>)
        ensures
            pairs_map(r@) == self@,
            self.wf() ==> strictly_sorted(r@),
    {
        &self.entries
    }

    /// The number of staged entries; zero means the changeset is a no-op.
    pub fn is_empty(&self) -> (r: bool)
        requires
            self.wf(),
        ensures
            r <==> self@ == Map::<u32, Option<BlockHash>>::empty(),
    {
        proof {
            if self.entries@.len() > 0 {
                crate::sparse::lemma_pairs_map_index(self.entries@, 0);
            }
        }
        self.entries.len() == 0
    }
}

impl View for ChangeSet {
    type V = Map<u32, Option<BlockHash>>;

    closed spec fn view(&self) -> Map<u32, Option<BlockHash>> {
        pairs_map(self.entries@)
    }
}

impl Clone for ChangeSet {
    fn clone(&self) -> (r: Self)
        ensures
            r@ == self@,
            r.wf() <==> self.wf(),
    {
        let n = self.entries.len();
        let mut entries: Vec<(u32, Option<BlockHash>)> = Vec::new();
        let mut i: usize = 0;
        while i < n
            invariant
                n == self.entries@.len(),
                0 <= i <= n,
                entries@ == self.entries@.subrange(0, i as int),
            decreases n - i,
        {
            entries.push(self.entries[i]);
            proof {
                assert(self.entries@.subrange(0, i + 1) =~= self.entries@.subrange(
                    0,
                    i as int,
                ).push(self.entries@[i as int]));
            }
            i += 1;
        }
        proof {
            assert(self.entries@.subrange(0, n as int) =~= self.entries@);
        }
        ChangeSet { entries }
    }
}

impl Default for ChangeSet {
    fn default() -> (r: Self)
        ensures
            r.wf(),
            r@ == Map::<u32, Option<BlockHash>>::empty(),
    {
        ChangeSet { entries: Vec::new() }
    }
}

/// The failure that reconciliation reports when the update cannot be proven
/// contiguous with the store: the carried height is the lowest height the
/// store must invalidate, and the update holds no replacement checkpoint
/// there. Callers should retry with an update that includes a checkpoint at
/// exactly this height.
#[derive(Clone, Copy, Debug, PartialEq, Eq, Structural)]
pub struct UpdateNotConnectedError(pub u32);

} // verus!
