//! The lowest tier: an eight-level tree of commitments. A block keeps every
//! leaf's fingerprint (so ancestor hashes never change) and a flag per leaf
//! saying whether its payload is still witnessable.

use vstd::prelude::*;

verus! {

use crate::hashing::{Digest, pow4};
use crate::tree::{views_of, tier_root, hash_range, leaves_wf};
use crate::{Commitment, Witness, InsertError, Tier};

/// How many leaves one tier can hold: 4^8.
pub const TIER_CAP: usize = 65536;

/// One block: the bottom tier, whose leaves are commitments.
pub struct Block {
    leaves: Vec<Digest>,
    kept: Vec<bool>,
}

impl Block {
    /// Structural validity: one kept-flag per leaf, at most 4^8 leaves, and
    /// every leaf fingerprint a canonical field encoding (each came from a
    /// commitment).
    pub open spec fn wf(&self) -> bool {
        leaves_wf(self.leaf_seq(), self.kept_seq())
    }

    /// The ordered fingerprints of the inserted leaves.
    pub closed spec fn leaf_seq(&self) -> Seq<Seq<u8>> {
        views_of(self.leaves@)
    }

    /// Which leaves are still witnessable.
    pub closed spec fn kept_seq(&self) -> Seq<bool> {
        self.kept@
    }

    /// A fresh, empty block.
    pub fn new() -> (r: Block)
        ensures
            r.wf(),
            r.leaf_seq() == Seq::<Seq<u8>>::empty(),
            r.kept_seq() == Seq::<bool>::empty(),
    {
        let r = Block { leaves: Vec::new(), kept: Vec::new() };
        proof {
            assert(r.leaf_seq() =~= Seq::<Seq<u8>>::empty());
        }
        r
    }

    /// The number of leaves inserted so far.
    pub fn len(&self) -> (r: usize)
        ensures
            r == self.leaf_seq().len(),
    {
        self.leaves.len()
    }

    /// Append a commitment. The new leaf's fingerprint is the commitment's own
    /// encoding; `Keep` makes the leaf witnessable later, `Forget` does not.
    /// Fails exactly when the block already holds 4^8 leaves.
    pub fn insert(&mut self, c: &Commitment, witness: Witness) -> (r: Result<u16, InsertError>)
        requires
            old(self).wf(),
        ensures
            final(self).wf(),
            r is Ok <==> old(self).leaf_seq().len() < 65536,
            r matches Ok(i) ==> {
                &&& i as int == old(self).leaf_seq().len()
                &&& final(self).leaf_seq() == old(self).leaf_seq().push(c@)
                &&& final(self).kept_seq() == old(self).kept_seq().push(witness is Keep)
            },
            r is Err ==> {
                &&& final(self).leaf_seq() == old(self).leaf_seq()
                &&& final(self).kept_seq() == old(self).kept_seq()
                &&& r == Err::<u16, InsertError>(InsertError::Full(Tier::Block))
            },
    {
        if self.leaves.len() >= TIER_CAP {
            return Err(InsertError::Full(Tier::Block));
        }
        let i: usize = self.leaves.len();
        let ghost pre = views_of(self.leaves@);
        proof {
            use_type_invariant(&*c);
        }
        self.leaves.push(Digest::from_bytes_unchecked(c.to_bytes()));
        self.kept.push(witness == Witness::Keep);
        proof {
            assert(self.leaf_seq() =~= pre.push(c@));
        }
        Ok(i as u16)
    }

    /// The block's root: the eight-level tree hash of its leaves.
    pub fn root(&self) -> (r: Digest)
        requires
            self.wf(),
        ensures
            r@ == tier_root(self.leaf_seq()),
    {
        proof {
            assert(pow4(8) == 65536) by {
                reveal_with_fuel(pow4, 9);
            }
        }
        let r = hash_range(&self.leaves, 8, 0, self.leaves.len());
        proof {
            assert(views_of(self.leaves@).subrange(0, self.leaves@.len() as int) =~= self.leaf_seq());
        }
        r
    }

    /// Whether the leaf at `i` exists and is still witnessable.
    pub fn is_kept(&self, i: u64) -> (r: bool)
        requires
            self.wf(),
        ensures
            r == (i < self.kept_seq().len() && self.kept_seq()[i as int]),
    {
        i < self.kept.len() as u64 && self.kept[i as usize]
    }

    /// Drop the payload of the leaf at `i`: the leaf's fingerprint (and so
    /// every hash above it) is unchanged, but the leaf can no longer be
    /// witnessed. Returns whether anything was forgotten.
    pub fn forget(&mut self, i: u64) -> (r: bool)
        requires
            old(self).wf(),
        ensures
            final(self).wf(),
            final(self).leaf_seq() == old(self).leaf_seq(),
            r == (i < old(self).kept_seq().len() && old(self).kept_seq()[i as int]),
            r ==> final(self).kept_seq() == old(self).kept_seq().update(i as int, false),
            !r ==> final(self).kept_seq() == old(self).kept_seq(),
    {
        if i < self.kept.len() as u64 && self.kept[i as usize] {
            self.kept[i as usize] = false;
            true
        } else {
            false
        }
    }

    /// The leaf fingerprints as stored.
    pub(crate) fn leaves(&self) -> (r: &Vec<Digest>)
        ensures
            views_of(r@) == self.leaf_seq(),
    {
        &self.leaves
    }
}

} // verus!
