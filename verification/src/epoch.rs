//! The middle tier: an eight-level tree whose leaves are the roots of blocks.
//! An epoch owns its blocks; the last block is the open frontier unless it has
//! been sealed by `end_block`.

use vstd::prelude::*;

verus! {

use crate::hashing::{Digest, pow4};
use crate::tree::{views_of, tier_root, epoch_root, hash_range, epoch_wf_seq, leaves_wf};
use crate::block::{Block, TIER_CAP};
use crate::{Commitment, Witness, InsertError, Tier};

/// One epoch: a bounded run of blocks, the last of which may still accept
/// insertions.
pub struct Epoch {
    pub(crate) blocks: Vec<Block>,
    pub(crate) block_sealed: bool,
}

impl Epoch {
    /// Structural validity: every block valid, at most 4^8 blocks.
    pub open spec fn wf(&self) -> bool {
        epoch_wf_seq(self.blocks_leaf_seq(), self.blocks_kept_seq())
    }

    /// The leaves of each block, in order.
    pub closed spec fn blocks_leaf_seq(&self) -> Seq<Seq<Seq<u8>>> {
        self.blocks@.map_values(|b: Block| b.leaf_seq())
    }

    /// The kept-flags of each block, in order.
    pub closed spec fn blocks_kept_seq(&self) -> Seq<Seq<bool>> {
        self.blocks@.map_values(|b: Block| b.kept_seq())
    }

    /// Whether the last block was sealed by `end_block`.
    pub closed spec fn sealed(&self) -> bool {
        self.block_sealed
    }

    /// Whether an open block is receiving insertions.
    pub open spec fn has_current(&self) -> bool {
        self.blocks_leaf_seq().len() > 0 && !self.sealed()
    }

    /// `wf` gives validity of every block.
    pub(crate) proof fn lemma_wf_unpack(&self)
        requires
            self.wf(),
        ensures
            self.blocks@.len() == self.blocks_leaf_seq().len(),
            self.blocks@.len() == self.blocks_kept_seq().len(),
            self.blocks@.len() <= 65536,
            forall|i: int| 0 <= i < self.blocks@.len() ==> (#[trigger] self.blocks@[i]).wf(),
            forall|i: int|
                0 <= i < self.blocks@.len() ==> (#[trigger] self.blocks@[i]).leaf_seq()
                    == self.blocks_leaf_seq()[i],
            forall|i: int|
                0 <= i < self.blocks@.len() ==> (#[trigger] self.blocks@[i]).kept_seq()
                    == self.blocks_kept_seq()[i],
    {
        assert forall|i: int| 0 <= i < self.blocks@.len() implies (#[trigger] self.blocks@[i]).wf() by {
            assert(leaves_wf(self.blocks_leaf_seq()[i], self.blocks_kept_seq()[i]));
        }
    }

    /// Validity of every block gives `wf`.
    pub(crate) proof fn lemma_wf_pack(&self)
        requires
            self.blocks@.len() <= 65536,
            forall|i: int| 0 <= i < self.blocks@.len() ==> (#[trigger] self.blocks@[i]).wf(),
        ensures
            self.wf(),
    {
        assert forall|i: int|
            0 <= i < self.blocks_leaf_seq().len() implies leaves_wf(
            #[trigger] self.blocks_leaf_seq()[i],
            self.blocks_kept_seq()[i],
        ) by {
            assert(self.blocks@[i].wf());
        }
    }

    /// A fresh, empty epoch.
    pub fn new() -> (r: Epoch)
        ensures
            r.wf(),
            r.blocks_leaf_seq() == Seq::<Seq<Seq<u8>>>::empty(),
            r.blocks_kept_seq() == Seq::<Seq<bool>>::empty(),
            !r.sealed(),
    {
        let r = Epoch { blocks: Vec::new(), block_sealed: false };
        proof {
            assert(r.blocks_leaf_seq() =~= Seq::<Seq<Seq<u8>>>::empty());
            assert(r.blocks_kept_seq() =~= Seq::<Seq<bool>>::empty());
        }
        r
    }

    /// The number of blocks begun so far.
    pub fn block_count(&self) -> (r: usize)
        ensures
            r == self.blocks_leaf_seq().len(),
    {
        self.blocks.len()
    }

    /// Insert a commitment into the open block, beginning a new block if the
    /// previous one was sealed. Returns the block and commitment indices.
    /// Fails with `Full(Block)` when the open block holds 4^8 leaves, and with
    /// `Full(Epoch)` when a new block is needed but 4^8 blocks exist already.
    pub fn insert(&mut self, c: &Commitment, witness: Witness) -> (r: Result<(u16, u16), InsertError>)
        requires
            old(self).wf(),
        ensures
            final(self).wf(),
            ({
                let pre = old(self).blocks_leaf_seq();
                let kpre = old(self).blocks_kept_seq();
                let post = final(self).blocks_leaf_seq();
                let kpost = final(self).blocks_kept_seq();
                if old(self).has_current() {
                    let last = pre.len() - 1;
                    if pre[last].len() < 65536 {
                        &&& r matches Ok((b, i)) && b as int == last && i as int == pre[last].len()
                        &&& post == pre.update(last, pre[last].push(c@))
                        &&& kpost == kpre.update(last, kpre[last].push(witness is Keep))
                        &&& !final(self).sealed()
                    } else {
                        &&& r == Err::<(u16, u16), InsertError>(InsertError::Full(Tier::Block))
                        &&& post == pre && kpost == kpre
                        &&& final(self).sealed() == old(self).sealed()
                    }
                } else {
                    if pre.len() < 65536 {
                        &&& r matches Ok((b, i)) && b as int == pre.len() && i == 0
                        &&& post == pre.push(seq![c@])
                        &&& kpost == kpre.push(seq![witness is Keep])
                        &&& !final(self).sealed()
                    } else {
                        &&& r == Err::<(u16, u16), InsertError>(InsertError::Full(Tier::Epoch))
                        &&& post == pre && kpost == kpre
                        &&& final(self).sealed() == old(self).sealed()
                    }
                }
            }),
    {
        let ghost pre = self.blocks_leaf_seq();
        let ghost kpre = self.blocks_kept_seq();
        proof {
            self.lemma_wf_unpack();
        }
        if self.blocks.len() > 0 && !self.block_sealed {
            let bi: usize = self.blocks.len() - 1;
            match self.blocks[bi].insert(c, witness) {
                Ok(i) => {
                    proof {
                        self.lemma_wf_pack();
                        assert(self.blocks_leaf_seq() =~= pre.update(
                            bi as int,
                            pre[bi as int].push(c@),
                        ));
                        assert(self.blocks_kept_seq() =~= kpre.update(
                            bi as int,
                            kpre[bi as int].push(witness is Keep),
                        ));
                    }
                    Ok((bi as u16, i))
                },
                Err(e) => {
                    proof {
                        self.lemma_wf_pack();
                    }
                    Err(e)
                },
            }
        } else {
            if self.blocks.len() >= TIER_CAP {
                return Err(InsertError::Full(Tier::Epoch));
            }
            let bi: usize = self.blocks.len();
            let mut nb = Block::new();
            match nb.insert(c, witness) {
                Ok(_) => {},
                Err(_) => {
                    proof {
                        assert(false);
                    }
                },
            }
            self.blocks.push(nb);
            self.block_sealed = false;
            proof {
                self.lemma_wf_pack();
                assert(self.blocks_leaf_seq() =~= pre.push(seq![c@]));
                assert(self.blocks_kept_seq() =~= kpre.push(seq![witness is Keep]));
                assert(pre.push(seq![c@])[bi as int].len() < 65536);
            }
            Ok((bi as u16, 0))
        }
    }

    /// Seal the open block and return its root; if no block is open, a new
    /// empty block is begun and sealed (its root is the sentinel). Fails with
    /// `Full(Epoch)` when a new block would not fit.
    pub fn end_block(&mut self) -> (r: Result<Digest, InsertError>)
        requires
            old(self).wf(),
        ensures
            final(self).wf(),
            ({
                let pre = old(self).blocks_leaf_seq();
                let kpre = old(self).blocks_kept_seq();
                let post = final(self).blocks_leaf_seq();
                let kpost = final(self).blocks_kept_seq();
                if old(self).has_current() {
                    &&& r matches Ok(d) && d@ == tier_root(pre[pre.len() - 1])
                    &&& post == pre && kpost == kpre
                    &&& final(self).sealed()
                } else if pre.len() < 65536 {
                    &&& r matches Ok(d) && d@ == tier_root(Seq::<Seq<u8>>::empty())
                    &&& post == pre.push(Seq::<Seq<u8>>::empty())
                    &&& kpost == kpre.push(Seq::<bool>::empty())
                    &&& final(self).sealed()
                } else {
                    &&& r == Err::<Digest, InsertError>(InsertError::Full(Tier::Epoch))
                    &&& post == pre && kpost == kpre
                    &&& final(self).sealed() == old(self).sealed()
                }
            }),
    {
        let ghost pre = self.blocks_leaf_seq();
        let ghost kpre = self.blocks_kept_seq();
        proof {
            self.lemma_wf_unpack();
        }
        if self.blocks.len() > 0 && !self.block_sealed {
            let bi: usize = self.blocks.len() - 1;
            let d = self.blocks[bi].root();
            self.block_sealed = true;
            proof {
                self.lemma_wf_pack();
            }
            Ok(d)
        } else {
            if self.blocks.len() >= TIER_CAP {
                return Err(InsertError::Full(Tier::Epoch));
            }
            let nb = Block::new();
            let d = nb.root();
            self.blocks.push(nb);
            self.block_sealed = true;
            proof {
                self.lemma_wf_pack();
                assert(self.blocks_leaf_seq() =~= pre.push(Seq::<Seq<u8>>::empty()));
                assert(self.blocks_kept_seq() =~= kpre.push(Seq::<bool>::empty()));
            }
            Ok(d)
        }
    }

    /// The roots of all blocks, in order.
    pub(crate) fn block_roots(&self) -> (r: Vec<Digest>)
        requires
            self.wf(),
        ensures
            views_of(r@) == self.blocks_leaf_seq().map_values(|b: Seq<Seq<u8>>| tier_root(b)),
    {
        let mut roots: Vec<Digest> = Vec::new();
        let mut i: usize = 0;
        while i < self.blocks.len()
            invariant
                self.wf(),
                i <= self.blocks@.len(),
                roots@.len() == i,
                forall|j: int| 0 <= j < i ==> (#[trigger] roots@[j])@ == tier_root(
                    self.blocks_leaf_seq()[j],
                ),
            decreases self.blocks@.len() - i,
        {
            proof {
                self.lemma_wf_unpack();
            }
            let d = self.blocks[i].root();
            roots.push(d);
            i += 1;
        }
        proof {
            assert(views_of(roots@) =~= self.blocks_leaf_seq().map_values(
                |b: Seq<Seq<u8>>| tier_root(b),
            ));
        }
        roots
    }

    /// The epoch's root: the tier hash over its blocks' roots.
    pub fn root(&self) -> (r: Digest)
        requires
            self.wf(),
        ensures
            r@ == epoch_root(self.blocks_leaf_seq()),
    {
        let roots = self.block_roots();
        proof {
            assert(pow4(8) == 65536) by {
                reveal_with_fuel(pow4, 9);
            }
            assert(roots@.len() == views_of(roots@).len());
            assert(roots@.len() == self.blocks_leaf_seq().len());
        }
        let r = hash_range(&roots, 8, 0, roots.len());
        proof {
            assert(views_of(roots@).subrange(0, roots@.len() as int) =~= views_of(roots@));
        }
        r
    }

    /// Whether the leaf at block `b`, index `i` exists and is witnessable.
    pub fn is_kept(&self, b: u64, i: u64) -> (r: bool)
        requires
            self.wf(),
        ensures
            r == (b < self.blocks_kept_seq().len() && i < self.blocks_kept_seq()[b as int].len()
                && self.blocks_kept_seq()[b as int][i as int]),
    {
        proof {
            self.lemma_wf_unpack();
        }
        b < self.blocks.len() as u64 && self.blocks[b as usize].is_kept(i)
    }

    /// Forget the leaf at block `b`, index `i`: hashes are unchanged; returns
    /// whether anything was forgotten.
    pub fn forget(&mut self, b: u64, i: u64) -> (r: bool)
        requires
            old(self).wf(),
        ensures
            final(self).wf(),
            final(self).blocks_leaf_seq() == old(self).blocks_leaf_seq(),
            final(self).sealed() == old(self).sealed(),
            ({
                let kpre = old(self).blocks_kept_seq();
                let kpost = final(self).blocks_kept_seq();
                &&& r == (b < kpre.len() && i < kpre[b as int].len() && kpre[b as int][i as int])
                &&& r ==> kpost == kpre.update(b as int, kpre[b as int].update(i as int, false))
                &&& !r ==> kpost == kpre
            }),
    {
        let ghost pre = self.blocks_leaf_seq();
        let ghost kpre = self.blocks_kept_seq();
        proof {
            self.lemma_wf_unpack();
        }
        if b < self.blocks.len() as u64 {
            let changed = self.blocks[b as usize].forget(i);
            proof {
                self.lemma_wf_pack();
                assert(self.blocks_leaf_seq() =~= pre);
                if changed {
                    assert(self.blocks_kept_seq() =~= kpre.update(
                        b as int,
                        kpre[b as int].update(i as int, false),
                    ));
                } else {
                    assert(self.blocks_kept_seq() =~= kpre);
                }
            }
            changed
        } else {
            false
        }
    }
}

} // verus!
