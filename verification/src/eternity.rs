//! The top tier: an eight-level tree whose leaves are the roots of epochs.
//! The eternity owns every epoch begun so far; positions address leaves across
//! all three tiers, never change, and survive forgetting.

use vstd::prelude::*;

verus! {

use crate::hashing::{Digest, pow4};
use crate::tree::{views_of, tier_root, epoch_root, eternity_root, hash_range, shape_wf, epoch_wf_seq};
use crate::block::TIER_CAP;
use crate::epoch::Epoch;
use crate::{Commitment, Witness, InsertError, Position, Tier};

/// The whole tiered tree: epochs of blocks of commitments.
pub struct Eternity {
    pub(crate) epochs: Vec<Epoch>,
    pub(crate) epoch_sealed: bool,
}

impl Eternity {
    /// Structural validity: every epoch valid, at most 4^8 epochs.
    pub open spec fn wf(&self) -> bool {
        shape_wf(self.shape(), self.kept_shape())
    }

    /// The leaf fingerprints of every block of every epoch, in order: all the
    /// data the root depends on.
    pub closed spec fn shape(&self) -> Seq<Seq<Seq<Seq<u8>>>> {
        self.epochs@.map_values(|e: Epoch| e.blocks_leaf_seq())
    }

    /// The kept-flags of every block of every epoch.
    pub closed spec fn kept_shape(&self) -> Seq<Seq<Seq<bool>>> {
        self.epochs@.map_values(|e: Epoch| e.blocks_kept_seq())
    }

    /// Whether the last epoch was sealed by `end_epoch`.
    pub closed spec fn sealed(&self) -> bool {
        self.epoch_sealed
    }

    /// Whether the last epoch's last block is open to insertions.
    pub closed spec fn has_current(&self) -> bool {
        self.shape().len() > 0 && !self.sealed()
    }

    /// Whether the open epoch (if any) still has an open block.
    pub closed spec fn epoch_has_current(&self) -> bool {
        self.has_current() && self.epochs@[self.epochs@.len() - 1].has_current()
    }

    /// The root is a function of the shape alone: neither kept-flags nor
    /// sealing affect it, so forgetting and replaying with a different
    /// keep/forget mix leave it unchanged.
    pub open spec fn root_spec(&self) -> Seq<u8> {
        eternity_root(self.shape())
    }

    /// `wf` gives validity of every epoch.
    pub(crate) proof fn lemma_wf_unpack(&self)
        requires
            self.wf(),
        ensures
            self.epochs@.len() == self.shape().len(),
            self.epochs@.len() == self.kept_shape().len(),
            self.epochs@.len() <= 65536,
            forall|i: int| 0 <= i < self.epochs@.len() ==> (#[trigger] self.epochs@[i]).wf(),
            forall|i: int|
                0 <= i < self.epochs@.len() ==> (#[trigger] self.epochs@[i]).blocks_leaf_seq()
                    == self.shape()[i],
            forall|i: int|
                0 <= i < self.epochs@.len() ==> (#[trigger] self.epochs@[i]).blocks_kept_seq()
                    == self.kept_shape()[i],
    {
        assert forall|i: int| 0 <= i < self.epochs@.len() implies (#[trigger] self.epochs@[i]).wf() by {
            assert(epoch_wf_seq(self.shape()[i], self.kept_shape()[i]));
        }
    }

    /// Validity of every epoch gives `wf`.
    pub(crate) proof fn lemma_wf_pack(&self)
        requires
            self.epochs@.len() <= 65536,
            forall|i: int| 0 <= i < self.epochs@.len() ==> (#[trigger] self.epochs@[i]).wf(),
        ensures
            self.wf(),
    {
        assert forall|i: int|
            0 <= i < self.shape().len() implies epoch_wf_seq(
            #[trigger] self.shape()[i],
            self.kept_shape()[i],
        ) by {
            assert(self.epochs@[i].wf());
        }
    }

    /// A fresh, empty eternity.
    pub fn new() -> (r: Eternity)
        ensures
            r.wf(),
            r.shape() == Seq::<Seq<Seq<Seq<u8>>>>::empty(),
            r.kept_shape() == Seq::<Seq<Seq<bool>>>::empty(),
            !r.sealed(),
    {
        let r = Eternity { epochs: Vec::new(), epoch_sealed: false };
        proof {
            assert(r.shape() =~= Seq::<Seq<Seq<Seq<u8>>>>::empty());
            assert(r.kept_shape() =~= Seq::<Seq<Seq<bool>>>::empty());
        }
        r
    }

    /// Insert a commitment into the open block of the open epoch, beginning a
    /// fresh epoch or block where the previous one was sealed. Returns the
    /// new leaf's position. Fails with `Full(Block)` or `Full(Epoch)` when the
    /// open block or epoch is at capacity (the caller must end it), and with
    /// `Full(Eternity)` when a fresh epoch is needed but 4^8 epochs exist.
    pub fn insert(&mut self, c: &Commitment, witness: Witness) -> (r: Result<Position, InsertError>)
        requires
            old(self).wf(),
        ensures
            final(self).wf(),
            ({
                let pre = old(self).shape();
                let kpre = old(self).kept_shape();
                let post = final(self).shape();
                let kpost = final(self).kept_shape();
                if old(self).has_current() {
                    let le = pre.len() - 1;
                    let eb = pre[le];
                    let keb = kpre[le];
                    if old(self).epoch_has_current() {
                        let lb = eb.len() - 1;
                        if eb[lb].len() < 65536 {
                            &&& r matches Ok(p) && p.0 == Position::pack(
                                le as nat,
                                lb as nat,
                                eb[lb].len(),
                            )
                            &&& post == pre.update(le, eb.update(lb, eb[lb].push(c@)))
                            &&& kpost == kpre.update(le, keb.update(lb, keb[lb].push(witness is Keep)))
                        } else {
                            &&& r == Err::<Position, InsertError>(InsertError::Full(Tier::Block))
                            &&& post == pre && kpost == kpre
                        }
                    } else {
                        if eb.len() < 65536 {
                            &&& r matches Ok(p) && p.0 == Position::pack(le as nat, eb.len(), 0)
                            &&& post == pre.update(le, eb.push(seq![c@]))
                            &&& kpost == kpre.update(le, keb.push(seq![witness is Keep]))
                        } else {
                            &&& r == Err::<Position, InsertError>(InsertError::Full(Tier::Epoch))
                            &&& post == pre && kpost == kpre
                        }
                    }
                } else {
                    if pre.len() < 65536 {
                        &&& r matches Ok(p) && p.0 == Position::pack(pre.len(), 0, 0)
                        &&& post == pre.push(seq![seq![c@]])
                        &&& kpost == kpre.push(seq![seq![witness is Keep]])
                    } else {
                        &&& r == Err::<Position, InsertError>(InsertError::Full(Tier::Eternity))
                        &&& post == pre && kpost == kpre
                    }
                }
            }),
            r is Ok ==> final(self).has_current(),
    {
        let ghost pre = self.shape();
        let ghost kpre = self.kept_shape();
        proof {
            self.lemma_wf_unpack();
        }
        if self.epochs.len() > 0 && !self.epoch_sealed {
            let ei: usize = self.epochs.len() - 1;
            match self.epochs[ei].insert(c, witness) {
                Ok((b, i)) => {
                    proof {
                        self.lemma_wf_pack();
                        let eb = pre[ei as int];
                        let keb = kpre[ei as int];
                        if old(self).epoch_has_current() {
                            let lb = eb.len() - 1;
                            assert(self.shape() =~= pre.update(
                                ei as int,
                                eb.update(lb, eb[lb].push(c@)),
                            ));
                            assert(self.kept_shape() =~= kpre.update(
                                ei as int,
                                keb.update(lb, keb[lb].push(witness is Keep)),
                            ));
                        } else {
                            assert(self.shape() =~= pre.update(ei as int, eb.push(seq![c@])));
                            assert(self.kept_shape() =~= kpre.update(
                                ei as int,
                                keb.push(seq![witness is Keep]),
                            ));
                        }
                    }
                    Ok(Position::from_parts(ei as u16, b, i))
                },
                Err(e) => {
                    proof {
                        self.lemma_wf_pack();
                    }
                    Err(e)
                },
            }
        } else {
            if self.epochs.len() >= TIER_CAP {
                return Err(InsertError::Full(Tier::Eternity));
            }
            let ei: usize = self.epochs.len();
            let mut ne = Epoch::new();
            match ne.insert(c, witness) {
                Ok(_) => {},
                Err(_) => {
                    proof {
                        assert(false);
                    }
                },
            }
            self.epochs.push(ne);
            self.epoch_sealed = false;
            proof {
                self.lemma_wf_pack();
                assert(self.shape() =~= pre.push(seq![seq![c@]]));
                assert(self.kept_shape() =~= kpre.push(seq![seq![witness is Keep]]));
            }
            Ok(Position::from_parts(ei as u16, 0, 0))
        }
    }

    /// Seal the open block of the open epoch and return its root, beginning
    /// (and sealing) an empty block or epoch where none is open. The epoch
    /// gains exactly one leaf: the sealed block's root.
    pub fn end_block(&mut self) -> (r: Result<Digest, InsertError>)
        requires
            old(self).wf(),
        ensures
            final(self).wf(),
            final(self).kept_shape() == old(self).kept_shape() || final(self).kept_shape()
                == old(self).kept_shape().update(
                old(self).kept_shape().len() - 1,
                old(self).kept_shape()[old(self).kept_shape().len() - 1].push(Seq::<bool>::empty()),
            ) || final(self).kept_shape() == old(self).kept_shape().push(
                seq![Seq::<bool>::empty()],
            ),
            ({
                let pre = old(self).shape();
                let post = final(self).shape();
                if old(self).has_current() {
                    let le = pre.len() - 1;
                    let eb = pre[le];
                    if old(self).epoch_has_current() {
                        let lb = eb.len() - 1;
                        &&& r matches Ok(d) && d@ == tier_root(eb[lb])
                        &&& post == pre
                    } else if eb.len() < 65536 {
                        &&& r matches Ok(d) && d@ == tier_root(Seq::<Seq<u8>>::empty())
                        &&& post == pre.update(le, eb.push(Seq::<Seq<u8>>::empty()))
                    } else {
                        &&& r == Err::<Digest, InsertError>(InsertError::Full(Tier::Epoch))
                        &&& post == pre
                    }
                } else {
                    if pre.len() < 65536 {
                        &&& r matches Ok(d) && d@ == tier_root(Seq::<Seq<u8>>::empty())
                        &&& post == pre.push(seq![Seq::<Seq<u8>>::empty()])
                    } else {
                        &&& r == Err::<Digest, InsertError>(InsertError::Full(Tier::Eternity))
                        &&& post == pre
                    }
                }
            }),
    {
        let ghost pre = self.shape();
        let ghost kpre = self.kept_shape();
        proof {
            self.lemma_wf_unpack();
        }
        if self.epochs.len() > 0 && !self.epoch_sealed {
            let ei: usize = self.epochs.len() - 1;
            let r = self.epochs[ei].end_block();
            proof {
                self.lemma_wf_pack();
                let eb = pre[ei as int];
                let keb = kpre[ei as int];
                if old(self).epoch_has_current() {
                    assert(self.shape() =~= pre);
                    assert(self.kept_shape() =~= kpre);
                } else if eb.len() < 65536 {
                    assert(self.shape() =~= pre.update(
                        ei as int,
                        eb.push(Seq::<Seq<u8>>::empty()),
                    ));
                    assert(self.kept_shape() =~= kpre.update(
                        ei as int,
                        keb.push(Seq::<bool>::empty()),
                    ));
                } else {
                    assert(self.shape() =~= pre);
                    assert(self.kept_shape() =~= kpre);
                }
            }
            r
        } else {
            if self.epochs.len() >= TIER_CAP {
                return Err(InsertError::Full(Tier::Eternity));
            }
            let mut ne = Epoch::new();
            let r = ne.end_block();
            match r {
                Ok(_) => {},
                Err(_) => {
                    proof {
                        assert(false);
                    }
                },
            }
            self.epochs.push(ne);
            self.epoch_sealed = false;
            proof {
                self.lemma_wf_pack();
                assert(self.shape() =~= pre.push(seq![Seq::<Seq<u8>>::empty()]));
                assert(self.kept_shape() =~= kpre.push(seq![Seq::<bool>::empty()]));
            }
            r
        }
    }

    /// Seal the open epoch and return its root; where none is open, an empty
    /// epoch is begun and sealed. The eternity gains no epoch when one was
    /// open. Fails with `Full(Eternity)` when a fresh epoch would not fit.
    pub fn end_epoch(&mut self) -> (r: Result<Digest, InsertError>)
        requires
            old(self).wf(),
        ensures
            final(self).wf(),
            final(self).sealed(),
            ({
                let pre = old(self).shape();
                let kpre = old(self).kept_shape();
                let post = final(self).shape();
                let kpost = final(self).kept_shape();
                if old(self).has_current() {
                    let le = pre.len() - 1;
                    &&& r matches Ok(d) && d@ == epoch_root(pre[le])
                    &&& post == pre && kpost == kpre
                } else if pre.len() < 65536 {
                    &&& r matches Ok(d) && d@ == epoch_root(Seq::<Seq<Seq<u8>>>::empty())
                    &&& post == pre.push(Seq::<Seq<Seq<u8>>>::empty())
                    &&& kpost == kpre.push(Seq::<Seq<bool>>::empty())
                } else {
                    &&& r == Err::<Digest, InsertError>(InsertError::Full(Tier::Eternity))
                    &&& post == pre && kpost == kpre
                }
            }),
    {
        let ghost pre = self.shape();
        let ghost kpre = self.kept_shape();
        proof {
            self.lemma_wf_unpack();
        }
        if self.epochs.len() > 0 && !self.epoch_sealed {
            let ei: usize = self.epochs.len() - 1;
            let d = self.epochs[ei].root();
            self.epoch_sealed = true;
            proof {
                self.lemma_wf_pack();
            }
            Ok(d)
        } else {
            if self.epochs.len() >= TIER_CAP {
                return Err(InsertError::Full(Tier::Eternity));
            }
            let ne = Epoch::new();
            let d = ne.root();
            self.epochs.push(ne);
            self.epoch_sealed = true;
            proof {
                self.lemma_wf_pack();
                assert(self.shape() =~= pre.push(Seq::<Seq<Seq<u8>>>::empty()));
                assert(self.kept_shape() =~= kpre.push(Seq::<Seq<bool>>::empty()));
            }
            Ok(d)
        }
    }

    /// The roots of all epochs, in order.
    pub(crate) fn epoch_roots(&self) -> (r: Vec<Digest>)
        requires
            self.wf(),
        ensures
            views_of(r@) == self.shape().map_values(|e: Seq<Seq<Seq<u8>>>| epoch_root(e)),
    {
        let mut roots: Vec<Digest> = Vec::new();
        let mut i: usize = 0;
        while i < self.epochs.len()
            invariant
                self.wf(),
                i <= self.epochs@.len(),
                roots@.len() == i,
                forall|j: int| 0 <= j < i ==> (#[trigger] roots@[j])@ == epoch_root(
                    self.shape()[j],
                ),
            decreases self.epochs@.len() - i,
        {
            proof {
                self.lemma_wf_unpack();
            }
            let d = self.epochs[i].root();
            roots.push(d);
            i += 1;
        }
        proof {
            assert(views_of(roots@) =~= self.shape().map_values(
                |e: Seq<Seq<Seq<u8>>>| epoch_root(e),
            ));
        }
        roots
    }

    /// The current root over everything inserted so far. It depends only on
    /// the sequence of leaves, never on the keep/forget mix or on forgetting,
    /// and replaying the same insertions from scratch reproduces it.
    pub fn root(&self) -> (r: Digest)
        requires
            self.wf(),
        ensures
            r@ == self.root_spec(),
    {
        let roots = self.epoch_roots();
        proof {
            assert(pow4(8) == 65536) by {
                reveal_with_fuel(pow4, 9);
            }
            assert(roots@.len() == views_of(roots@).len());
            assert(roots@.len() == self.shape().len());
        }
        let r = hash_range(&roots, 8, 0, roots.len());
        proof {
            assert(views_of(roots@).subrange(0, roots@.len() as int) =~= views_of(roots@));
        }
        r
    }

    /// Whether a position addresses a leaf that exists and is witnessable.
    pub open spec fn kept_spec(&self, p: Position) -> bool {
        let e = p.epoch_spec();
        let b = p.block_spec();
        let c = p.commitment_spec();
        &&& e < self.kept_shape().len()
        &&& b < self.kept_shape()[e as int].len()
        &&& c < self.kept_shape()[e as int][b as int].len()
        &&& self.kept_shape()[e as int][b as int][c as int]
    }

    /// Whether the leaf at `p` exists and is still witnessable.
    pub fn is_kept(&self, p: Position) -> (r: bool)
        requires
            self.wf(),
        ensures
            r == self.kept_spec(p),
    {
        proof {
            self.lemma_wf_unpack();
        }
        let e = p.epoch();
        if e < self.epochs.len() as u64 {
            self.epochs[e as usize].is_kept(p.block(), p.commitment())
        } else {
            false
        }
    }

    /// Forget the payload at position `p`: the shape — and so the root and
    /// every other leaf's provability — is unchanged. Returns true exactly
    /// when a kept leaf was present and is now forgotten.
    pub fn forget(&mut self, p: Position) -> (r: bool)
        requires
            old(self).wf(),
        ensures
            final(self).wf(),
            final(self).shape() == old(self).shape(),
            final(self).sealed() == old(self).sealed(),
            r == old(self).kept_spec(p),
            ({
                let e = p.epoch_spec() as int;
                let b = p.block_spec() as int;
                let c = p.commitment_spec() as int;
                let kpre = old(self).kept_shape();
                let kpost = final(self).kept_shape();
                &&& r ==> kpost == kpre.update(
                    e,
                    kpre[e].update(b, kpre[e][b].update(c, false)),
                )
                &&& !r ==> kpost == kpre
            }),
    {
        let ghost pre = self.shape();
        let ghost kpre = self.kept_shape();
        proof {
            self.lemma_wf_unpack();
        }
        let e = p.epoch();
        if e < self.epochs.len() as u64 {
            let changed = self.epochs[e as usize].forget(p.block(), p.commitment());
            proof {
                self.lemma_wf_pack();
                assert(self.shape() =~= pre);
                if changed {
                    let ei = p.epoch_spec() as int;
                    let b = p.block_spec() as int;
                    let c = p.commitment_spec() as int;
                    assert(self.kept_shape() =~= kpre.update(
                        ei,
                        kpre[ei].update(b, kpre[ei][b].update(c, false)),
                    ));
                } else {
                    assert(self.kept_shape() =~= kpre);
                }
            }
            changed
        } else {
            false
        }
    }
}

/// The root depends on the leaf shape alone: two trees holding the same
/// leaves in the same arrangement have the same root, whatever their
/// keep/forget mixes, whatever has been forgotten since, and however many
/// times the insertions were replayed to produce them.
pub proof fn lemma_root_depends_on_shape_alone(a: Eternity, b: Eternity)
    requires
        a.shape() == b.shape(),
    ensures
        a.root_spec() == b.root_spec(),
{
}

/// Forgetting severs exactly one leaf's provability: in the state that
/// `forget` leaves behind, the forgotten position is no longer witnessable,
/// and every other position's kept-flag is what it was.
pub proof fn lemma_forget_kills_witness(a: Eternity, b: Eternity, p: Position)
    requires
        a.kept_spec(p),
        b.kept_shape() == a.kept_shape().update(
            p.epoch_spec() as int,
            a.kept_shape()[p.epoch_spec() as int].update(
                p.block_spec() as int,
                a.kept_shape()[p.epoch_spec() as int][p.block_spec() as int].update(
                    p.commitment_spec() as int,
                    false,
                ),
            ),
        ),
    ensures
        !b.kept_spec(p),
        forall|q: Position|
            (q.epoch_spec() != p.epoch_spec() || q.block_spec() != p.block_spec()
                || q.commitment_spec() != p.commitment_spec()) ==> #[trigger] b.kept_spec(q)
                == a.kept_spec(q),
{
}

} // verus!
