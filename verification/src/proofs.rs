//! Membership proofs: building an authentication path for a kept leaf
//! (`witness`) and checking one statelessly against a published root
//! (`verify`).

use vstd::prelude::*;

verus! {

use crate::hashing::{Digest, pow4, lemma_pow4_pos, fq_canonical, combine_of};
use crate::tree::{
    views_of, tier_root, epoch_root, eternity_root, chunk, cap_at, auth_spec, rebuild, place,
    top_siblings, hash_range, pow4_exec, lemma_chunk_window, lemma_auth_spec_len,
    lemma_rebuild_path, node_hash,
};
use crate::eternity::Eternity;
use crate::{Commitment, Position, WitnessError, VerifyError};

/// The fingerprints of a sequence of sibling triples.
pub open spec fn trip_views(s: Seq<(Digest, Digest, Digest)>) -> Seq<(Seq<u8>, Seq<u8>, Seq<u8>)> {
    s.map_values(|t: (Digest, Digest, Digest)| (t.0@, t.1@, t.2@))
}

/// The 24-level authentication path of the leaf at indices (`e`, `b`, `c`) of
/// `shape`: its block path, then its epoch path over block roots, then the
/// top path over epoch roots.
pub open spec fn shape_auth(shape: Seq<Seq<Seq<Seq<u8>>>>, e: nat, b: nat, c: nat) -> Seq<
    (Seq<u8>, Seq<u8>, Seq<u8>),
> {
    auth_spec(8, shape[e as int][b as int], c) + auth_spec(
        8,
        shape[e as int].map_values(|bl: Seq<Seq<u8>>| tier_root(bl)),
        b,
    ) + auth_spec(8, shape.map_values(|ep: Seq<Seq<Seq<u8>>>| epoch_root(ep)), e)
}

/// Recompute the root a proof speaks for: rebuild eight levels within the
/// block, eight within the epoch and eight within the eternity.
pub open spec fn proof_root(p: Position, leaf: Seq<u8>, auth: Seq<(Seq<u8>, Seq<u8>, Seq<u8>)>) -> Seq<
    u8,
> {
    let r1 = rebuild(8, leaf, p.commitment_spec(), auth.subrange(0, 8));
    let r2 = rebuild(8, r1, p.block_spec(), auth.subrange(8, 16));
    rebuild(8, r2, p.epoch_spec(), auth.subrange(16, 24))
}

/// A kept leaf's authentication path rebuilds exactly the tree's root: an
/// honest `witness` always satisfies `verify` against the current root.
pub proof fn lemma_auth_rebuilds_root(shape: Seq<Seq<Seq<Seq<u8>>>>, e: nat, b: nat, c: nat)
    requires
        shape.len() <= 65536,
        e < shape.len(),
        shape[e as int].len() <= 65536,
        b < shape[e as int].len(),
        shape[e as int][b as int].len() <= 65536,
        c < shape[e as int][b as int].len(),
    ensures
        proof_root(
            Position(Position::pack(e, b, c) as u64),
            shape[e as int][b as int][c as int],
            shape_auth(shape, e, b, c),
        ) == eternity_root(shape),
{
    assert(pow4(8) == 65536) by {
        reveal_with_fuel(pow4, 9);
    }
    Position::lemma_pack_unpack(e, b, c);
    let p = Position(Position::pack(e, b, c) as u64);
    let bl = shape[e as int][b as int];
    let brs = shape[e as int].map_values(|x: Seq<Seq<u8>>| tier_root(x));
    let ers = shape.map_values(|x: Seq<Seq<Seq<u8>>>| epoch_root(x));
    let a1 = auth_spec(8, bl, c);
    let a2 = auth_spec(8, brs, b);
    let a3 = auth_spec(8, ers, e);
    lemma_auth_spec_len(8, bl, c);
    lemma_auth_spec_len(8, brs, b);
    lemma_auth_spec_len(8, ers, e);
    let all = shape_auth(shape, e, b, c);
    assert(all.subrange(0, 8) =~~= a1);
    assert(all.subrange(8, 16) =~~= a2);
    assert(all.subrange(16, 24) =~~= a3);
    lemma_rebuild_path(8, bl, c);
    assert(brs[b as int] == tier_root(bl));
    lemma_rebuild_path(8, brs, b);
    assert(ers[e as int] == epoch_root(shape[e as int]));
    assert(epoch_root(shape[e as int]) == tier_root(brs));
    lemma_rebuild_path(8, ers, e);
    assert(eternity_root(shape) == tier_root(ers));
}

/// Append the authentication path of `leaves[start + idx]` within the
/// height-`h` subtree over `leaves[start..end]`, deepest level first.
#[verifier::rlimit(50)]
fn auth_range(
    leaves: &Vec<Digest>,
    h: u8,
    start: usize,
    end: usize,
    idx: u64,
    out: &mut Vec<(Digest, Digest, Digest)>,
)
    requires
        h <= 8,
        start <= end <= leaves@.len(),
        end - start <= pow4(h as nat),
        leaves@.len() <= 65536,
        idx < end - start,
    ensures
        final(out)@.len() == old(out)@.len() + h,
        trip_views(final(out)@) == trip_views(old(out)@) + auth_spec(
            h as nat,
            views_of(leaves@).subrange(start as int, end as int),
            idx as nat,
        ),
    decreases h,
{
    let ghost s = views_of(leaves@).subrange(start as int, end as int);
    if h == 0 {
        proof {
            assert(auth_spec(0, s, idx as nat) =~~= Seq::<(Seq<u8>, Seq<u8>, Seq<u8>)>::empty());
            assert(trip_views(out@) =~~= trip_views(out@) + auth_spec(0, s, idx as nat));
        }
        return ;
    }
    let n: usize = end - start;
    let q: usize = pow4_exec(h - 1);
    proof {
        lemma_pow4_pos((h - 1) as nat);
    }
    let m1: usize = if q < n { q } else { n };
    let m2: usize = if 2 * q < n { 2 * q } else { n };
    let m3: usize = if 3 * q < n { 3 * q } else { n };
    let d: u64 = idx / (q as u64);
    let rel: u64 = idx % (q as u64);
    let ghost qs = pow4((h - 1) as nat);
    let ghost dd = d as nat;
    let ghost rr = rel as nat;
    let ghost big = views_of(leaves@);
    let ghost nn = (n as nat);
    proof {
        vstd::arithmetic::div_mod::lemma_fundamental_div_mod(idx as int, q as int);
        vstd::arithmetic::div_mod::lemma_mod_division_less_than_divisor(idx as int, q as int);
        assert(dd < 4 && idx < qs * (dd + 1) && qs * dd <= idx && qs * (dd + 1) <= qs * 4)
            by (nonlinear_arith)
            requires
                qs >= 1,
                idx == qs * dd + rr,
                0 <= rr < qs,
                0 <= dd,
                idx < 4 * qs,
        ;
        assert(4 * qs == pow4(h as nat));
        assert(qs * 4 == 4 * qs) by (nonlinear_arith);
        lemma_chunk_window(big, start as int, end as int, qs, 0);
        lemma_chunk_window(big, start as int, end as int, qs, 1);
        lemma_chunk_window(big, start as int, end as int, qs, 2);
        lemma_chunk_window(big, start as int, end as int, qs, 3);
        assert(cap_at(qs * 0, nn) == 0);
        assert(cap_at(qs * 1, nn) == m1);
        assert(cap_at(qs * 2, nn) == m2);
        assert(cap_at(qs * 3, nn) == m3);
        assert(nn <= qs * 4);
        assert(cap_at(qs * 4, nn) == nn);
    }
    let c0 = hash_range(leaves, h - 1, start, start + m1);
    let c1 = hash_range(leaves, h - 1, start + m1, start + m2);
    let c2 = hash_range(leaves, h - 1, start + m2, start + m3);
    let c3 = hash_range(leaves, h - 1, start + m3, end);
    let ghost pre = trip_views(out@);
    let ghost cd = chunk(s, qs, dd);
    proof {
        assert(qs * dd < nn);
        assert(cap_at(qs * dd, nn) == qs * dd);
        assert(qs * (dd + 1) - qs * dd == qs) by (nonlinear_arith);
        assert(cd.len() == cap_at(qs * (dd + 1), nn) - qs * dd);
        assert(rr < cd.len());
    }
    let t: (Digest, Digest, Digest);
    if d == 0 {
        auth_range(leaves, h - 1, start, start + m1, rel, out);
        t = (c1, c2, c3);
        proof {
            assert(cd =~~= big.subrange(start as int, start + m1));
        }
    } else if d == 1 {
        auth_range(leaves, h - 1, start + m1, start + m2, rel, out);
        t = (c0, c2, c3);
        proof {
            assert(cd =~~= big.subrange(start + m1, start + m2));
        }
    } else if d == 2 {
        auth_range(leaves, h - 1, start + m2, start + m3, rel, out);
        t = (c0, c1, c3);
        proof {
            assert(cd =~~= big.subrange(start + m2, start + m3));
        }
    } else {
        auth_range(leaves, h - 1, start + m3, end, rel, out);
        t = (c0, c1, c2);
        proof {
            assert(cd =~~= big.subrange(start + m3, end as int));
        }
    }
    proof {
        assert(trip_views(out@) =~~= pre + auth_spec((h - 1) as nat, cd, rr));
        assert(t.0@ == top_siblings(h as nat, s, idx as nat).0);
        assert(t.1@ == top_siblings(h as nat, s, idx as nat).1);
        assert(t.2@ == top_siblings(h as nat, s, idx as nat).2);
    }
    out.push(t);
    proof {
        assert(top_siblings(h as nat, s, idx as nat) == ((
            if d == 0 {
                (
                    node_hash((h - 1) as nat, chunk(s, qs, 1)),
                    node_hash((h - 1) as nat, chunk(s, qs, 2)),
                    node_hash((h - 1) as nat, chunk(s, qs, 3)),
                )
            } else if d == 1 {
                (
                    node_hash((h - 1) as nat, chunk(s, qs, 0)),
                    node_hash((h - 1) as nat, chunk(s, qs, 2)),
                    node_hash((h - 1) as nat, chunk(s, qs, 3)),
                )
            } else if d == 2 {
                (
                    node_hash((h - 1) as nat, chunk(s, qs, 0)),
                    node_hash((h - 1) as nat, chunk(s, qs, 1)),
                    node_hash((h - 1) as nat, chunk(s, qs, 3)),
                )
            } else {
                (
                    node_hash((h - 1) as nat, chunk(s, qs, 0)),
                    node_hash((h - 1) as nat, chunk(s, qs, 1)),
                    node_hash((h - 1) as nat, chunk(s, qs, 2)),
                )
            }
        )));
        assert(auth_spec(h as nat, s, idx as nat) =~~= auth_spec((h - 1) as nat, cd, rr).push(
            top_siblings(h as nat, s, idx as nat),
        )) by {
            reveal_with_fuel(auth_spec, 2);
        }
        assert(trip_views(out@) =~~= (pre + auth_spec((h - 1) as nat, cd, rr)).push((
            t.0@,
            t.1@,
            t.2@,
        )));
        assert((t.0@, t.1@, t.2@) == top_siblings(h as nat, s, idx as nat));
        assert(trip_views(out@) =~~= pre + auth_spec(h as nat, s, idx as nat));
    }
}

/// A self-contained membership proof: a claimed commitment, its position, and
/// one sibling triple per level across the three tiers.
#[derive(Debug, PartialEq, Eq)]
pub struct Proof {
    position: Position,
    commitment: Commitment,
    auth: Vec<(Digest, Digest, Digest)>,
}

impl Proof {
    #[verifier::type_invariant]
    spec fn type_inv(self) -> bool {
        self.auth@.len() == 24
    }

    /// The position this proof speaks about.
    pub closed spec fn position_spec(&self) -> Position {
        self.position
    }

    /// The claimed commitment's encoding.
    pub closed spec fn commitment_view(&self) -> Seq<u8> {
        self.commitment@
    }

    /// The sibling hashes, deepest level first.
    pub closed spec fn auth_view(&self) -> Seq<(Seq<u8>, Seq<u8>, Seq<u8>)> {
        trip_views(self.auth@)
    }

    /// The root this proof rebuilds to.
    pub open spec fn claimed_root(&self) -> Seq<u8> {
        proof_root(self.position_spec(), self.commitment_view(), self.auth_view())
    }

    /// The position this proof speaks about.
    pub fn position(&self) -> (r: Position)
        ensures
            r == self.position_spec(),
    {
        self.position
    }

    /// The claimed commitment.
    pub fn commitment(&self) -> (r: Commitment)
        ensures
            r@ == self.commitment_view(),
    {
        self.commitment
    }

    /// The sibling hash triples, deepest level first: three off-path child
    /// fingerprints per level, eight levels per tier.
    pub fn auth(&self) -> (r: &Vec<(Digest, Digest, Digest)>)
        ensures
            trip_views(r@) == self.auth_view(),
            r@.len() == 24,
    {
        proof {
            use_type_invariant(&*self);
        }
        &self.auth
    }

    /// The sibling triples as stored.
    pub(crate) fn auth_vec(&self) -> (r: &Vec<(Digest, Digest, Digest)>)
        ensures
            trip_views(r@) == self.auth_view(),
            r@.len() == 24,
    {
        proof {
            use_type_invariant(&*self);
        }
        &self.auth
    }

    /// Build a proof from its parts.
    pub(crate) fn assemble(
        position: Position,
        commitment: Commitment,
        auth: Vec<(Digest, Digest, Digest)>,
    ) -> (r: Proof)
        requires
            auth@.len() == 24,
        ensures
            r.position_spec() == position,
            r.commitment_view() == commitment@,
            r.auth_view() == trip_views(auth@),
    {
        Proof { position, commitment, auth }
    }
}

/// Rebuild `h` levels starting from `leaf`, using the sibling triples
/// `auth[off..off + h]` and the low base-4 digits of `idx`.
fn rebuild_range(leaf: &Digest, idx: u64, auth: &Vec<(Digest, Digest, Digest)>, off: usize, h: u8) -> (r:
    Digest)
    requires
        h <= 8,
        off + h <= auth@.len(),
    ensures
        r@ == rebuild(h as nat, leaf@, idx as nat, trip_views(auth@).subrange(off as int, off + h)),
    decreases h,
{
    let ghost aa = trip_views(auth@).subrange(off as int, off + h);
    if h == 0 {
        *leaf
    } else {
        let q: u64 = pow4_exec(h - 1) as u64;
        proof {
            lemma_pow4_pos((h - 1) as nat);
        }
        let below = rebuild_range(leaf, idx % q, auth, off, h - 1);
        let d: u64 = idx / q;
        let alen: usize = auth.len();
        let t = auth[off + (h as usize) - 1];
        let r = if d == 0 {
            Digest::combine(h, &below, &t.0, &t.1, &t.2)
        } else if d == 1 {
            Digest::combine(h, &t.0, &below, &t.1, &t.2)
        } else if d == 2 {
            Digest::combine(h, &t.0, &t.1, &below, &t.2)
        } else {
            Digest::combine(h, &t.0, &t.1, &t.2, &below)
        };
        proof {
            let hn = h as nat;
            let qs = pow4((hn - 1) as nat);
            assert(aa.subrange(0, hn - 1) =~~= trip_views(auth@).subrange(off as int, off + h - 1));
            assert(aa[hn - 1] == (t.0@, t.1@, t.2@));
            let bel = rebuild((hn - 1) as nat, leaf@, (idx as nat) % qs, aa.subrange(0, hn - 1));
            assert(below@ == bel);
            let tp = place(bel, (idx as nat) / qs, aa[hn - 1]);
            assert(r@ == combine_of(h as int, tp.0, tp.1, tp.2, tp.3));
            assert(rebuild(hn, leaf@, idx as nat, aa) == combine_of(h as int, tp.0, tp.1, tp.2, tp.3))
                by {
                reveal_with_fuel(rebuild, 2);
            }
        }
        r
    }
}

/// Check a membership proof against a published root: recompute the root from
/// the commitment, position and siblings, and compare. A pure function of its
/// inputs; fails with `RootMismatch` exactly when the rebuilt root differs.
pub fn verify(pf: &Proof, anchor: &Digest) -> (r: Result<(), VerifyError>)
    ensures
        r is Ok <==> pf.claimed_root() == anchor@,
        r is Err ==> r == Err::<(), VerifyError>(VerifyError::RootMismatch),
{
    proof {
        use_type_invariant(&*pf);
    }
    let leaf = Digest::from_bytes_unchecked(pf.commitment.to_bytes());
    let r1 = rebuild_range(&leaf, pf.position.commitment(), &pf.auth, 0, 8);
    let r2 = rebuild_range(&r1, pf.position.block(), &pf.auth, 8, 8);
    let r3 = rebuild_range(&r2, pf.position.epoch(), &pf.auth, 16, 8);
    if r3.equals(anchor) {
        Ok(())
    } else {
        Err(VerifyError::RootMismatch)
    }
}

impl Eternity {
    /// Whether a leaf was ever inserted at `p`.
    pub open spec fn present_spec(&self, p: Position) -> bool {
        let e = p.epoch_spec() as int;
        let b = p.block_spec() as int;
        let c = p.commitment_spec() as int;
        &&& e < self.shape().len()
        &&& b < self.shape()[e].len()
        &&& c < self.shape()[e][b].len()
    }

    /// The 24-level authentication path for position `p`.
    pub open spec fn auth_of(&self, p: Position) -> Seq<(Seq<u8>, Seq<u8>, Seq<u8>)> {
        shape_auth(self.shape(), p.epoch_spec(), p.block_spec(), p.commitment_spec())
    }

    /// Build a membership proof for the leaf at `p`. Succeeds exactly when the
    /// leaf exists and is still kept, and the proof it returns rebuilds the
    /// current root; fails with `Absent` for a position never inserted and
    /// `Forgotten` for one whose payload was forgotten.
    pub fn witness(&self, p: Position) -> (r: Result<Proof, WitnessError>)
        requires
            self.wf(),
        ensures
            r is Ok <==> self.kept_spec(p),
            r matches Ok(pf) ==> {
                &&& pf.position_spec() == p
                &&& pf.commitment_view() == self.shape()[p.epoch_spec() as int][p.block_spec() as int][p.commitment_spec() as int]
                &&& pf.auth_view() == self.auth_of(p)
                &&& pf.claimed_root() == self.root_spec()
            },
            r matches Err(err) ==> {
                &&& (err is Absent <==> !self.present_spec(p))
                &&& (err is Forgotten <==> self.present_spec(p) && !self.kept_spec(p))
            },
    {
        let ghost shape = self.shape();
        proof {
            self.lemma_wf_unpack();
        }
        let e = p.epoch();
        let b = p.block();
        let c = p.commitment();
        if e >= self.epochs.len() as u64 {
            return Err(WitnessError::Absent);
        }
        let ep = &self.epochs[e as usize];
        proof {
            assert(self.epochs@[e as int].wf());
            ep.lemma_wf_unpack();
            assert(shape[e as int] == ep.blocks_leaf_seq());
            assert(self.kept_shape()[e as int] == ep.blocks_kept_seq());
        }
        if b >= ep.block_count() as u64 {
            return Err(WitnessError::Absent);
        }
        let blk = &ep.blocks[b as usize];
        proof {
            assert(blk.wf());
            assert(shape[e as int][b as int] == blk.leaf_seq());
            assert(ep.blocks_kept_seq()[b as int] == blk.kept_seq());
        }
        if c >= blk.len() as u64 {
            return Err(WitnessError::Absent);
        }
        if !blk.is_kept(c) {
            return Err(WitnessError::Forgotten);
        }
        let bl_vec = blk.leaves();
        let leaf: Digest = bl_vec[c as usize];
        let mut auth: Vec<(Digest, Digest, Digest)> = Vec::new();
        proof {
            assert(pow4(8) == 65536) by {
                reveal_with_fuel(pow4, 9);
            }
            assert(views_of(bl_vec@) == blk.leaf_seq());
            assert(trip_views(auth@) =~~= Seq::<(Seq<u8>, Seq<u8>, Seq<u8>)>::empty());
        }
        auth_range(bl_vec, 8, 0, bl_vec.len(), c, &mut auth);
        let ghost a1 = auth_spec(8, shape[e as int][b as int], c as nat);
        proof {
            assert(views_of(bl_vec@).subrange(0, bl_vec@.len() as int) =~= blk.leaf_seq());
            assert(trip_views(auth@) =~~= a1);
        }
        let broots = ep.block_roots();
        proof {
            assert(views_of(broots@).len() == shape[e as int].len());
        }
        auth_range(&broots, 8, 0, broots.len(), b, &mut auth);
        let ghost a2 = auth_spec(
            8,
            shape[e as int].map_values(|bl: Seq<Seq<u8>>| tier_root(bl)),
            b as nat,
        );
        proof {
            assert(views_of(broots@).subrange(0, broots@.len() as int) =~= views_of(broots@));
            assert(trip_views(auth@) =~~= a1 + a2);
        }
        let eroots = self.epoch_roots();
        proof {
            assert(views_of(eroots@).len() == shape.len());
        }
        auth_range(&eroots, 8, 0, eroots.len(), e, &mut auth);
        let ghost a3 = auth_spec(
            8,
            shape.map_values(|epv: Seq<Seq<Seq<u8>>>| epoch_root(epv)),
            e as nat,
        );
        proof {
            assert(views_of(eroots@).subrange(0, eroots@.len() as int) =~= views_of(eroots@));
            assert(trip_views(auth@) =~~= a1 + a2 + a3);
            assert(trip_views(auth@) =~~= self.auth_of(p));
            lemma_auth_spec_len(8, shape[e as int][b as int], c as nat);
            lemma_auth_spec_len(
                8,
                shape[e as int].map_values(|bl: Seq<Seq<u8>>| tier_root(bl)),
                b as nat,
            );
            lemma_auth_spec_len(
                8,
                shape.map_values(|epv: Seq<Seq<Seq<u8>>>| epoch_root(epv)),
                e as nat,
            );
        }
        let cm = match Commitment::from_bytes(leaf.to_bytes()) {
            Some(cm) => cm,
            None => {
                proof {
                    assert(fq_canonical(blk.leaf_seq()[c as int]));
                    assert(false);
                }
                return Err(WitnessError::Absent);
            },
        };
        let pf = Proof { position: p, commitment: cm, auth };
        proof {
            lemma_auth_rebuilds_root(shape, p.epoch_spec(), p.block_spec(), p.commitment_spec());
            Position::lemma_pack_unpack(p.epoch_spec(), p.block_spec(), p.commitment_spec());
            let packed = Position(
                Position::pack(p.epoch_spec(), p.block_spec(), p.commitment_spec()) as u64,
            );
            assert(packed.epoch_spec() == p.epoch_spec() && packed.block_spec() == p.block_spec()
                && packed.commitment_spec() == p.commitment_spec());
            assert(pf.claimed_root() == proof_root(
                packed,
                pf.commitment_view(),
                pf.auth_view(),
            ));
        }
        Ok(pf)
    }
}

} // verus!
