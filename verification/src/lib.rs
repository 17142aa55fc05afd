//! A tiered commitment tree: an append-only accumulator of field-element
//! commitments, arranged as three stacked 4-ary trees of eight levels each
//! (Block within Epoch within Eternity), with compact membership proofs and
//! hash-preserving forgetting of individual leaves.

use vstd::prelude::*;

pub mod hashing;
pub mod tree;
pub mod block;
pub mod epoch;
pub mod eternity;
pub mod proofs;
pub mod codec;
pub mod ka;

pub use block::Block;
pub use epoch::Epoch;
pub use eternity::Eternity;
pub use hashing::Digest;
pub use proofs::{Proof, verify};
pub use codec::{serialize, decode};

verus! {

broadcast use vstd::array::group_array_axioms;

use crate::hashing::{fq_canonical, fq_check};

/// When inserting a commitment, keep it so it can be witnessed later, or
/// forget it right away so it can never be witnessed.
#[derive(Clone, Copy, Debug, PartialEq, Eq, Structural)]
pub enum Witness {
    /// Keep this commitment so it can be witnessed later.
    Keep,
    /// Forget this commitment after it has contributed to the root.
    Forget,
}

/// The tier that ran out of room on an insertion.
#[derive(Clone, Copy, Debug, PartialEq, Eq, Structural)]
pub enum Tier {
    /// The current block is full.
    Block,
    /// The current epoch holds its maximum number of blocks.
    Epoch,
    /// The eternity holds its maximum number of epochs.
    Eternity,
}

/// An insertion or finalization found no room; the named tier must be ended
/// by the caller to make room.
#[derive(Clone, Copy, Debug, PartialEq, Eq, Structural)]
pub enum InsertError {
    /// The named tier is at capacity.
    Full(Tier),
}

/// Why a membership proof could not be built.
#[derive(Clone, Copy, Debug, PartialEq, Eq, Structural)]
pub enum WitnessError {
    /// No leaf was ever inserted at this position.
    Absent,
    /// The leaf at this position was forgotten.
    Forgotten,
}

/// Why a proof failed to check.
#[derive(Clone, Copy, Debug, PartialEq, Eq, Structural)]
pub enum VerifyError {
    /// The recomputed root differs from the anchor.
    RootMismatch,
}

/// Why bytes failed to decode.
#[derive(Clone, Copy, Debug, PartialEq, Eq, Structural)]
pub enum DecodeError {
    /// The input has the wrong length.
    WrongLength,
    /// A field-element encoding was out of range.
    OutOfRange,
}

/// A stable address of a leaf: epoch index, block index within the epoch and
/// commitment index within the block, packed in that significance order, so
/// that integer order equals insertion order.
#[derive(Clone, Copy, Debug, PartialEq, Eq, PartialOrd, Ord, Structural)]
pub struct Position(pub u64);

impl Position {
    /// Pack the three indices.
    pub open spec fn pack(e: nat, b: nat, c: nat) -> nat {
        (e * 0x100000000) + (b * 0x10000) + c
    }

    /// The epoch index.
    pub open spec fn epoch_spec(self) -> nat {
        (self.0 as nat) / 0x100000000
    }

    /// The block index within the epoch.
    pub open spec fn block_spec(self) -> nat {
        ((self.0 as nat) / 0x10000) % 0x10000
    }

    /// The commitment index within the block.
    pub open spec fn commitment_spec(self) -> nat {
        (self.0 as nat) % 0x10000
    }

    /// Build a position from its three indices.
    pub fn from_parts(e: u16, b: u16, c: u16) -> (r: Position)
        ensures
            r.0 == Self::pack(e as nat, b as nat, c as nat),
    {
        Position((e as u64) * 0x100000000 + (b as u64) * 0x10000 + (c as u64))
    }

    /// The epoch index.
    pub fn epoch(&self) -> (r: u64)
        ensures
            r == self.epoch_spec(),
    {
        self.0 / 0x100000000
    }

    /// The block index within the epoch.
    pub fn block(&self) -> (r: u64)
        ensures
            r == self.block_spec(),
    {
        (self.0 / 0x10000) % 0x10000
    }

    /// The commitment index within the block.
    pub fn commitment(&self) -> (r: u64)
        ensures
            r == self.commitment_spec(),
    {
        self.0 % 0x10000
    }

    /// Packing three in-range indices and unpacking them gives the indices
    /// back, and the packed value fits in 48 bits.
    pub proof fn lemma_pack_unpack(e: nat, b: nat, c: nat)
        requires
            e < 65536,
            b < 65536,
            c < 65536,
        ensures
            Self::pack(e, b, c) < 0x1000000000000,
            Position(Self::pack(e, b, c) as u64).epoch_spec() == e,
            Position(Self::pack(e, b, c) as u64).block_spec() == b,
            Position(Self::pack(e, b, c) as u64).commitment_spec() == c,
    {
        let p = Self::pack(e, b, c) as int;
        let low = (b * 0x10000 + c) as int;
        assert(low < 0x100000000 && p == (e as int) * 0x100000000 + low && p == ((e as int)
            * 0x10000 + b) * 0x10000 + c && p < 0x1000000000000) by (nonlinear_arith)
            requires
                e < 65536,
                b < 65536,
                c < 65536,
                low == b * 0x10000 + c,
                p == Self::pack(e, b, c),
        ;
        vstd::arithmetic::div_mod::lemma_fundamental_div_mod_converse(p, 0x100000000, e as int, low);
        vstd::arithmetic::div_mod::lemma_fundamental_div_mod_converse(low, 0x10000, b as int, c as int);
        vstd::arithmetic::div_mod::lemma_fundamental_div_mod_converse(
            p,
            0x10000,
            (e as int) * 0x10000 + b,
            c as int,
        );
        vstd::arithmetic::div_mod::lemma_fundamental_div_mod_converse(
            (e as int) * 0x10000 + b,
            0x10000,
            e as int,
            b as int,
        );
    }
}

/// A commitment: the canonical encoding of an element of the base field of the
/// curve used by the Poseidon hash, the payload of a block leaf.
#[derive(Clone, Copy, Debug, PartialEq, Eq)]
pub struct Commitment {
    bytes: [u8; 32],
}

impl View for Commitment {
    type V = Seq<u8>;

    closed spec fn view(&self) -> Seq<u8> {
        self.bytes@
    }
}

impl Commitment {
    #[verifier::type_invariant]
    spec fn type_inv(self) -> bool {
        fq_canonical(self.bytes@)
    }

    /// Decode a commitment, rejecting encodings that are out of the field's
    /// range.
    pub fn from_bytes(bytes: [u8; 32]) -> (r: Option<Commitment>)
        ensures
            r is Some <==> fq_canonical(bytes@),
            r is Some ==> r->0@ == bytes@,
    {
        if fq_check(&bytes) {
            Some(Commitment { bytes })
        } else {
            None
        }
    }

    /// The canonical bytes of this commitment.
    pub fn to_bytes(&self) -> (r: [u8; 32])
        ensures
            r@ == self@,
    {
        self.bytes
    }
}

/// Every commitment encoding is exactly 32 bytes.
pub broadcast proof fn lemma_commitment_len(c: Commitment)
    ensures
        (#[trigger] c@).len() == 32,
{
}

} // verus!
