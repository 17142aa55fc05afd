//! Digest primitives for the tiered tree: a fixed-width fingerprint type, the
//! domain-separated combine function over four children, and the spec-level
//! tree-hash of a sequence of leaves.

use vstd::prelude::*;

verus! {

broadcast use vstd::array::group_array_axioms;

/// 4^h: the number of leaves a subtree of height `h` can hold.
pub open spec fn pow4(h: nat) -> nat
    decreases h,
{
    if h == 0 {
        1
    } else {
        4 * pow4((h - 1) as nat)
    }
}

pub proof fn lemma_pow4_pos(h: nat)
    ensures
        pow4(h) >= 1,
    decreases h,
{
    if h > 0 {
        lemma_pow4_pos((h - 1) as nat);
    }
}

pub proof fn lemma_pow4_mono(a: nat, b: nat)
    requires
        a <= b,
    ensures
        pow4(a) <= pow4(b),
    decreases b,
{
    if a < b {
        lemma_pow4_mono(a, (b - 1) as nat);
        lemma_pow4_pos((b - 1) as nat);
    }
}

/// The sentinel hash standing for an absent subtree: the canonical encoding of
/// the zero field element.
pub open spec fn empty_hash() -> Seq<u8> {
    Seq::new(32, |i: int| 0u8)
}

/// What `poseidon377::hash_4` returns for the domain separator of `height` and
/// the four child encodings, as bytes. The result is a function of its
/// arguments alone.
pub uninterp spec fn combine_of(height: int, a: Seq<u8>, b: Seq<u8>, c: Seq<u8>, d: Seq<u8>) -> Seq<u8>;

/// Whether 32 bytes are the canonical little-endian encoding of a base field
/// element: exactly the inputs `decaf377::Fq::from_bytes_checked` accepts.
pub uninterp spec fn fq_canonical(bytes: Seq<u8>) -> bool;

/// A tree-node fingerprint: the byte encoding of a base field element.
#[derive(Clone, Copy, Debug, PartialEq, Eq)]
pub struct Digest {
    bytes: [u8; 32],
}

impl View for Digest {
    type V = Seq<u8>;

    closed spec fn view(&self) -> Seq<u8> {
        self.bytes@
    }
}

impl Digest {
    /// The sentinel for an absent subtree.
    pub fn empty() -> (r: Digest)
        ensures
            r@ == empty_hash(),
    {
        let r = Digest { bytes: [0u8; 32] };
        proof {
            assert(r.bytes@ =~= empty_hash());
        }
        r
    }

    /// The raw bytes of this hash.
    pub fn to_bytes(&self) -> (r: [u8; 32])
        ensures
            r@ == self@,
    {
        self.bytes
    }

    /// Wrap 32 raw bytes as a hash, without a range check.
    pub fn from_bytes_unchecked(bytes: [u8; 32]) -> (r: Digest)
        ensures
            r@ == bytes@,
    {
        Digest { bytes }
    }

    /// Wrap 32 bytes as a hash if they are a canonical field encoding;
    /// reject out-of-range values.
    pub fn from_bytes(bytes: [u8; 32]) -> (r: Option<Digest>)
        ensures
            r is Some <==> fq_canonical(bytes@),
            r is Some ==> r->0@ == bytes@,
    {
        if fq_check(&bytes) {
            Some(Digest { bytes })
        } else {
            None
        }
    }

    /// Byte-wise equality of two hashes.
    pub fn equals(&self, other: &Digest) -> (r: bool)
        ensures
            r == (self@ == other@),
    {
        let mut i: usize = 0;
        while i < 32
            invariant
                i <= 32,
                forall|j: int| 0 <= j < i ==> self.bytes@[j] == other.bytes@[j],
            decreases 32 - i,
        {
            if self.bytes[i] != other.bytes[i] {
                return false;
            }
            i += 1;
        }
        proof {
            assert(self.bytes@ =~= other.bytes@);
        }
        true
    }

    /// The domain-separated combine function: hash four child fingerprints at
    /// the given height into the parent's fingerprint.
    pub fn combine(height: u8, a: &Digest, b: &Digest, c: &Digest, d: &Digest) -> (r: Digest)
        ensures
            r@ == combine_of(height as int, a@, b@, c@, d@),
    {
        combine_raw(height, a, b, c, d)
    }
}

/// Every fingerprint is exactly 32 bytes.
pub broadcast proof fn lemma_digest_len(d: Digest)
    ensures
        (#[trigger] d@).len() == 32,
{
}

/// Relies on `poseidon377::hash_4`: a fixed permutation, so the result is a
/// function of the domain separator (here, the height) and the four inputs
/// alone; `decaf377::Fq::from_le_bytes_mod_order` and `Fq::to_bytes` convert
/// between bytes and field elements.
#[verifier::external_body]
fn combine_raw(height: u8, a: &Digest, b: &Digest, c: &Digest, d: &Digest) -> (r: Digest)
    ensures
        r@ == combine_of(height as int, a@, b@, c@, d@),
{
    let dom = decaf377::Fq::from_le_bytes_mod_order(&[height]);
    let out = poseidon377::hash_4(
        &dom,
        (
            decaf377::Fq::from_le_bytes_mod_order(&a.bytes),
            decaf377::Fq::from_le_bytes_mod_order(&b.bytes),
            decaf377::Fq::from_le_bytes_mod_order(&c.bytes),
            decaf377::Fq::from_le_bytes_mod_order(&d.bytes),
        ),
    );
    Digest { bytes: out.to_bytes() }
}

/// Relies on `decaf377::Fq::from_bytes_checked`: it returns `Ok` exactly on
/// the canonical encodings of field elements.
#[verifier::external_body]
pub(crate) fn fq_check(bytes: &[u8; 32]) -> (r: bool)
    ensures
        r == fq_canonical(bytes@),
{
    decaf377::Fq::from_bytes_checked(bytes).is_ok()
}

} // verus!
