//! Elliptic-curve Diffie-Hellman key agreement over the decaf377 group: a
//! small, self-contained value type unrelated to the tree, kept behind the
//! same byte-level boundary.

use vstd::prelude::*;

verus! {

#[verifier::external_type_specification]
#[verifier::external_body]
pub struct ExFr(decaf377::Fr);

#[verifier::external_type_specification]
#[verifier::external_body]
pub struct ExElement(decaf377::Element);

/// A public key sent to the counterparty in the key agreement protocol.
///
/// A refinement type around `[u8; 32]` marking the bytes as a public key. Not
/// all 32-byte arrays are valid public keys; invalid ones error during key
/// agreement.
#[derive(Clone, Copy, Debug)]
pub struct Public(pub [u8; 32]);

/// A secret key used to perform key agreement with a counterparty's public
/// key.
pub struct Secret(decaf377::Fr);

/// The shared secret derived at the end of the key agreement protocol.
#[derive(Clone, Debug, PartialEq, Eq)]
pub struct SharedSecret(pub [u8; 32]);

/// An error during key agreement.
#[derive(Clone, Debug)]
pub enum Error {
    /// The bytes are not the encoding of a group element.
    InvalidPublic(Public),
    /// The input has the wrong length for a public key.
    SliceLenError,
}

/// Whether 32 bytes are the canonical encoding of a decaf377 group element:
/// exactly the inputs `decaf377::Encoding::decompress` accepts. A function of
/// the bytes alone.
pub uninterp spec fn group_element_valid(bytes: Seq<u8>) -> bool;

/// Relies on `decaf377::Encoding::decompress`, which returns `Ok` exactly on
/// canonical group-element encodings, and on scalar multiplication and
/// `vartime_compress` for the shared point. Nothing is promised of the
/// returned bytes themselves.
#[verifier::external_body]
fn agree_raw(sk: &decaf377::Fr, pk_bytes: &[u8; 32]) -> (r: Option<[u8; 32]>)
    ensures
        r is Some <==> group_element_valid(pk_bytes@),
{
    match decaf377::Encoding(*pk_bytes).decompress() {
        Ok(pk) => Some((sk * pk).vartime_compress().into()),
        Err(_) => None,
    }
}

impl Secret {
    /// Generate a new secret key using `rng`.
    ///
    /// Relies on `decaf377::Fr::rand`; nothing can be promised of a random
    /// value.
    #[verifier::external_body]
    pub fn new<R: rand_core::RngCore + rand_core::CryptoRng>(mut rng: R) -> Secret {
        Secret(decaf377::Fr::rand(&mut rng))
    }

    /// Use the supplied field element as the secret key directly.
    ///
    /// It is the caller's responsibility to ensure the input was generated
    /// securely.
    pub fn new_from_field(sk: decaf377::Fr) -> Secret {
        Secret(sk)
    }

    /// Derive the public key for this secret key from the conventional
    /// decaf377 generator.
    ///
    /// Relies on `decaf377::Element::GENERATOR`, scalar multiplication and
    /// `vartime_compress`.
    #[verifier::external_body]
    pub fn public(&self) -> Public {
        Public((self.0 * decaf377::Element::GENERATOR).vartime_compress().into())
    }

    /// Derive a diversified public key from the provided generator: key
    /// agreement does not depend on the basepoint, so one secret key can
    /// correspond to many unlinkable public keys.
    ///
    /// Relies on decaf377 scalar multiplication and `vartime_compress`.
    #[verifier::external_body]
    pub fn diversified_public(&self, diversified_generator: &decaf377::Element) -> Public {
        Public((self.0 * diversified_generator).vartime_compress().into())
    }

    /// Perform key agreement with the provided public key: succeeds exactly
    /// when the bytes encode a group element, and otherwise hands the
    /// offending key back in the error.
    pub fn key_agreement_with(&self, other: &Public) -> (r: Result<SharedSecret, Error>)
        ensures
            r is Ok <==> group_element_valid(other.0@),
            r matches Err(e) ==> e matches Error::InvalidPublic(p) && p.0@ == other.0@,
    {
        match agree_raw(&self.0, &other.0) {
            Some(bytes) => Ok(SharedSecret(bytes)),
            None => Err(Error::InvalidPublic(Public(other.0))),
        }
    }
}

impl Public {
    /// Read a public key from a byte slice, rejecting any length other than
    /// 32.
    pub fn try_from_slice(bytes: &[u8]) -> (r: Result<Public, Error>)
        ensures
            r is Ok <==> bytes@.len() == 32,
            r matches Ok(p) ==> p.0@ == bytes@,
            r is Err ==> (r matches Err(e) && e is SliceLenError),
    {
        if bytes.len() != 32 {
            return Err(Error::SliceLenError);
        }
        let mut a = [0u8; 32];
        let mut i: usize = 0;
        while i < 32
            invariant
                i <= 32,
                bytes@.len() == 32,
                forall|j: int| 0 <= j < i ==> a@[j] == bytes@[j],
            decreases 32 - i,
        {
            a[i] = bytes[i];
            i += 1;
        }
        proof {
            assert(a@ =~= bytes@);
        }
        Ok(Public(a))
    }
}

} // verus!
