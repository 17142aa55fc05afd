//! The fixed-size wire format of a membership proof: position (8 bytes,
//! little endian), commitment encoding (32 bytes), then the 24 sibling
//! triples (72 fingerprints of 32 bytes each) — 2344 bytes in all, for every
//! position and fill level.

use vstd::prelude::*;

verus! {

broadcast use crate::hashing::lemma_digest_len, crate::lemma_commitment_len;

use crate::hashing::{Digest, fq_canonical};
use crate::proofs::{Proof, trip_views};
use crate::{Commitment, Position, DecodeError};

/// 256^k.
pub open spec fn pow256(k: nat) -> nat
    decreases k,
{
    if k == 0 {
        1
    } else {
        256 * pow256((k - 1) as nat)
    }
}

/// The eight little-endian bytes of a position value.
pub open spec fn le8(x: nat) -> Seq<u8> {
    Seq::new(8, |i: int| ((x / pow256(i as nat)) % 256) as u8)
}

/// The value of eight little-endian bytes.
pub open spec fn le8_value(s: Seq<u8>) -> nat
    recommends
        s.len() == 8,
{
    (s[0] as nat) + 256 * (s[1] as nat) + 65536 * (s[2] as nat) + 16777216 * (s[3] as nat)
        + 4294967296 * (s[4] as nat) + 1099511627776 * (s[5] as nat) + 281474976710656 * (
    s[6] as nat) + 72057594037927936 * (s[7] as nat)
}

/// The byte run of a sequence of sibling triples, in order.
pub open spec fn ser_auth(auth: Seq<(Seq<u8>, Seq<u8>, Seq<u8>)>) -> Seq<u8>
    decreases auth.len(),
{
    if auth.len() == 0 {
        Seq::empty()
    } else {
        auth[0].0 + auth[0].1 + auth[0].2 + ser_auth(auth.drop_first())
    }
}

/// The whole wire image of a proof.
pub open spec fn proof_bytes(pos: u64, cm: Seq<u8>, auth: Seq<(Seq<u8>, Seq<u8>, Seq<u8>)>) -> Seq<
    u8,
> {
    le8(pos as nat) + cm + ser_auth(auth)
}

/// Serializing after appending one more triple appends its bytes.
pub proof fn lemma_ser_auth_push(a: Seq<(Seq<u8>, Seq<u8>, Seq<u8>)>, t: (Seq<u8>, Seq<u8>, Seq<u8>))
    ensures
        ser_auth(a.push(t)) == ser_auth(a) + t.0 + t.1 + t.2,
    decreases a.len(),
{
    if a.len() == 0 {
        assert(a.push(t).len() == 1);
        assert(a.push(t)[0] == t);
        assert(a.push(t).drop_first().len() == 0);
        assert(a.push(t).drop_first() =~~= Seq::<(Seq<u8>, Seq<u8>, Seq<u8>)>::empty());
        assert(ser_auth(a.push(t).drop_first()) == Seq::<u8>::empty());
        assert(ser_auth(a) == Seq::<u8>::empty());
        assert(ser_auth(a.push(t)) == t.0 + t.1 + t.2 + Seq::<u8>::empty());
        assert(ser_auth(a.push(t)) =~~= ser_auth(a) + t.0 + t.1 + t.2);
    } else {
        assert(a.push(t).drop_first() =~~= a.drop_first().push(t));
        lemma_ser_auth_push(a.drop_first(), t);
        assert(a.push(t)[0] == a[0]);
        assert(ser_auth(a.push(t)) =~~= ser_auth(a) + t.0 + t.1 + t.2);
    }
}

/// Each triple contributes 96 bytes.
pub proof fn lemma_ser_auth_len(a: Seq<(Seq<u8>, Seq<u8>, Seq<u8>)>)
    requires
        forall|i: int|
            0 <= i < a.len() ==> (#[trigger] a[i]).0.len() == 32 && a[i].1.len() == 32
                && a[i].2.len() == 32,
    ensures
        ser_auth(a).len() == 96 * a.len(),
    decreases a.len(),
{
    if a.len() > 0 {
        lemma_ser_auth_len(a.drop_first());
    }
}

/// The little-endian digits of a 64-bit value carry exactly that value.
pub proof fn lemma_le8_value_of_bytes(x: u64)
    ensures
        le8_value(le8(x as nat)) == x,
{
    let n = x as int;
    lemma_pow256_values();
    vstd::arithmetic::div_mod::lemma_fundamental_div_mod(n / 1, 256);
    vstd::arithmetic::div_mod::lemma_div_denominator(n, 1, 256);
    assert(n / 1 / 256 == n / 256);
    vstd::arithmetic::div_mod::lemma_fundamental_div_mod(n / 256, 256);
    vstd::arithmetic::div_mod::lemma_div_denominator(n, 256, 256);
    assert(n / 256 / 256 == n / 65536);
    vstd::arithmetic::div_mod::lemma_fundamental_div_mod(n / 65536, 256);
    vstd::arithmetic::div_mod::lemma_div_denominator(n, 65536, 256);
    assert(n / 65536 / 256 == n / 16777216);
    vstd::arithmetic::div_mod::lemma_fundamental_div_mod(n / 16777216, 256);
    vstd::arithmetic::div_mod::lemma_div_denominator(n, 16777216, 256);
    assert(n / 16777216 / 256 == n / 4294967296);
    vstd::arithmetic::div_mod::lemma_fundamental_div_mod(n / 4294967296, 256);
    vstd::arithmetic::div_mod::lemma_div_denominator(n, 4294967296, 256);
    assert(n / 4294967296 / 256 == n / 1099511627776);
    vstd::arithmetic::div_mod::lemma_fundamental_div_mod(n / 1099511627776, 256);
    vstd::arithmetic::div_mod::lemma_div_denominator(n, 1099511627776, 256);
    assert(n / 1099511627776 / 256 == n / 281474976710656);
    vstd::arithmetic::div_mod::lemma_fundamental_div_mod(n / 281474976710656, 256);
    vstd::arithmetic::div_mod::lemma_div_denominator(n, 281474976710656, 256);
    assert(n / 281474976710656 / 256 == n / 72057594037927936);
    vstd::arithmetic::div_mod::lemma_fundamental_div_mod(n / 72057594037927936, 256);
    assert(n / 72057594037927936 / 256 == n / 18446744073709551616) by {
        vstd::arithmetic::div_mod::lemma_div_denominator(n, 72057594037927936, 256);
    }
    assert(n / 18446744073709551616 == 0) by {
        vstd::arithmetic::div_mod::lemma_basic_div(n, 18446744073709551616);
    }
    assert(le8(x as nat)[0] as int == (n / 1) % 256);
    assert(le8(x as nat)[1] as int == (n / 256) % 256);
    assert(le8(x as nat)[2] as int == (n / 65536) % 256);
    assert(le8(x as nat)[3] as int == (n / 16777216) % 256);
    assert(le8(x as nat)[4] as int == (n / 4294967296) % 256);
    assert(le8(x as nat)[5] as int == (n / 1099511627776) % 256);
    assert(le8(x as nat)[6] as int == (n / 281474976710656) % 256);
    assert(le8(x as nat)[7] as int == (n / 72057594037927936) % 256);
    assert(le8_value(le8(x as nat)) == x);
}

/// The first eight powers of 256.
pub proof fn lemma_pow256_values()
    ensures
        pow256(0) == 1,
        pow256(1) == 256,
        pow256(2) == 65536,
        pow256(3) == 16777216,
        pow256(4) == 4294967296,
        pow256(5) == 1099511627776,
        pow256(6) == 281474976710656,
        pow256(7) == 72057594037927936,
{
    reveal_with_fuel(pow256, 9);
}

/// Eight bytes are exactly the digits of their value.
pub proof fn lemma_le8_of_value(s: Seq<u8>)
    requires
        s.len() == 8,
    ensures
        le8_value(s) < 0x10000000000000000,
        le8(le8_value(s)) == s,
{
    lemma_pow256_values();
    let v = le8_value(s) as int;
    let q0 = 1 * (s[0] as int) + 256 * (s[1] as int) + 65536 * (s[2] as int) + 16777216 * (s[3] as int) + 4294967296 * (s[4] as int) + 1099511627776 * (s[5] as int) + 281474976710656 * (s[6] as int) + 72057594037927936 * (s[7] as int);
    let r0 = 0;
    vstd::arithmetic::div_mod::lemma_fundamental_div_mod_converse(v, 1, q0, r0);
    vstd::arithmetic::div_mod::lemma_fundamental_div_mod_converse(q0, 256, 1 * (s[1] as int) + 256 * (s[2] as int) + 65536 * (s[3] as int) + 16777216 * (s[4] as int) + 4294967296 * (s[5] as int) + 1099511627776 * (s[6] as int) + 281474976710656 * (s[7] as int), s[0] as int);
    assert(v / 1 % 256 == s[0] as int);
    let q1 = 1 * (s[1] as int) + 256 * (s[2] as int) + 65536 * (s[3] as int) + 16777216 * (s[4] as int) + 4294967296 * (s[5] as int) + 1099511627776 * (s[6] as int) + 281474976710656 * (s[7] as int);
    let r1 = 1 * (s[0] as int);
    vstd::arithmetic::div_mod::lemma_fundamental_div_mod_converse(v, 256, q1, r1);
    vstd::arithmetic::div_mod::lemma_fundamental_div_mod_converse(q1, 256, 1 * (s[2] as int) + 256 * (s[3] as int) + 65536 * (s[4] as int) + 16777216 * (s[5] as int) + 4294967296 * (s[6] as int) + 1099511627776 * (s[7] as int), s[1] as int);
    assert(v / 256 % 256 == s[1] as int);
    let q2 = 1 * (s[2] as int) + 256 * (s[3] as int) + 65536 * (s[4] as int) + 16777216 * (s[5] as int) + 4294967296 * (s[6] as int) + 1099511627776 * (s[7] as int);
    let r2 = 1 * (s[0] as int) + 256 * (s[1] as int);
    vstd::arithmetic::div_mod::lemma_fundamental_div_mod_converse(v, 65536, q2, r2);
    vstd::arithmetic::div_mod::lemma_fundamental_div_mod_converse(q2, 256, 1 * (s[3] as int) + 256 * (s[4] as int) + 65536 * (s[5] as int) + 16777216 * (s[6] as int) + 4294967296 * (s[7] as int), s[2] as int);
    assert(v / 65536 % 256 == s[2] as int);
    let q3 = 1 * (s[3] as int) + 256 * (s[4] as int) + 65536 * (s[5] as int) + 16777216 * (s[6] as int) + 4294967296 * (s[7] as int);
    let r3 = 1 * (s[0] as int) + 256 * (s[1] as int) + 65536 * (s[2] as int);
    vstd::arithmetic::div_mod::lemma_fundamental_div_mod_converse(v, 16777216, q3, r3);
    vstd::arithmetic::div_mod::lemma_fundamental_div_mod_converse(q3, 256, 1 * (s[4] as int) + 256 * (s[5] as int) + 65536 * (s[6] as int) + 16777216 * (s[7] as int), s[3] as int);
    assert(v / 16777216 % 256 == s[3] as int);
    let q4 = 1 * (s[4] as int) + 256 * (s[5] as int) + 65536 * (s[6] as int) + 16777216 * (s[7] as int);
    let r4 = 1 * (s[0] as int) + 256 * (s[1] as int) + 65536 * (s[2] as int) + 16777216 * (s[3] as int);
    vstd::arithmetic::div_mod::lemma_fundamental_div_mod_converse(v, 4294967296, q4, r4);
    vstd::arithmetic::div_mod::lemma_fundamental_div_mod_converse(q4, 256, 1 * (s[5] as int) + 256 * (s[6] as int) + 65536 * (s[7] as int), s[4] as int);
    assert(v / 4294967296 % 256 == s[4] as int);
    let q5 = 1 * (s[5] as int) + 256 * (s[6] as int) + 65536 * (s[7] as int);
    let r5 = 1 * (s[0] as int) + 256 * (s[1] as int) + 65536 * (s[2] as int) + 16777216 * (s[3] as int) + 4294967296 * (s[4] as int);
    vstd::arithmetic::div_mod::lemma_fundamental_div_mod_converse(v, 1099511627776, q5, r5);
    vstd::arithmetic::div_mod::lemma_fundamental_div_mod_converse(q5, 256, 1 * (s[6] as int) + 256 * (s[7] as int), s[5] as int);
    assert(v / 1099511627776 % 256 == s[5] as int);
    let q6 = 1 * (s[6] as int) + 256 * (s[7] as int);
    let r6 = 1 * (s[0] as int) + 256 * (s[1] as int) + 65536 * (s[2] as int) + 16777216 * (s[3] as int) + 4294967296 * (s[4] as int) + 1099511627776 * (s[5] as int);
    vstd::arithmetic::div_mod::lemma_fundamental_div_mod_converse(v, 281474976710656, q6, r6);
    vstd::arithmetic::div_mod::lemma_fundamental_div_mod_converse(q6, 256, 1 * (s[7] as int), s[6] as int);
    assert(v / 281474976710656 % 256 == s[6] as int);
    let q7 = 1 * (s[7] as int);
    let r7 = 1 * (s[0] as int) + 256 * (s[1] as int) + 65536 * (s[2] as int) + 16777216 * (s[3] as int) + 4294967296 * (s[4] as int) + 1099511627776 * (s[5] as int) + 281474976710656 * (s[6] as int);
    vstd::arithmetic::div_mod::lemma_fundamental_div_mod_converse(v, 72057594037927936, q7, r7);
    vstd::arithmetic::div_mod::lemma_fundamental_div_mod_converse(q7, 256, 0, s[7] as int);
    assert(v / 72057594037927936 % 256 == s[7] as int);
    assert(le8(le8_value(s)) =~= s);
}

/// Two triple runs with the same byte image are the same triples.
pub proof fn lemma_ser_auth_injective(a1: Seq<(Seq<u8>, Seq<u8>, Seq<u8>)>, a2: Seq<(Seq<u8>, Seq<u8>, Seq<u8>)>)
    requires
        a1.len() == a2.len(),
        forall|i: int|
            0 <= i < a1.len() ==> (#[trigger] a1[i]).0.len() == 32 && a1[i].1.len() == 32
                && a1[i].2.len() == 32,
        forall|i: int|
            0 <= i < a2.len() ==> (#[trigger] a2[i]).0.len() == 32 && a2[i].1.len() == 32
                && a2[i].2.len() == 32,
        ser_auth(a1) == ser_auth(a2),
    ensures
        forall|i: int|
            0 <= i < a1.len() ==> (#[trigger] a1[i]).0 == a2[i].0 && a1[i].1 == a2[i].1
                && a1[i].2 == a2[i].2,
    decreases a1.len(),
{
    if a1.len() == 0 {
    } else {
        lemma_ser_auth_len(a1.drop_first());
        lemma_ser_auth_len(a2.drop_first());
        let s = ser_auth(a1);
        assert(a1[0].0 =~= s.subrange(0, 32));
        assert(a1[0].1 =~= s.subrange(32, 64));
        assert(a1[0].2 =~= s.subrange(64, 96));
        assert(ser_auth(a1.drop_first()) =~= s.subrange(96, s.len() as int));
        assert(a2[0].0 =~= s.subrange(0, 32));
        assert(a2[0].1 =~= s.subrange(32, 64));
        assert(a2[0].2 =~= s.subrange(64, 96));
        assert(ser_auth(a2.drop_first()) =~= s.subrange(96, s.len() as int));
        lemma_ser_auth_injective(a1.drop_first(), a2.drop_first());
        assert forall|i: int|
            0 <= i < a1.len() implies (#[trigger] a1[i]).0 == a2[i].0 && a1[i].1 == a2[i].1
            && a1[i].2 == a2[i].2 by {
            if i > 0 {
                assert(a1.drop_first()[i - 1] == a1[i]);
                assert(a2.drop_first()[i - 1] == a2[i]);
                assert((a1.drop_first()[i - 1]).0 == a2.drop_first()[i - 1].0);
            }
        }
    }
}

/// Decoding is the inverse of encoding: any two proofs with the same wire
/// image agree on position, commitment and every sibling hash, so what
/// `decode` accepts from `serialize`'s output is the proof that was encoded.
pub proof fn lemma_proof_bytes_injective(
    p1: u64,
    c1: Seq<u8>,
    a1: Seq<(Seq<u8>, Seq<u8>, Seq<u8>)>,
    p2: u64,
    c2: Seq<u8>,
    a2: Seq<(Seq<u8>, Seq<u8>, Seq<u8>)>,
)
    requires
        c1.len() == 32,
        c2.len() == 32,
        a1.len() == 24,
        a2.len() == 24,
        forall|i: int|
            0 <= i < a1.len() ==> (#[trigger] a1[i]).0.len() == 32 && a1[i].1.len() == 32
                && a1[i].2.len() == 32,
        forall|i: int|
            0 <= i < a2.len() ==> (#[trigger] a2[i]).0.len() == 32 && a2[i].1.len() == 32
                && a2[i].2.len() == 32,
        proof_bytes(p1, c1, a1) == proof_bytes(p2, c2, a2),
    ensures
        p1 == p2,
        c1 == c2,
        forall|i: int|
            0 <= i < a1.len() ==> (#[trigger] a1[i]).0 == a2[i].0 && a1[i].1 == a2[i].1
                && a1[i].2 == a2[i].2,
    {
    let s = proof_bytes(p1, c1, a1);
    lemma_ser_auth_len(a1);
    lemma_ser_auth_len(a2);
    assert(le8(p1 as nat) =~= s.subrange(0, 8));
    assert(le8(p2 as nat) =~= s.subrange(0, 8));
    lemma_le8_value_of_bytes(p1);
    lemma_le8_value_of_bytes(p2);
    assert(c1 =~= s.subrange(8, 40));
    assert(c2 =~= s.subrange(8, 40));
    assert(ser_auth(a1) =~= s.subrange(40, s.len() as int));
    assert(ser_auth(a2) =~= s.subrange(40, s.len() as int));
    lemma_ser_auth_injective(a1, a2);
}

/// Append a fingerprint's bytes.
fn push_digest(out: &mut Vec<u8>, d: &Digest)
    ensures
        final(out)@ == old(out)@ + d@,
{
    let bytes = d.to_bytes();
    let mut i: usize = 0;
    while i < 32
        invariant
            i <= 32,
            bytes@ == d@,
            out@ == old(out)@ + d@.subrange(0, i as int),
        decreases 32 - i,
    {
        out.push(bytes[i]);
        proof {
            assert(out@ =~= old(out)@ + d@.subrange(0, i + 1));
        }
        i += 1;
    }
    proof {
        assert(out@ =~= old(out)@ + d@);
    }
}

/// Read 32 bytes at `off`.
fn read32(bytes: &Vec<u8>, off: usize) -> (r: [u8; 32])
    requires
        off + 32 <= bytes@.len(),
    ensures
        r@ == bytes@.subrange(off as int, off + 32),
{
    let mut a = [0u8; 32];
    let blen: usize = bytes.len();
    let mut i: usize = 0;
    while i < 32
        invariant
            i <= 32,
            off + 32 <= blen,
            blen == bytes@.len(),
            forall|j: int| 0 <= j < i ==> a@[j] == bytes@[off + j],
        decreases 32 - i,
    {
        a[i] = bytes[off + i];
        i += 1;
    }
    proof {
        assert(a@ =~= bytes@.subrange(off as int, off + 32));
    }
    a
}

/// Encode a proof into its fixed 2344-byte wire image: position, commitment,
/// then the 72 sibling fingerprints. The length never depends on the position
/// or on how full the tree was.
pub fn serialize(pf: &Proof) -> (r: Vec<u8>)
    ensures
        r@ == proof_bytes(pf.position_spec().0, pf.commitment_view(), pf.auth_view()),
        r@.len() == 2344,
        fq_canonical(r@.subrange(8, 40)),
{
    let mut out: Vec<u8> = Vec::new();
    let x: u64 = pf.position().0;
    let b0: u8 = (x % 256) as u8;
    let b1: u8 = ((x / 256) % 256) as u8;
    let b2: u8 = ((x / 65536) % 256) as u8;
    let b3: u8 = ((x / 16777216) % 256) as u8;
    let b4: u8 = ((x / 4294967296) % 256) as u8;
    let b5: u8 = ((x / 1099511627776) % 256) as u8;
    let b6: u8 = ((x / 281474976710656) % 256) as u8;
    let b7: u8 = ((x / 72057594037927936) % 256) as u8;
    out.push(b0);
    out.push(b1);
    out.push(b2);
    out.push(b3);
    out.push(b4);
    out.push(b5);
    out.push(b6);
    out.push(b7);
    proof {
        lemma_pow256_values();
        let n = x as nat;
        assert(out@.len() == 8);
        assert(out@[0] == b0);
        assert(le8(n)[0] == ((n / 1) % 256) as u8);
        assert(out@[1] == b1);
        assert(le8(n)[1] == ((n / 256) % 256) as u8);
        assert(out@[2] == b2);
        assert(le8(n)[2] == ((n / 65536) % 256) as u8);
        assert(out@[3] == b3);
        assert(le8(n)[3] == ((n / 16777216) % 256) as u8);
        assert(out@[4] == b4);
        assert(le8(n)[4] == ((n / 4294967296) % 256) as u8);
        assert(out@[5] == b5);
        assert(le8(n)[5] == ((n / 1099511627776) % 256) as u8);
        assert(out@[6] == b6);
        assert(le8(n)[6] == ((n / 281474976710656) % 256) as u8);
        assert(out@[7] == b7);
        assert(le8(n)[7] == ((n / 72057594037927936) % 256) as u8);
        assert(n / 1 == n);
        assert(out@ =~= le8(n));
    }
    let cm = pf.commitment();
    proof {
        use_type_invariant(&cm);
    }
    let cb = cm.to_bytes();
    let mut i: usize = 0;
    while i < 32
        invariant
            i <= 32,
            cb@ == pf.commitment_view(),
            out@ == le8(pf.position_spec().0 as nat) + pf.commitment_view().subrange(0, i as int),
        decreases 32 - i,
    {
        out.push(cb[i]);
        proof {
            assert(out@ =~= le8(pf.position_spec().0 as nat) + pf.commitment_view().subrange(
                0,
                i + 1,
            ));
        }
        i += 1;
    }
    proof {
        assert(pf.commitment_view().subrange(0, 32) =~= pf.commitment_view());
    }
    let auth = pf.auth_vec();
    let ghost head = le8(pf.position_spec().0 as nat) + pf.commitment_view();
    let mut k: usize = 0;
    while k < auth.len()
        invariant
            k <= auth@.len(),
            auth@.len() == 24,
            trip_views(auth@) == pf.auth_view(),
            head == le8(pf.position_spec().0 as nat) + pf.commitment_view(),
            out@ == head + ser_auth(trip_views(auth@).subrange(0, k as int)),
        decreases auth@.len() - k,
    {
        let t = auth[k];
        let ghost pre_ts = trip_views(auth@).subrange(0, k as int);
        push_digest(&mut out, &t.0);
        push_digest(&mut out, &t.1);
        push_digest(&mut out, &t.2);
        proof {
            lemma_ser_auth_push(pre_ts, trip_views(auth@)[k as int]);
            assert(trip_views(auth@).subrange(0, k + 1) =~~= pre_ts.push(
                trip_views(auth@)[k as int],
            ));
            assert(out@ =~= head + ser_auth(trip_views(auth@).subrange(0, k + 1)));
        }
        k += 1;
    }
    proof {
        assert(trip_views(auth@).subrange(0, 24) =~~= pf.auth_view());
        assert forall|j: int|
            0 <= j < pf.auth_view().len() implies (#[trigger] pf.auth_view()[j]).0.len() == 32
            && pf.auth_view()[j].1.len() == 32 && pf.auth_view()[j].2.len() == 32 by {
            assert(pf.auth_view()[j] == (auth@[j].0@, auth@[j].1@, auth@[j].2@));
        }
        lemma_ser_auth_len(pf.auth_view());
        assert(out@.subrange(8, 40) =~= pf.commitment_view());
    }
    out
}

/// Decode a proof from its wire image: reject any length other than 2344
/// bytes, and a commitment encoding that is out of the field's range. What
/// comes back serializes to exactly the input.
pub fn decode(bytes: &Vec<u8>) -> (r: Result<Proof, DecodeError>)
    ensures
        r is Err ==> (r == Err::<Proof, DecodeError>(DecodeError::WrongLength) <==> bytes@.len()
            != 2344),
        bytes@.len() == 2344 ==> ((r is Err) <==> !fq_canonical(bytes@.subrange(8, 40))),
        r matches Ok(pf) ==> proof_bytes(pf.position_spec().0, pf.commitment_view(), pf.auth_view())
            == bytes@,
    {
    if bytes.len() != 2344 {
        return Err(DecodeError::WrongLength);
    }
    let x0: u64 = bytes[0] as u64;
    let x1: u64 = bytes[1] as u64;
    let x2: u64 = bytes[2] as u64;
    let x3: u64 = bytes[3] as u64;
    let x4: u64 = bytes[4] as u64;
    let x5: u64 = bytes[5] as u64;
    let x6: u64 = bytes[6] as u64;
    let x7: u64 = bytes[7] as u64;
    let pos: u64 = x0 + 256 * x1 + 65536 * x2 + 16777216 * x3 + 4294967296 * x4 + 1099511627776
        * x5 + 281474976710656 * x6 + 72057594037927936 * x7;
    proof {
        lemma_le8_of_value(bytes@.subrange(0, 8));
        assert(le8_value(bytes@.subrange(0, 8)) == pos);
        assert(le8(pos as nat) == bytes@.subrange(0, 8));
    }
    let cmb = read32(bytes, 8);
    let cm = match Commitment::from_bytes(cmb) {
        Some(cm) => cm,
        None => {
            return Err(DecodeError::OutOfRange);
        },
    };
    let mut auth: Vec<(Digest, Digest, Digest)> = Vec::new();
    let mut k: usize = 0;
    let ghost tail = bytes@.subrange(40, 2344);
    while k < 24
        invariant
            k <= 24,
            bytes@.len() == 2344,
            auth@.len() == k,
            tail == bytes@.subrange(40, 2344),
            ser_auth(trip_views(auth@)) == bytes@.subrange(40, 40 + 96 * (k as int)),
            forall|j: int|
                0 <= j < k ==> (#[trigger] trip_views(auth@)[j]).0.len() == 32 && trip_views(
                    auth@,
                )[j].1.len() == 32 && trip_views(auth@)[j].2.len() == 32,
        decreases 24 - k,
    {
        let off: usize = 40 + 96 * k;
        let d0 = Digest::from_bytes_unchecked(read32(bytes, off));
        let d1 = Digest::from_bytes_unchecked(read32(bytes, off + 32));
        let d2 = Digest::from_bytes_unchecked(read32(bytes, off + 64));
        let ghost pre_ts = trip_views(auth@);
        auth.push((d0, d1, d2));
        proof {
            lemma_ser_auth_push(pre_ts, (d0@, d1@, d2@));
            assert(trip_views(auth@) =~~= pre_ts.push((d0@, d1@, d2@)));
            assert(ser_auth(trip_views(auth@)) =~= bytes@.subrange(40, 40 + 96 * (k + 1)));
        }
        k += 1;
    }
    let pf = Proof::assemble(Position(pos), cm, auth);
    proof {
        assert(ser_auth(pf.auth_view()) =~= bytes@.subrange(40, 2344));
        assert(proof_bytes(pf.position_spec().0, pf.commitment_view(), pf.auth_view()) =~= bytes@);
    }
    Ok(pf)
}

} // verus!
