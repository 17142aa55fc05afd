//! The 4-ary, fixed-height tree hash: the spec-level hash of a sequence of
//! leaf fingerprints, and the executable function computing it over a window
//! of a vector.

use vstd::prelude::*;

verus! {

use crate::hashing::{Digest, empty_hash, combine_of, pow4, lemma_pow4_pos, lemma_pow4_mono};

/// The fingerprints of a sequence of hashes.
pub open spec fn views_of(s: Seq<Digest>) -> Seq<Seq<u8>> {
    s.map_values(|h: Digest| h@)
}

/// Clip an offset to a sequence length.
pub open spec fn cap_at(x: nat, len: nat) -> int {
    if x < len {
        x as int
    } else {
        len as int
    }
}

/// The `i`-th chunk of `s` when split into runs of `q` leaves: leaves past the
/// end are absent.
pub open spec fn chunk(s: Seq<Seq<u8>>, q: nat, i: nat) -> Seq<Seq<u8>> {
    s.subrange(cap_at(q * i, s.len()), cap_at(q * (i + 1), s.len()))
}

/// The fingerprint of the subtree of height `h` whose present leaves are `s`,
/// in order. An absent subtree hashes to the sentinel; at height 0 a leaf's
/// fingerprint is the leaf itself; otherwise the four children are combined
/// under the height's domain separator.
pub open spec fn node_hash(h: nat, s: Seq<Seq<u8>>) -> Seq<u8>
    decreases h,
{
    if s.len() == 0 {
        empty_hash()
    } else if h == 0 {
        s[0]
    } else {
        let q = pow4((h - 1) as nat);
        combine_of(
            h as int,
            node_hash((h - 1) as nat, chunk(s, q, 0)),
            node_hash((h - 1) as nat, chunk(s, q, 1)),
            node_hash((h - 1) as nat, chunk(s, q, 2)),
            node_hash((h - 1) as nat, chunk(s, q, 3)),
        )
    }
}

/// The root of one eight-level tier over its leaf fingerprints.
pub open spec fn tier_root(s: Seq<Seq<u8>>) -> Seq<u8> {
    node_hash(8, s)
}

/// The root of an epoch: the tier hash over its blocks' roots.
pub open spec fn epoch_root(blocks: Seq<Seq<Seq<u8>>>) -> Seq<u8> {
    tier_root(blocks.map_values(|b: Seq<Seq<u8>>| tier_root(b)))
}

/// The root of an eternity: the tier hash over its epochs' roots.
pub open spec fn eternity_root(epochs: Seq<Seq<Seq<Seq<u8>>>>) -> Seq<u8> {
    tier_root(epochs.map_values(|e: Seq<Seq<Seq<u8>>>| epoch_root(e)))
}

/// Validity of one block's data: one kept-flag per leaf, at most 4^8 leaves,
/// every leaf fingerprint a canonical field encoding.
pub open spec fn leaves_wf(leaves: Seq<Seq<u8>>, kept: Seq<bool>) -> bool {
    &&& leaves.len() == kept.len()
    &&& leaves.len() <= 65536
    &&& forall|i: int|
        0 <= i < leaves.len() ==> crate::hashing::fq_canonical(#[trigger] leaves[i])
}

/// Validity of one epoch's data: at most 4^8 blocks, each valid.
pub open spec fn epoch_wf_seq(bls: Seq<Seq<Seq<u8>>>, kbs: Seq<Seq<bool>>) -> bool {
    &&& bls.len() == kbs.len()
    &&& bls.len() <= 65536
    &&& forall|i: int| 0 <= i < bls.len() ==> leaves_wf(#[trigger] bls[i], kbs[i])
}

/// Validity of a whole eternity's data: at most 4^8 epochs, each valid.
pub open spec fn shape_wf(sh: Seq<Seq<Seq<Seq<u8>>>>, ks: Seq<Seq<Seq<bool>>>) -> bool {
    &&& sh.len() == ks.len()
    &&& sh.len() <= 65536
    &&& forall|i: int| 0 <= i < sh.len() ==> epoch_wf_seq(#[trigger] sh[i], ks[i])
}

/// Insert `own` among three siblings at child index `d` (any `d` past 3 is
/// placed last).
pub open spec fn place(own: Seq<u8>, d: nat, sib: (Seq<u8>, Seq<u8>, Seq<u8>)) -> (
    Seq<u8>,
    Seq<u8>,
    Seq<u8>,
    Seq<u8>,
) {
    if d == 0 {
        (own, sib.0, sib.1, sib.2)
    } else if d == 1 {
        (sib.0, own, sib.1, sib.2)
    } else if d == 2 {
        (sib.0, sib.1, own, sib.2)
    } else {
        (sib.0, sib.1, sib.2, own)
    }
}

/// The three off-path child hashes at the top level of a height-`h` subtree,
/// for the path to leaf `idx`, in child order.
pub open spec fn top_siblings(h: nat, s: Seq<Seq<u8>>, idx: nat) -> (Seq<u8>, Seq<u8>, Seq<u8>)
    recommends
        h >= 1,
{
    let q = pow4((h - 1) as nat);
    let d = idx / q;
    let c0 = node_hash((h - 1) as nat, chunk(s, q, 0));
    let c1 = node_hash((h - 1) as nat, chunk(s, q, 1));
    let c2 = node_hash((h - 1) as nat, chunk(s, q, 2));
    let c3 = node_hash((h - 1) as nat, chunk(s, q, 3));
    if d == 0 {
        (c1, c2, c3)
    } else if d == 1 {
        (c0, c2, c3)
    } else if d == 2 {
        (c0, c1, c3)
    } else {
        (c0, c1, c2)
    }
}

/// The authentication path for leaf `idx` of a height-`h` subtree with leaves
/// `s`: one triple of sibling hashes per level, deepest level first.
pub open spec fn auth_spec(h: nat, s: Seq<Seq<u8>>, idx: nat) -> Seq<(Seq<u8>, Seq<u8>, Seq<u8>)>
    decreases h,
{
    if h == 0 {
        Seq::empty()
    } else {
        let q = pow4((h - 1) as nat);
        let d = idx / q;
        auth_spec((h - 1) as nat, chunk(s, q, d), idx % q).push(top_siblings(h, s, idx))
    }
}

/// Recompute a height-`h` subtree root from a leaf, its index, and sibling
/// triples (deepest level first): the stateless half of verification.
pub open spec fn rebuild(h: nat, leaf: Seq<u8>, idx: nat, auth: Seq<(Seq<u8>, Seq<u8>, Seq<u8>)>) -> Seq<u8>
    decreases h,
{
    if h == 0 {
        leaf
    } else {
        let q = pow4((h - 1) as nat);
        let below = rebuild((h - 1) as nat, leaf, idx % q, auth.subrange(0, h - 1));
        let t = place(below, idx / q, auth[h - 1]);
        combine_of(h as int, t.0, t.1, t.2, t.3)
    }
}

/// A chunk of a window of `big` is the matching window of `big` itself.
pub proof fn lemma_chunk_window(big: Seq<Seq<u8>>, start: int, end: int, q: nat, i: nat)
    requires
        0 <= start <= end <= big.len(),
    ensures
        chunk(big.subrange(start, end), q, i) == big.subrange(
            start + cap_at(q * i, (end - start) as nat),
            start + cap_at(q * (i + 1), (end - start) as nat),
        ),
{
    let n = (end - start) as nat;
    let s = big.subrange(start, end);
    assert(q * i <= q * (i + 1)) by (nonlinear_arith);
    assert(chunk(s, q, i) =~= big.subrange(start + cap_at(q * i, n), start + cap_at(q * (i + 1), n)));
}

/// `auth_spec` yields one triple per level.
#[verifier::rlimit(50)]
pub proof fn lemma_auth_spec_len(h: nat, s: Seq<Seq<u8>>, idx: nat)
    ensures
        auth_spec(h, s, idx).len() == h,
    decreases h,
{
    if h > 0 {
        let hm = (h - 1) as nat;
        let q = pow4(hm);
        lemma_pow4_pos(hm);
        assert(q * (idx / q) <= q * (idx / q + 1)) by (nonlinear_arith);
        lemma_auth_spec_len(hm, chunk(s, q, idx / q), idx % q);
        assert(auth_spec(h, s, idx) =~~= auth_spec(hm, chunk(s, q, idx / q), idx % q).push(
            top_siblings(h, s, idx),
        )) by {
            reveal_with_fuel(auth_spec, 2);
        }
    }
}

/// Rebuilding from a leaf present in `s` along its authentication path gives
/// the subtree's own hash: why honest proofs verify.
#[verifier::rlimit(50)]
pub proof fn lemma_rebuild_path(h: nat, s: Seq<Seq<u8>>, idx: nat)
    requires
        idx < s.len(),
        s.len() <= pow4(h),
    ensures
        rebuild(h, s[idx as int], idx, auth_spec(h, s, idx)) == node_hash(h, s),
    decreases h,
{
    lemma_auth_spec_len(h, s, idx);
    if h == 0 {
    } else {
        let hm = (h - 1) as nat;
        let q = pow4(hm);
        lemma_pow4_pos(hm);
        let d = idx / q;
        let r = idx % q;
        vstd::arithmetic::div_mod::lemma_fundamental_div_mod(idx as int, q as int);
        vstd::arithmetic::div_mod::lemma_mod_division_less_than_divisor(idx as int, q as int);
        assert(idx == q * d + r);
        assert(d < 4 && idx < q * (d + 1) && q * d <= idx) by (nonlinear_arith)
            requires
                q >= 1,
                idx == q * d + r,
                0 <= r < q,
                0 <= d,
                idx < 4 * q,
        ;
        let cd = chunk(s, q, d);
        assert(q * d < s.len());
        assert(q * (d + 1) - q * d == q) by (nonlinear_arith);
        assert(cd.len() == cap_at(q * (d + 1), s.len()) - q * d);
        assert(r < cd.len());
        assert(cd.len() <= q);
        assert(cd[r as int] == s[idx as int]);
        lemma_rebuild_path(hm, cd, r);
        lemma_auth_spec_len(hm, cd, r);
        let auth = auth_spec(h, s, idx);
        assert(auth =~~= auth_spec(hm, cd, r).push(top_siblings(h, s, idx))) by {
            reveal_with_fuel(auth_spec, 2);
        }
        assert(auth.subrange(0, h - 1) =~~= auth_spec(hm, cd, r));
        assert(auth[h - 1] == top_siblings(h, s, idx));
        let below = rebuild(hm, s[idx as int], r, auth.subrange(0, h - 1));
        assert(below == node_hash(hm, cd));
        let t = place(below, d, auth[h - 1]);
        assert(t == (
            node_hash(hm, chunk(s, q, 0)),
            node_hash(hm, chunk(s, q, 1)),
            node_hash(hm, chunk(s, q, 2)),
            node_hash(hm, chunk(s, q, 3)),
        ));
        assert(rebuild(h, s[idx as int], idx, auth) == combine_of(h as int, t.0, t.1, t.2, t.3));
        assert(s.len() > 0);
        assert(node_hash(h, s) == combine_of(
            h as int,
            node_hash(hm, chunk(s, q, 0)),
            node_hash(hm, chunk(s, q, 1)),
            node_hash(hm, chunk(s, q, 2)),
            node_hash(hm, chunk(s, q, 3)),
        ));
    }
}

/// 4^h for heights within a tier, as a machine integer.
pub fn pow4_exec(h: u8) -> (r: usize)
    requires
        h <= 8,
    ensures
        r == pow4(h as nat),
        r <= 65536,
    decreases h,
{
    proof {
        lemma_pow4_mono(h as nat, 8);
        assert(pow4(8) == 65536) by {
            reveal_with_fuel(pow4, 9);
        }
    }
    if h == 0 {
        1
    } else {
        let prev: usize = pow4_exec(h - 1);
        proof {
            lemma_pow4_pos((h - 1) as nat);
        }
        4 * prev
    }
}

/// Digest the subtree of height `h` whose leaves are `leaves[start..end]`.
#[verifier::rlimit(50)]
pub fn hash_range(leaves: &Vec<Digest>, h: u8, start: usize, end: usize) -> (r: Digest)
    requires
        h <= 8,
        start <= end <= leaves@.len(),
        end - start <= pow4(h as nat),
        leaves@.len() <= 65536,
    ensures
        r@ == node_hash(h as nat, views_of(leaves@).subrange(start as int, end as int)),
    decreases h,
{
    let ghost s = views_of(leaves@).subrange(start as int, end as int);
    let n: usize = end - start;
    if n == 0 {
        Digest::empty()
    } else if h == 0 {
        let r = leaves[start];
        proof {
            assert(s[0] == views_of(leaves@)[start as int]);
        }
        r
    } else {
        let q: usize = pow4_exec(h - 1);
        proof {
            lemma_pow4_pos((h - 1) as nat);
        }
        let m1: usize = if q < n { q } else { n };
        let m2: usize = if 2 * q < n { 2 * q } else { n };
        let m3: usize = if 3 * q < n { 3 * q } else { n };
        let c0 = hash_range(leaves, h - 1, start, start + m1);
        let c1 = hash_range(leaves, h - 1, start + m1, start + m2);
        let c2 = hash_range(leaves, h - 1, start + m2, start + m3);
        let c3 = hash_range(leaves, h - 1, start + m3, end);
        proof {
            let ghost qs = pow4((h - 1) as nat);
            let ghost big = views_of(leaves@);
            let ghost nn = (n as nat);
            assert(4 * qs == pow4(h as nat));
            lemma_chunk_window(big, start as int, end as int, qs, 0);
            lemma_chunk_window(big, start as int, end as int, qs, 1);
            lemma_chunk_window(big, start as int, end as int, qs, 2);
            lemma_chunk_window(big, start as int, end as int, qs, 3);
            assert(cap_at(qs * 0, nn) == 0);
            assert(cap_at(qs * 1, nn) == m1);
            assert(cap_at(qs * 2, nn) == m2);
            assert(cap_at(qs * 3, nn) == m3);
            assert(nn == end - start);
            assert(nn <= pow4(h as nat));
            assert(nn <= 4 * qs);
            assert(qs * 4 == 4 * qs) by (nonlinear_arith);
            assert(nn <= qs * 4);
            assert(cap_at(qs * 4, nn) == nn);
        }
        Digest::combine(h, &c0, &c1, &c2, &c3)
    }
}

} // verus!
