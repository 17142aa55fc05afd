use tct::{Block, Commitment, Digest, Eternity, InsertError, Tier, Witness, WitnessError, decode,
    serialize, verify};

fn commitment(i: u8) -> Commitment {
    let mut bytes = [0u8; 32];
    bytes[0] = i;
    Commitment::from_bytes(bytes).unwrap()
}

fn leaf_digest(c: &Commitment) -> Digest {
    Digest::from_bytes_unchecked(c.to_bytes())
}

fn node_of(h: u8, leaves: &[Digest]) -> Digest {
    if leaves.is_empty() {
        Digest::empty()
    } else if h == 0 {
        leaves[0]
    } else {
        let q = 4usize.pow((h - 1) as u32);
        let m1 = q.min(leaves.len());
        let m2 = (2 * q).min(leaves.len());
        let m3 = (3 * q).min(leaves.len());
        let c0 = node_of(h - 1, &leaves[0..m1]);
        let c1 = node_of(h - 1, &leaves[m1..m2]);
        let c2 = node_of(h - 1, &leaves[m2..m3]);
        let c3 = node_of(h - 1, &leaves[m3..]);
        Digest::combine(h, &c0, &c1, &c2, &c3)
    }
}

/// The eight-level tier hash over a slice of leaf fingerprints, recomputed
/// independently of the library's own traversal.
fn tier_root_of(leaves: &[Digest]) -> Digest {
    node_of(8, leaves)
}

fn eternity_root_of(epochs: &[Vec<Vec<Digest>>]) -> Digest {
    let mut epoch_roots = Vec::new();
    for blocks in epochs {
        let block_roots: Vec<Digest> = blocks.iter().map(|b| tier_root_of(b)).collect();
        epoch_roots.push(tier_root_of(&block_roots));
    }
    tier_root_of(&epoch_roots)
}

#[test]
fn concrete_block_of_four() {
    let mut tree = Eternity::new();
    let cs: Vec<Commitment> = (0..4).map(commitment).collect();
    let mut positions = Vec::new();
    for c in &cs {
        positions.push(tree.insert(c, Witness::Keep).unwrap());
    }
    let ds: Vec<Digest> = cs.iter().map(leaf_digest).collect();

    // The block root starts from combine(1, [H(c0), H(c1), H(c2), H(c3)]) and
    // pads the remaining seven levels with the empty sentinel.
    let e = Digest::empty();
    let mut level = Digest::combine(1, &ds[0], &ds[1], &ds[2], &ds[3]);
    for h in 2..=8 {
        level = Digest::combine(h, &level, &e, &e, &e);
    }
    let block_root = level;
    // One block in one epoch: each upper tier holds a single leaf.
    let mut epoch_root = block_root;
    for h in 1..=8 {
        epoch_root = Digest::combine(h, &epoch_root, &e, &e, &e);
    }
    let mut expected = epoch_root;
    for h in 1..=8 {
        expected = Digest::combine(h, &expected, &e, &e, &e);
    }
    let root = tree.root();
    assert_eq!(root.to_bytes(), expected.to_bytes());
    assert_eq!(root.to_bytes(), eternity_root_of(&[vec![ds.clone()]]).to_bytes());

    // Witnessing c2 yields its three block-level siblings in child order.
    let proof = tree.witness(positions[2]).unwrap();
    let (s0, s1, s2) = proof.auth()[0];
    assert_eq!(s0.to_bytes(), ds[0].to_bytes());
    assert_eq!(s1.to_bytes(), ds[1].to_bytes());
    assert_eq!(s2.to_bytes(), ds[3].to_bytes());
    assert!(verify(&proof, &root).is_ok());

    // Forgetting c1 leaves the root unchanged but kills its witness.
    assert!(tree.forget(positions[1]));
    assert_eq!(tree.root().to_bytes(), root.to_bytes());
    assert_eq!(tree.witness(positions[1]), Err(WitnessError::Forgotten));
}

#[test]
fn determinism_and_forget_invariance() {
    let build = |flags: &[Witness]| {
        let mut t = Eternity::new();
        for (i, w) in flags.iter().enumerate() {
            t.insert(&commitment(i as u8), *w).unwrap();
        }
        t
    };
    let keep_all = [Witness::Keep; 9];
    let mixed = [
        Witness::Keep,
        Witness::Forget,
        Witness::Keep,
        Witness::Forget,
        Witness::Forget,
        Witness::Keep,
        Witness::Keep,
        Witness::Forget,
        Witness::Keep,
    ];
    let a = build(&keep_all);
    let b = build(&keep_all);
    let c = build(&mixed);
    // Replaying the identical sequence reproduces the root, and the
    // keep/forget mix does not enter it.
    assert_eq!(a.root().to_bytes(), b.root().to_bytes());
    assert_eq!(a.root().to_bytes(), c.root().to_bytes());

    // Forgetting kept leaves never moves the root.
    let mut d = build(&keep_all);
    let before = d.root();
    for i in 0..9u64 {
        assert!(d.forget(tct::Position(i)));
        assert_eq!(d.root().to_bytes(), before.to_bytes());
    }
    // A second forget of the same position is a no-op.
    assert!(!d.forget(tct::Position(3)));
}

#[test]
fn witness_verify_across_tiers() {
    let mut tree = Eternity::new();
    let mut positions = Vec::new();
    for i in 0..5 {
        positions.push(tree.insert(&commitment(i), Witness::Keep).unwrap());
    }
    tree.end_block().unwrap();
    for i in 5..8 {
        positions.push(tree.insert(&commitment(i), Witness::Keep).unwrap());
    }
    tree.end_block().unwrap();
    tree.end_epoch().unwrap();
    for i in 8..11 {
        positions.push(tree.insert(&commitment(i), Witness::Keep).unwrap());
    }
    let root = tree.root();
    for (i, p) in positions.iter().enumerate() {
        let proof = tree.witness(*p).unwrap();
        assert_eq!(proof.position(), *p);
        assert_eq!(proof.commitment().to_bytes(), commitment(i as u8).to_bytes());
        assert!(verify(&proof, &root).is_ok());
    }
    // A proof fails against the wrong anchor.
    let proof = tree.witness(positions[0]).unwrap();
    let wrong = Digest::empty();
    assert!(verify(&proof, &wrong).is_err());
    // Nothing was ever inserted at this position.
    assert_eq!(tree.witness(tct::Position(99)), Err(WitnessError::Absent));
    // Forgetting removes provability but nothing else.
    assert!(tree.forget(positions[6]));
    assert_eq!(tree.witness(positions[6]), Err(WitnessError::Forgotten));
    assert!(verify(&tree.witness(positions[7]).unwrap(), &tree.root()).is_ok());
}

#[test]
fn capacity_boundary() {
    // A block accepts exactly 4^8 commitments.
    let mut block = Block::new();
    let c = commitment(7);
    for _ in 0..65536 {
        assert!(block.insert(&c, Witness::Forget).is_ok());
    }
    assert_eq!(block.insert(&c, Witness::Keep), Err(InsertError::Full(Tier::Block)));
}

#[test]
fn end_block_makes_room() {
    let mut epoch = tct::Epoch::new();
    let c0 = commitment(1);
    let c1 = commitment(2);
    epoch.insert(&c0, Witness::Keep).unwrap();
    let old_root = epoch.end_block().unwrap();
    assert_eq!(old_root.to_bytes(), tier_root_of(&[leaf_digest(&c0)]).to_bytes());
    // The next insertion opens a second block: the epoch gains exactly one
    // leaf, the sealed block's root.
    let (b, i) = epoch.insert(&c1, Witness::Keep).unwrap();
    assert_eq!((b, i), (1, 0));
    assert_eq!(epoch.block_count(), 2);
    let b0 = tier_root_of(&[leaf_digest(&c0)]);
    let b1 = tier_root_of(&[leaf_digest(&c1)]);
    assert_eq!(epoch.root().to_bytes(), tier_root_of(&[b0, b1]).to_bytes());
}

#[test]
fn check_eternity_proof_size() {
    let mut tree = Eternity::new();
    let p0 = tree.insert(&commitment(1), Witness::Keep).unwrap();
    let bytes = serialize(&tree.witness(p0).unwrap());
    assert_eq!(bytes.len(), 2344);
    // The size is independent of position and fill level.
    for i in 2..6 {
        tree.insert(&commitment(i), Witness::Keep).unwrap();
    }
    tree.end_block().unwrap();
    let p5 = tree.insert(&commitment(9), Witness::Keep).unwrap();
    assert_eq!(serialize(&tree.witness(p5).unwrap()).len(), 2344);
}

#[test]
fn codec_round_trip() {
    let mut tree = Eternity::new();
    let mut positions = Vec::new();
    for i in 0..6 {
        positions.push(tree.insert(&commitment(i), Witness::Keep).unwrap());
    }
    tree.end_block().unwrap();
    positions.push(tree.insert(&commitment(6), Witness::Keep).unwrap());
    for p in &positions {
        let proof = tree.witness(*p).unwrap();
        let bytes = serialize(&proof);
        assert_eq!(decode(&bytes), Ok(proof));
    }
    // Wrong length and out-of-range commitments are rejected at decode time.
    let proof = tree.witness(positions[0]).unwrap();
    let mut bytes = serialize(&proof);
    bytes.push(0);
    assert!(decode(&bytes).is_err());
    let mut short = serialize(&proof);
    short.pop();
    assert!(decode(&short).is_err());
    let mut bad_commitment = serialize(&proof);
    for b in bad_commitment[8..40].iter_mut() {
        *b = 0xff;
    }
    assert!(decode(&bad_commitment).is_err());
}

#[test]
fn tamper_detection() {
    let mut tree = Eternity::new();
    let p = tree.insert(&commitment(3), Witness::Keep).unwrap();
    tree.insert(&commitment(4), Witness::Keep).unwrap();
    let root = tree.root();
    let proof = tree.witness(p).unwrap();
    let bytes = serialize(&proof);
    assert!(verify(&decode(&bytes).unwrap(), &root).is_ok());
    // Flip one bit of each of a spread of sibling bytes: verification fails.
    for &off in &[40usize, 41, 100, 500, 1000, 1500, 2000, 2343] {
        for bit in 0..8 {
            let mut tampered = bytes.clone();
            tampered[off] ^= 1 << bit;
            let reparsed = decode(&tampered).unwrap();
            assert!(verify(&reparsed, &root).is_err());
        }
    }
}
