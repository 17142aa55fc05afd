use rand_core::OsRng;
use tct::ka::{Error, Public, Secret};

#[test]
fn shared_secret_agreement() {
    let alice = Secret::new(OsRng);
    let bob = Secret::new(OsRng);
    let alice_public = alice.public();
    let bob_public = bob.public();
    let s1 = alice.key_agreement_with(&bob_public).unwrap();
    let s2 = bob.key_agreement_with(&alice_public).unwrap();
    assert_eq!(s1, s2);
}

#[test]
fn invalid_public_key_rejected() {
    let alice = Secret::new(OsRng);
    // All-ones bytes are not the canonical encoding of any group element.
    let bogus = Public([0xffu8; 32]);
    match alice.key_agreement_with(&bogus) {
        Err(Error::InvalidPublic(p)) => assert_eq!(p.0, bogus.0),
        other => panic!("expected InvalidPublic, got {:?}", other.map(|_| ())),
    }
}

#[test]
fn public_key_slice_length() {
    let alice = Secret::new(OsRng);
    let pk = alice.public();
    let restored = Public::try_from_slice(&pk.0[..]).unwrap();
    assert_eq!(restored.0, pk.0);
    match Public::try_from_slice(&pk.0[..31]) {
        Err(Error::SliceLenError) => {},
        other => panic!("expected SliceLenError, got {:?}", other.map(|p| p.0)),
    }
}
