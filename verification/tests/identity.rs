use c0mpute::identity::{load_identity, IdentityStep};

#[test]
fn generate_and_reload_yields_same_peer_id() {
    let (kp1, encoded) = match load_identity(None) {
        IdentityStep::Generated { keypair, encoded } => (keypair, encoded),
        _ => panic!("expected a fresh identity"),
    };
    let kp2 = match load_identity(Some(encoded)) {
        IdentityStep::Loaded(kp) => kp,
        _ => panic!("expected the stored identity to load"),
    };
    assert_eq!(kp1.public().to_peer_id(), kp2.public().to_peer_id());
}

#[test]
fn garbage_key_file_is_refused() {
    assert!(matches!(load_identity(Some(vec![1, 2, 3])), IdentityStep::DecodeFailed));
}

#[test]
fn fresh_identities_differ() {
    let a = match load_identity(None) {
        IdentityStep::Generated { keypair, .. } => keypair,
        _ => panic!(),
    };
    let b = match load_identity(None) {
        IdentityStep::Generated { keypair, .. } => keypair,
        _ => panic!(),
    };
    assert_ne!(a.public().to_peer_id(), b.public().to_peer_id());
}

#[test]
fn reloaded_identity_encodes_as_stored() {
    let encoded = match load_identity(None) {
        IdentityStep::Generated { encoded, .. } => encoded,
        _ => panic!("expected a fresh identity"),
    };
    let reloaded = match load_identity(Some(encoded.clone())) {
        IdentityStep::Loaded(kp) => kp,
        _ => panic!("expected the stored identity to load"),
    };
    assert_eq!(reloaded.to_protobuf_encoding().unwrap(), encoded);
}
