use sha3::{Digest, Sha3_256};
use stark_fri::errors::StreamError;
use stark_fri::proof_stream::ProofStream;

#[test]
fn pull_returns_objects_in_push_order() {
    let mut ps = ProofStream::new();
    ps.push(vec![1, 2, 3]);
    ps.push(vec![]);
    ps.push(vec![9]);
    assert_eq!(ps.len(), 3);
    assert_eq!(ps.pull().unwrap(), vec![1, 2, 3]);
    assert_eq!(ps.pull().unwrap(), Vec::<u8>::new());
    assert_eq!(ps.pull().unwrap(), vec![9]);
    assert_eq!(ps.pull(), Err(StreamError::TranscriptExhausted));
}

#[test]
fn exhausted_stream_keeps_failing() {
    let mut ps = ProofStream::new();
    assert_eq!(ps.pull(), Err(StreamError::TranscriptExhausted));
    ps.push(vec![5]);
    assert_eq!(ps.pull().unwrap(), vec![5]);
    assert_eq!(ps.pull(), Err(StreamError::TranscriptExhausted));
    assert_eq!(ps.pull(), Err(StreamError::TranscriptExhausted));
}

#[test]
fn fiat_shamir_agrees_for_every_prefix() {
    let objects: Vec<Vec<u8>> = vec![vec![1], vec![2, 2], vec![3, 3, 3], vec![]];
    // the verifier holds the whole transcript and reads it object by object
    let mut verifier = ProofStream::new();
    for o in objects.iter() {
        verifier.push(o.clone());
    }
    for k in 0..=objects.len() {
        // a prover that has pushed exactly the first k objects
        let mut prover = ProofStream::new();
        for o in objects.iter().take(k) {
            prover.push(o.clone());
        }
        assert_eq!(prover.prover_fiat_shamir(), verifier.verifier_fiat_shamir());
        if k < objects.len() {
            verifier.pull().unwrap();
        }
    }
}

#[test]
fn challenges_are_sensitive_to_the_log() {
    let mut a = ProofStream::new();
    let mut b = ProofStream::new();
    a.push(vec![1]);
    b.push(vec![2]);
    assert_ne!(a.prover_fiat_shamir(), b.prover_fiat_shamir());
    let before = a.prover_fiat_shamir();
    a.push(vec![7]);
    assert_ne!(before, a.prover_fiat_shamir());
}

#[test]
fn prover_challenge_matches_direct_serialization() {
    // each object is serialized as its 8-byte little-endian length, then its
    // bytes, and the challenge is the sha3-256 digest of the whole log
    let mut ps = ProofStream::new();
    ps.push(vec![10, 20]);
    ps.push(vec![30]);
    let mut material: Vec<u8> = Vec::new();
    material.extend_from_slice(&2u64.to_le_bytes());
    material.extend_from_slice(&[10, 20]);
    material.extend_from_slice(&1u64.to_le_bytes());
    material.extend_from_slice(&[30]);
    let direct: Vec<u8> = Sha3_256::digest(&material).to_vec();
    assert_eq!(ps.prover_fiat_shamir(), direct);
    assert_eq!(ps.prover_fiat_shamir().len(), 32);
}

#[test]
fn verifier_challenge_tracks_the_read_cursor() {
    let mut ps = ProofStream::new();
    ps.push(vec![1]);
    ps.push(vec![2]);
    let empty_prefix = ps.verifier_fiat_shamir();
    let direct_empty: Vec<u8> = Sha3_256::digest(Vec::<u8>::new()).to_vec();
    assert_eq!(empty_prefix, direct_empty);
    ps.pull().unwrap();
    assert_ne!(ps.verifier_fiat_shamir(), empty_prefix);
    assert_eq!(ps.read_index(), 1);
}
