use stark_fri::field::{FieldElement, FIELD_PRIME};
use stark_fri::fri::Fri;
use stark_fri::polynomial::Polynomial;
use stark_fri::proof_stream::ProofStream;

fn poly(coeffs: &[u128]) -> Vec<FieldElement> {
    coeffs.iter().map(|&c| FieldElement::new(c)).collect()
}

fn fri_instance(domain_length: u128, expansion_factor: u128, tests: u128) -> Fri {
    let omega = FieldElement::zero().primitive_nth_root(domain_length);
    let offset = FieldElement::zero().generator();
    Fri::new(offset.value(), omega.value(), domain_length, expansion_factor, tests)
}

fn codeword_of(p: &[u128], fri: &Fri) -> Vec<FieldElement> {
    let domain = fri.eval_domain();
    Polynomial::evaluate_domain(&poly(p), &domain)
}

#[test]
fn num_rounds_follows_the_halving_rule() {
    // 16 halves once: at length 8 the colinearity-test room is exhausted
    let fri = fri_instance(16, 2, 2);
    assert_eq!(fri.num_rounds(), 1);
    // one test keeps halving until the length reaches four
    let fri2 = fri_instance(16, 2, 1);
    assert_eq!(fri2.num_rounds(), 2);
    // a large expansion factor stops folding immediately
    let fri3 = fri_instance(16, 16, 1);
    assert_eq!(fri3.num_rounds(), 0);
}

#[test]
fn eval_domain_is_the_offset_coset() {
    let fri = fri_instance(16, 2, 2);
    let domain = fri.eval_domain();
    assert_eq!(domain.len(), 16);
    let offset = FieldElement::new(fri.offset);
    let omega = FieldElement::new(fri.omega);
    assert_eq!(domain[0].value(), fri.offset);
    assert_eq!(domain[3].value(), offset.mul(omega.pow(3)).value());
    // omega generates the order-16 subgroup, so the domain points differ
    for i in 0..16 {
        for j in 0..i {
            assert_ne!(domain[i].value(), domain[j].value());
        }
    }
}

#[test]
fn degree_one_codeword_proves_and_verifies() {
    let fri = fri_instance(16, 2, 2);
    let codeword = codeword_of(&[5, 3], &fri);
    let mut ps = ProofStream::new();
    let indices = fri.prove(codeword, &mut ps);
    assert_eq!(indices.len(), 2);
    // one committed round: one Merkle root, then the codeword in the clear
    assert_eq!(ps.len(), 2);
    assert!(fri.verify(&mut ps));
}

#[test]
fn folding_rounds_prove_and_verify() {
    // 64 halves twice under four tests: 64 -> 32 -> 16
    let fri = fri_instance(64, 4, 4);
    assert_eq!(fri.num_rounds(), 2);
    let codeword = codeword_of(&[1, 2, 3, 4, 5, 6, 7, 8, 9, 10], &fri);
    let mut ps = ProofStream::new();
    let indices = fri.prove(codeword, &mut ps);
    assert_eq!(indices.len(), 4);
    // two roots, the clear codeword, then four objects per spot check
    assert_eq!(ps.len(), 3 + 4 * indices.len());
    assert!(fri.verify(&mut ps));
}

#[test]
fn corrupted_codeword_is_rejected() {
    let fri = fri_instance(64, 4, 4);
    let mut codeword = codeword_of(&[1, 2, 3, 4, 5, 6, 7, 8, 9, 10], &fri);
    // one corrupted position pushes the folded codeword out of low degree
    codeword[17] = codeword[17].add(FieldElement::one());
    let mut ps = ProofStream::new();
    fri.prove(codeword, &mut ps);
    assert!(!fri.verify(&mut ps));
}

#[test]
fn high_degree_codeword_is_rejected() {
    let fri = fri_instance(16, 4, 1);
    // degree 14 exceeds the bound 16/4 - 1 = 3
    let coeffs: Vec<u128> = (1..=15).collect();
    let codeword = codeword_of(&coeffs, &fri);
    let mut ps = ProofStream::new();
    fri.prove(codeword, &mut ps);
    assert!(!fri.verify(&mut ps));
}

#[test]
fn truncated_proof_is_rejected() {
    let fri = fri_instance(16, 2, 2);
    let codeword = codeword_of(&[5, 3], &fri);
    let mut ps = ProofStream::new();
    fri.prove(codeword, &mut ps);
    // a verifier that pulls the whole proof first leaves nothing to read
    while ps.pull().is_ok() {}
    assert!(!fri.verify(&mut ps));
}

#[test]
fn tampered_transcript_is_rejected() {
    let fri = fri_instance(64, 4, 4);
    let codeword = codeword_of(&[1, 2, 3], &fri);
    let mut honest = ProofStream::new();
    fri.prove(codeword, &mut honest);
    // rebuild the transcript with one byte of the first root flipped
    let mut tampered = ProofStream::new();
    let mut first = honest.pull().unwrap();
    first[0] ^= 1;
    tampered.push(first);
    while let Ok(obj) = honest.pull() {
        tampered.push(obj);
    }
    assert!(!fri.verify(&mut tampered));
}

#[test]
fn sample_indices_are_in_range_and_distinct() {
    let seed = vec![42u8; 32];
    let indices = Fri::sample_indices(&seed, 32, 8, 6);
    assert_eq!(indices.len(), 6);
    for (i, a) in indices.iter().enumerate() {
        assert!(*a < 32);
        for b in indices.iter().skip(i + 1) {
            assert_ne!(a % 8, b % 8);
        }
    }
    // the derivation is a function of the seed alone
    let again = Fri::sample_indices(&seed, 32, 8, 6);
    assert_eq!(indices, again);
    let other = Fri::sample_indices(&vec![43u8; 32], 32, 8, 6);
    assert_eq!(other.len(), 6);
    assert_ne!(indices, other);
}

#[test]
fn fold_halves_and_keeps_low_degree() {
    // folding a degree-1 codeword gives a degree-0 codeword over the
    // squared domain: all the checks of a full round pass
    let fri = fri_instance(16, 2, 1);
    assert_eq!(fri.num_rounds(), 2);
    let codeword = codeword_of(&[5, 3], &fri);
    let mut ps = ProofStream::new();
    fri.prove(codeword, &mut ps);
    assert!(fri.verify(&mut ps));
}

#[test]
fn prover_requires_matching_codeword_length() {
    // the instance ties the codeword to the domain, and the domain points
    // live in the field
    let fri = fri_instance(16, 2, 2);
    assert_eq!(fri.domain_length, 16);
    assert!(fri.offset < FIELD_PRIME);
    assert!(fri.omega < FIELD_PRIME);
    let codeword = codeword_of(&[5, 3], &fri);
    assert_eq!(codeword.len(), 16);
}
