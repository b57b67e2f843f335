use state_store::mock_proof::MockCodeCommitment;
use state_store::mock_proof::MockProof;
use state_store::mock_proof::ProofError;
use state_store::mock_proof::verify_proof;

#[test]
fn test_mock_proof_round_trip() {
    let proof = MockProof {
        program_id: MockCodeCommitment([1; 32]),
        is_valid: true,
        log: &[2; 50],
    };

    let mut encoded = Vec::new();
    proof.encode(&mut encoded);

    let decoded = MockProof::decode(&encoded).unwrap();
    assert_eq!(proof, decoded);
}

#[test]
fn encode_to_vec_layout() {
    let proof = MockProof {
        program_id: MockCodeCommitment([7; 32]),
        is_valid: false,
        log: &[9, 8],
    };
    let encoded = proof.encode_to_vec();
    assert_eq!(encoded.len(), 35);
    assert_eq!(&encoded[0..32], &[7; 32]);
    assert_eq!(encoded[32], 0);
    assert_eq!(&encoded[33..], &[9, 8]);
}

#[test]
fn decode_rejects_short_input() {
    let short = [5u8; 32];
    assert_eq!(MockProof::decode(&short), Err(ProofError::TooShort));
    assert_eq!(MockProof::decode(&[]), Err(ProofError::TooShort));
}

#[test]
fn decode_minimal_proof() {
    let mut input = vec![3u8; 32];
    input.push(1);
    let decoded = MockProof::decode(&input).unwrap();
    assert_eq!(decoded.program_id, MockCodeCommitment([3; 32]));
    assert!(decoded.is_valid);
    assert!(decoded.log.is_empty());
}

#[test]
fn decode_treats_other_flag_bytes_as_invalid() {
    let mut input = vec![3u8; 32];
    input.push(2);
    input.push(42);
    let decoded = MockProof::decode(&input).unwrap();
    assert!(!decoded.is_valid);
    assert_eq!(decoded.log, &[42]);
}

#[test]
fn commitment_matches_itself_only() {
    let a = MockCodeCommitment([1; 32]);
    let b = MockCodeCommitment([1; 32]);
    let mut c_bytes = [1u8; 32];
    c_bytes[31] = 2;
    let c = MockCodeCommitment(c_bytes);
    assert!(a.matches(&b));
    assert!(!a.matches(&c));
}

#[test]
fn verify_proof_returns_log() {
    let proof = MockProof {
        program_id: MockCodeCommitment([4; 32]),
        is_valid: true,
        log: &[10, 20, 30],
    };
    let encoded = proof.encode_to_vec();
    let log = verify_proof(&encoded, &MockCodeCommitment([4; 32])).unwrap();
    assert_eq!(log, &[10, 20, 30]);
}

#[test]
fn verify_proof_rejects_wrong_commitment() {
    let proof = MockProof {
        program_id: MockCodeCommitment([4; 32]),
        is_valid: true,
        log: &[],
    };
    let encoded = proof.encode_to_vec();
    assert_eq!(
        verify_proof(&encoded, &MockCodeCommitment([5; 32])),
        Err(ProofError::CommitmentMismatch)
    );
}

#[test]
fn verify_proof_rejects_invalid_proof() {
    let proof = MockProof {
        program_id: MockCodeCommitment([4; 32]),
        is_valid: false,
        log: &[1],
    };
    let encoded = proof.encode_to_vec();
    assert_eq!(
        verify_proof(&encoded, &MockCodeCommitment([4; 32])),
        Err(ProofError::NotValid)
    );
}

#[test]
fn verify_proof_rejects_short_input() {
    assert_eq!(
        verify_proof(&[0u8; 10], &MockCodeCommitment([0; 32])),
        Err(ProofError::TooShort)
    );
}
