//! A mock proof wire format: a 32-byte program commitment, one validity
//! byte, and a variable-length opaque output log.

use vstd::prelude::*;

verus! {

/// A mock commitment to a particular zkVM program.
#[derive(Debug, Clone, PartialEq, Eq)]
pub struct MockCodeCommitment(pub [u8; 32]);

impl View for MockCodeCommitment {
    type V = Seq<u8>;

    open spec fn view(&self) -> Seq<u8> {
        self.0@
    }
}

impl MockCodeCommitment {
    /// Whether two commitments denote the same program: byte equality.
    pub fn matches(&self, other: &MockCodeCommitment) -> (r: bool)
        ensures
            r == (self@ == other@),
    {
        let mut i: usize = 0;
        while i < 32
            invariant
                i <= 32,
                forall|j: int| 0 <= j < i ==> self.0@[j] == other.0@[j],
            decreases 32 - i,
        {
            if self.0[i] != other.0[i] {
                return false;
            }
            i += 1;
        }
        proof {
            assert(self@ =~= other@);
        }
        true
    }
}

/// Why a serialized proof was rejected.
#[derive(Debug, Clone, Copy, PartialEq, Eq, Structural)]
pub enum ProofError {
    /// The input is shorter than the fixed 33-byte header.
    TooShort,
    /// The proof's program commitment differs from the requested one.
    CommitmentMismatch,
    /// The proof's validity flag is not set.
    NotValid,
}

/// A mock proof generated by a zkVM.
#[derive(Debug, Clone, PartialEq, Eq)]
pub struct MockProof<'a> {
    /// The ID of the program this proof might be valid for.
    pub program_id: MockCodeCommitment,
    /// Whether the proof is valid.
    pub is_valid: bool,
    /// The tamper-proof outputs of the proof.
    pub log: &'a [u8],
}

/// The byte encoding of a proof: program id, then the validity byte
/// (1 for valid, 0 otherwise), then the log.
pub open spec fn spec_encode_proof(program_id: Seq<u8>, is_valid: bool, log: Seq<u8>) -> Seq<u8> {
    program_id + seq![if is_valid { 1u8 } else { 0u8 }] + log
}

impl<'a> MockProof<'a> {
    /// Serializes a proof by appending its encoding to a byte buffer.
    pub fn encode(&self, writer: &mut Vec<u8>)
        ensures
            final(writer)@ == old(writer)@ + spec_encode_proof(self.program_id@, self.is_valid, self.log@),
    {
        let ghost start = writer@;
        let mut i: usize = 0;
        while i < 32
            invariant
                i <= 32,
                writer@ == start + self.program_id@.subrange(0, i as int),
            decreases 32 - i,
        {
            writer.push(self.program_id.0[i]);
            proof {
                assert(start + self.program_id@.subrange(0, i + 1)
                    =~= (start + self.program_id@.subrange(0, i as int)).push(self.program_id@[i as int]));
            }
            i += 1;
        }
        proof {
            assert(self.program_id@.subrange(0, 32) =~= self.program_id@);
        }
        let is_valid_byte: u8 = if self.is_valid { 1 } else { 0 };
        writer.push(is_valid_byte);
        let ghost mid = writer@;
        let mut j: usize = 0;
        while j < self.log.len()
            invariant
                j <= self.log@.len(),
                writer@ == mid + self.log@.subrange(0, j as int),
            decreases self.log@.len() - j,
        {
            writer.push(self.log[j]);
            proof {
                assert(mid + self.log@.subrange(0, j + 1)
                    =~= (mid + self.log@.subrange(0, j as int)).push(self.log@[j as int]));
            }
            j += 1;
        }
        proof {
            assert(self.log@.subrange(0, self.log@.len() as int) =~= self.log@);
            assert(start + self.program_id@ + seq![is_valid_byte] + self.log@
                =~= mid + self.log@);
            assert(final(writer)@ == old(writer)@ + spec_encode_proof(self.program_id@, self.is_valid, self.log@));
        }
    }

    /// Serializes a proof into a fresh vector.
    pub fn encode_to_vec(&self) -> (r: Vec<u8>)
        ensures
            r@ == spec_encode_proof(self.program_id@, self.is_valid, self.log@),
    {
        let mut encoded: Vec<u8> = Vec::new();
        self.encode(&mut encoded);
        proof {
            assert(Seq::<u8>::empty() + spec_encode_proof(self.program_id@, self.is_valid, self.log@)
                =~= spec_encode_proof(self.program_id@, self.is_valid, self.log@));
        }
        encoded
    }

    /// Tries to deserialize a proof from a byte slice. Succeeds exactly when
    /// the input holds at least the 33-byte header; the remainder is the log.
    pub fn decode(input: &'a [u8]) -> (r: Result<MockProof<'a>, ProofError>)
        ensures
            input@.len() < 33 ==> r == Err::<MockProof<'a>, ProofError>(ProofError::TooShort),
            input@.len() >= 33 ==> (r matches Ok(p)
                && p.program_id@ == input@.subrange(0, 32)
                && p.is_valid == (input@[32] == 1)
                && p.log@ == input@.subrange(33, input@.len() as int)),
    {
        if input.len() < 33 {
            return Err(ProofError::TooShort);
        }
        let mut id_bytes: [u8; 32] = [0u8; 32];
        let mut i: usize = 0;
        while i < 32
            invariant
                i <= 32,
                input@.len() >= 33,
                forall|j: int| 0 <= j < i ==> id_bytes@[j] == input@[j],
            decreases 32 - i,
        {
            id_bytes[i] = input[i];
            i += 1;
        }
        proof {
            assert(id_bytes@ =~= input@.subrange(0, 32));
        }
        let program_id = MockCodeCommitment(id_bytes);
        let is_valid = input[32] == 1;
        let log = slice_drop(input, 33);
        Ok(MockProof { program_id, is_valid, log })
    }
}

/// The suffix of a slice from a given start index.
fn slice_drop<'a>(s: &'a [u8], start: usize) -> (r: &'a [u8])
    requires
        start <= s@.len(),
    ensures
        r@ == s@.subrange(start as int, s@.len() as int),
{
    vstd::slice::slice_subrange(s, start, s.len())
}

/// Verifies a serialized proof against a code commitment, returning the
/// proof's log on success. Succeeds exactly when the input decodes, its
/// commitment matches, and its validity flag is set.
pub fn verify_proof<'a>(
    serialized_proof: &'a [u8],
    code_commitment: &MockCodeCommitment,
) -> (r: Result<&'a [u8], ProofError>)
    ensures
        serialized_proof@.len() < 33 ==> r == Err::<&'a [u8], ProofError>(ProofError::TooShort),
        serialized_proof@.len() >= 33 && serialized_proof@.subrange(0, 32) != code_commitment@
            ==> r == Err::<&'a [u8], ProofError>(ProofError::CommitmentMismatch),
        serialized_proof@.len() >= 33 && serialized_proof@.subrange(0, 32) == code_commitment@
            && serialized_proof@[32] != 1
            ==> r == Err::<&'a [u8], ProofError>(ProofError::NotValid),
        serialized_proof@.len() >= 33 && serialized_proof@.subrange(0, 32) == code_commitment@
            && serialized_proof@[32] == 1
            ==> (r matches Ok(log)
                && log@ == serialized_proof@.subrange(33, serialized_proof@.len() as int)),
{
    let proof = match MockProof::decode(serialized_proof) {
        Ok(p) => p,
        Err(e) => {
            return Err(e);
        },
    };
    if !proof.program_id.matches(code_commitment) {
        return Err(ProofError::CommitmentMismatch);
    }
    if !proof.is_valid {
        return Err(ProofError::NotValid);
    }
    Ok(proof.log)
}

/// Encoding then decoding a proof yields the proof back: the header is
/// fixed-width, so the log's boundary is recovered exactly.
pub proof fn lemma_proof_round_trip(program_id: Seq<u8>, is_valid: bool, log: Seq<u8>)
    requires
        program_id.len() == 32,
    ensures
        spec_encode_proof(program_id, is_valid, log).len() == 33 + log.len(),
        spec_encode_proof(program_id, is_valid, log).subrange(0, 32) == program_id,
        (spec_encode_proof(program_id, is_valid, log)[32] == 1) == is_valid,
        spec_encode_proof(program_id, is_valid, log).subrange(
            33,
            spec_encode_proof(program_id, is_valid, log).len() as int,
        ) == log,
{
    let e = spec_encode_proof(program_id, is_valid, log);
    assert(e.subrange(0, 32) =~= program_id);
    assert(e.subrange(33, e.len() as int) =~= log);
}

} // verus!
