use vstd::prelude::*;
use vstd::string::{is_ascii, is_ascii_spec_bytes};
use vstd::utf8::encode_utf8;

use ed25519_dalek::Keypair;

use crate::bytes::{append_len_prefixed, len_prefixed};
use crate::hash::{ascii_string, blake3_of, hex_bytes, hex_of};
use crate::signature::{
    ed25519_signature_of, keypair_public_bytes, keypair_public_of, keypair_sign, Signature,
};
use crate::transaction::encode_bool;

verus! {

/// The bytes a vote is signed over: its target and its position, never its signature.
pub open spec fn vote_preimage(target: Seq<u8>, in_favor: bool) -> Seq<u8> {
    len_prefixed(target) + encode_bool(in_favor)
}

/// The text of a vote, as ASCII bytes.
pub open spec fn vote_text(in_favor: bool, target: Seq<u8>) -> Seq<u8> {
    if in_favor {
        encode_utf8("in favor of proposal "@) + hex_of(target)
    } else {
        encode_utf8("in opposition to proposal "@) + hex_of(target)
    } 
}

/// Appends the bytes of an ASCII string.
fn push_ascii(out: &mut Vec<u8>, s: &str)
    requires
        is_ascii(s),
    ensures
        final(out)@ == old(out)@ + encode_utf8(s@),
        forall|i: int| 0 <= i < encode_utf8(s@).len() ==> encode_utf8(s@)[i] < 128,
{
    proof {
        is_ascii_spec_bytes(s);
    }
    let b = s.as_bytes();
    let mut i: usize = 0;
    while i < b.len()
        invariant
            i <= b@.len(),
            b@ == encode_utf8(s@),
            forall|j: int| 0 <= j < b@.len() ==> b@[j] < 128,
            out@ == old(out)@ + b@.take(i as int),
        decreases b@.len() - i,
    {
        out.push(b[i]);
        assert(b@.take(i + 1) =~= b@.take(i as int).push(b@[i as int]));
        i = i + 1;
    }
    assert(b@.take(i as int) =~= b@);
}

/// A vote for or against a proposal.
pub struct Vote {
    pub target_proposal: crate::hash::Hash,
    pub in_favor: bool,
    pub signature: Option<Signature>,
}

impl Vote {
    /// A vote signed with `signature_keypair` over its target and position.
    pub fn new(proposal_id: crate::hash::Hash, in_favor: bool, signature_keypair: Keypair) -> (r: Vote)
        ensures
            r.target_proposal@ == proposal_id@,
            r.in_favor == in_favor,
            r.signature is Some,
            r.signature->0.public_key_bytes@ == keypair_public_of(signature_keypair),
            r.signature->0.signature_bytes@ == ed25519_signature_of(
                signature_keypair,
                blake3_of(vote_preimage(proposal_id@, in_favor)),
            ),
    {
        let mut vote = Vote { target_proposal: proposal_id, in_favor, signature: None };
        let digest = vote.hash();
        let public_key_bytes = keypair_public_bytes(&signature_keypair);
        let signature_bytes = keypair_sign(&signature_keypair, &digest.bytes);
        vote.signature = Some(Signature { public_key_bytes, signature_bytes });
        vote
    }

    /// The digest a vote is signed over; the signature does not enter it.
    pub fn hash(&self) -> (r: crate::hash::Hash)
        ensures
            r@ == blake3_of(vote_preimage(self.target_proposal@, self.in_favor)),
    {
        let mut bytes: Vec<u8> = Vec::new();
        append_len_prefixed(&mut bytes, &self.target_proposal.bytes);
        if self.in_favor {
            bytes.push(1u8);
        } else {
            bytes.push(0u8);
        }
        assert(bytes@ =~= vote_preimage(self.target_proposal@, self.in_favor));
        crate::hash::Hash::of(&bytes)
    }

    /// Whether the vote carries a signature that verifies its digest.
    pub fn valid(&self) -> (r: bool)
        ensures
            r == match self.signature {
                None => false,
                Some(s) => s.valid_for(blake3_of(vote_preimage(self.target_proposal@, self.in_favor))),
            },
    {
        match &self.signature {
            None => false,
            Some(signature) => {
                let digest = self.hash();
                signature.verify(&digest.bytes)
            },
        }
    }

    /// The vote as text: "in favor of proposal <id>" or "in opposition to proposal <id>",
    /// the identifier in lowercase hexadecimal.
    pub fn to_str(&self) -> (r: String)
        ensures
            r@ == vote_text(self.in_favor, self.target_proposal@).map_values(|c: u8| c as char),
    {
        let mut text: Vec<u8> = Vec::new();
        if self.in_favor {
            proof {
                reveal_strlit("in favor of proposal ");
                assert(is_ascii("in favor of proposal "));
            }
            push_ascii(&mut text, "in favor of proposal ");
        } else {
            proof {
                reveal_strlit("in opposition to proposal ");
                assert(is_ascii("in opposition to proposal "));
            }
            push_ascii(&mut text, "in opposition to proposal ");
        }
        let hex = hex_bytes(&self.target_proposal.bytes);
        crate::bytes::append_bytes(&mut text, &hex);
        proof {
            assert forall|i: int| 0 <= i < text@.len() implies text@[i] < 128 by {
                let prefix_len = text@.len() - hex@.len();
                if i >= prefix_len {
                    assert(text@[i] == hex@[i - prefix_len]);
                }
            }
        }
        ascii_string(text)
    }
}

} // verus!
