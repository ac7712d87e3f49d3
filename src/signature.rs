use vstd::prelude::*;

use ed25519_dalek::{Keypair, PublicKey, Signer, Verifier};

use crate::bytes::copy_bytes;
use crate::hash::{address_of, Address};

verus! {

/// ed25519_dalek's Keypair, carried through opaquely to the signing calls below.
#[verifier::external_type_specification]
#[verifier::external_body]
pub struct ExKeypair(Keypair);

/// Whether `signature` is a valid Ed25519 signature of `message` under `public_key`.
pub uninterp spec fn ed25519_valid(public_key: Seq<u8>, message: Seq<u8>, signature: Seq<u8>) -> bool;

/// Relies on ed25519_dalek's PublicKey::from_bytes, Signature::from_bytes and
/// Verifier::verify: true exactly when both parse and the signature checks out; the key
/// parses only from 32 bytes, the signature only from 64.
#[verifier::external_body]
fn ed25519_verify(public_key: &Vec<u8>, message: &Vec<u8>, signature: &Vec<u8>) -> (r: bool)
    ensures
        r == ed25519_valid(public_key@, message@, signature@),
        r ==> public_key@.len() == 32 && signature@.len() == 64,
{
    match (PublicKey::from_bytes(public_key), ed25519_dalek::Signature::from_bytes(signature)) {
        (Ok(k), Ok(s)) => k.verify(message, &s).is_ok(),
        _ => false,
    }
}

/// The bytes of the public half of a key pair.
pub uninterp spec fn keypair_public_of(keypair: Keypair) -> Seq<u8>;

/// Relies on ed25519_dalek's Keypair::public and PublicKey::to_bytes: the 32 bytes of the
/// public half of a key pair, which depend on the key pair alone.
#[verifier::external_body]
pub(crate) fn keypair_public_bytes(keypair: &Keypair) -> (r: Vec<u8>)
    ensures
        r@ == keypair_public_of(*keypair),
        r@.len() == 32,
{
    keypair.public.to_bytes().to_vec()
}

/// The Ed25519 signature a key pair makes of a message; signing is deterministic.
pub uninterp spec fn ed25519_signature_of(keypair: Keypair, message: Seq<u8>) -> Seq<u8>;

/// Relies on ed25519_dalek's Signer::sign for Keypair: the 64-byte signature of `message`,
/// which depends on the key pair and the message alone.
#[verifier::external_body]
pub(crate) fn keypair_sign(keypair: &Keypair, message: &Vec<u8>) -> (r: Vec<u8>)
    ensures
        r@ == ed25519_signature_of(*keypair, message@),
        r@.len() == 64,
{
    keypair.sign(message).to_bytes().to_vec()
}

impl Address {
    /// The address of a key pair's public key.
    pub fn from_key_pair(keypair: &Keypair) -> (r: Address)
        ensures
            r@ == address_of(keypair_public_of(*keypair)),
    {
        let public_key = keypair_public_bytes(keypair);
        Address::from_public_key(&public_key)
    }
}

/// A public key together with a signature made with its secret half.
pub struct Signature {
    pub public_key_bytes: Vec<u8>,
    pub signature_bytes: Vec<u8>,
}

impl Signature {
    /// Whether this signature verifies `message`.
    pub open spec fn valid_for(&self, message: Seq<u8>) -> bool {
        ed25519_valid(self.public_key_bytes@, message, self.signature_bytes@)
    }

    pub fn verify(&self, message: &Vec<u8>) -> (r: bool)
        ensures
            r == self.valid_for(message@),
    {
        ed25519_verify(&self.public_key_bytes, message, &self.signature_bytes)
    }

    pub fn copy(&self) -> (r: Signature)
        ensures
            r.public_key_bytes@ == self.public_key_bytes@,
            r.signature_bytes@ == self.signature_bytes@,
    {
        Signature {
            public_key_bytes: copy_bytes(&self.public_key_bytes),
            signature_bytes: copy_bytes(&self.signature_bytes),
        }
    }
}

} // verus!
