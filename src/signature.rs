//! Ed25519 signing keys, and signatures and public keys held as bytes.
use vstd::prelude::*;
use ed25519_dalek::{Keypair, PublicKey, Signature, Signer, Verifier};
use rand::rngs::OsRng;

verus! {

#[verifier::external_type_specification]
#[verifier::external_body]
pub struct ExKeypair(Keypair);

/// Whether Ed25519 verification accepts `sig` on `msg` under the public key
/// `pk`, all three given as bytes.
pub uninterp spec fn ed25519_accepts(pk: Seq<u8>, msg: Seq<u8>, sig: Seq<u8>) -> bool;

/// A key pair together with the bytes of its public half. Only
/// `generate_signing_key` builds one, so `pk` is always the encoding of
/// `kp.public`.
pub struct SigningKey {
    kp: Keypair,
    pk: Vec<u8>,
}

impl SigningKey {
    /// The bytes of the public key.
    pub closed spec fn public(&self) -> Seq<u8> {
        self.pk@
    }

    /// The bytes of the public key.
    pub fn public_key_bytes(&self) -> (r: Vec<u8>)
        ensures
            r@ == self.public(),
    {
        let r = self.pk.clone();
        proof {
            assert(r@ =~= self.pk@);
        }
        r
    }
}

/// Relies on ed25519-dalek's `Keypair::generate`, fed from the operating
/// system's generator, and on `PublicKey::to_bytes` for the 32 bytes of its
/// public half.
#[verifier::external_body]
pub(crate) fn generate_signing_key() -> (r: SigningKey)
    ensures
        r.public().len() == 32,
{
    let mut csprng = OsRng {};
    let kp = Keypair::generate(&mut csprng);
    let pk = kp.public.to_bytes().to_vec();
    SigningKey { kp, pk }
}

/// Relies on ed25519-dalek's `Signer::sign` for `Keypair`: a 64-byte
/// signature that `Verifier::verify` accepts under the key pair's own public
/// key (the scheme's correctness), which `verify_signature` reads back from
/// the same bytes.
#[verifier::external_body]
pub(crate) fn sign_message(k: &SigningKey, msg: &Vec<u8>) -> (r: Vec<u8>)
    ensures
        r@.len() == 64,
        ed25519_accepts(k.public(), msg@, r@),
{
    k.kp.sign(msg).to_bytes().to_vec()
}

/// Relies on ed25519-dalek's `Verifier::verify` for `PublicKey`, after
/// `PublicKey::from_bytes` and `Signature::from_bytes`; bytes that do not
/// decode are not accepted.
#[verifier::external_body]
pub(crate) fn verify_signature(pk: &Vec<u8>, msg: &Vec<u8>, sig: &Vec<u8>) -> (r: bool)
    ensures
        r == ed25519_accepts(pk@, msg@, sig@),
{
    match (PublicKey::from_bytes(pk), Signature::from_bytes(sig)) {
        (Ok(key), Ok(s)) => key.verify(msg, &s).is_ok(),
        _ => false,
    }
}

} // verus!
