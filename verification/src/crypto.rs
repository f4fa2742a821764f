//! Key handling, raw signing and verification, and the transaction signing
//! rule: a transaction's signature is computed over its canonical unsigned
//! encoding, so it covers every field except itself.

use vstd::prelude::*;
use ed25519_dalek::Signer;
use crate::codec::{encode_tx_v1_unsigned, tx_unsigned_bytes, CodecError};
use crate::hashing::{blake3_hash32, blake3_of};
use crate::types::{Address, SignatureBytes, TxV1, TxV1View};

verus! {

/// Failures of the signature authority, distinct from a cryptographically
/// invalid signature (which `verify_bytes` reports as a plain `false`).
#[derive(Debug, Clone, Copy, PartialEq, Eq, Structural)]
pub enum CryptoError {
    /// The 32 bytes do not decode as an Ed25519 public key.
    InvalidPublicKey,
    /// Canonical bytes could not be produced for the transaction.
    Codec(CodecError),
}

#[verifier::external_type_specification]
#[verifier::external_body]
pub struct ExVerifyingKey(ed25519_dalek::VerifyingKey);

#[verifier::external_type_specification]
#[verifier::external_body]
pub struct ExSigningKey(ed25519_dalek::SigningKey);

/// Whether 32 bytes decode as an Ed25519 public key: a property of the bytes
/// alone.
pub uninterp spec fn pubkey_parses(pk_bytes: Seq<u8>) -> bool;

/// The public-key bytes derived from a 32-byte signing-key seed.
pub uninterp spec fn ed25519_pubkey_of(seed: Seq<u8>) -> Seq<u8>;

/// The 64 signature bytes produced by signing a message with the key derived
/// from a seed; Ed25519 signing is deterministic.
pub uninterp spec fn ed25519_sign(seed: Seq<u8>, msg: Seq<u8>) -> Seq<u8>;

/// Whether strict verification accepts a signature over a message under a
/// public key: a function of the three byte strings alone.
pub uninterp spec fn ed25519_verifies(pk_bytes: Seq<u8>, msg: Seq<u8>, sig: Seq<u8>) -> bool;

/// A parsed Ed25519 public key, kept together with the 32 bytes it was
/// parsed from; its model is those bytes.
pub struct PubKey {
    vk: ed25519_dalek::VerifyingKey,
    bytes: [u8; 32],
}

impl View for PubKey {
    type V = Seq<u8>;

    closed spec fn view(&self) -> Seq<u8> {
        self.bytes@
    }
}

impl PubKey {
    /// The raw 32 public-key bytes.
    pub fn as_bytes(&self) -> (r: &[u8; 32])
        ensures
            r@ == self@,
    {
        &self.bytes
    }
}

/// An Ed25519 signing key, kept together with the 32-byte seed it was built
/// from; its model is that seed.
pub struct PrivKey {
    sk: ed25519_dalek::SigningKey,
    seed: [u8; 32],
}

impl View for PrivKey {
    type V = Seq<u8>;

    closed spec fn view(&self) -> Seq<u8> {
        self.seed@
    }
}

impl PrivKey {
    /// Relies on ed25519_dalek::SigningKey::from_bytes: any 32-byte seed
    /// yields a signing key, deterministically.
    #[verifier::external_body]
    pub fn from_bytes(seed: &[u8; 32]) -> (r: PrivKey)
        ensures
            r@ == seed@,
    {
        PrivKey { sk: ed25519_dalek::SigningKey::from_bytes(seed), seed: *seed }
    }

    /// Relies on ed25519_dalek::SigningKey::verifying_key: the public key is
    /// a function of the seed alone, and its bytes decode back as a key.
    #[verifier::external_body]
    pub fn verifying_key(&self) -> (r: PubKey)
        ensures
            r@ == ed25519_pubkey_of(self@),
            pubkey_parses(r@),
    {
        let vk = self.sk.verifying_key();
        PubKey { vk, bytes: vk.to_bytes() }
    }
}

/// Relies on ed25519_dalek::VerifyingKey::from_bytes: it succeeds exactly on
/// the 32-byte strings that decode as a curve point, a property of the bytes
/// alone, and the key it returns is determined by them.
#[verifier::external_body]
pub fn pubkey_from_bytes(bytes: &[u8; 32]) -> (r: Result<PubKey, CryptoError>)
    ensures
        match r {
            Ok(pk) => pk@ == bytes@ && pubkey_parses(bytes@),
            Err(e) => e == CryptoError::InvalidPublicKey && !pubkey_parses(bytes@),
        },
{
    match ed25519_dalek::VerifyingKey::from_bytes(bytes) {
        Ok(vk) => Ok(PubKey { vk, bytes: *bytes }),
        Err(_) => Err(CryptoError::InvalidPublicKey),
    }
}

/// Relies on ed25519_dalek's Signer::sign: Ed25519 signing is deterministic
/// in the seed and message, and strict verification under the matching public
/// key accepts what it produces.
#[verifier::external_body]
pub fn sign_bytes(sk: &PrivKey, msg: &[u8]) -> (r: SignatureBytes)
    ensures
        r@ == ed25519_sign(sk@, msg@),
        ed25519_verifies(ed25519_pubkey_of(sk@), msg@, r@),
{
    sk.sk.sign(msg).to_bytes()
}

/// Relies on ed25519_dalek::VerifyingKey::verify_strict: acceptance is a
/// function of the key bytes, the message and the signature bytes alone, and
/// non-canonical signature encodings are rejected.
#[verifier::external_body]
pub fn verify_bytes(pk: &PubKey, msg: &[u8], sig: &SignatureBytes) -> (r: bool)
    ensures
        r == ed25519_verifies(pk@, msg@, sig@),
{
    let sig = ed25519_dalek::Signature::from_bytes(sig);
    pk.vk.verify_strict(msg, &sig).is_ok()
}

/// Derive the canonical 32-byte address of a public key: the BLAKE3 digest of
/// the raw public-key bytes. Deterministic: the same key always maps to the
/// same address.
///
/// Open protocol question: transaction admission (`TxMempool::insert`) reads
/// a transaction's `from` field as the raw public-key bytes, not as this
/// digest. The two readings of "address" are mutually inconsistent; both
/// mappings are provided here, and admission currently follows the raw-key
/// reading. Settling on one is a protocol decision, not a local one.
pub fn address_from_pubkey(pk: &PubKey) -> (r: Address)
    ensures
        r@ == blake3_of(pk@),
{
    blake3_hash32(pk.as_bytes().as_slice())
}

/// Sign a transaction over its canonical unsigned bytes: every field except
/// the signature itself is covered, so the stored signature never signs
/// itself, and the fresh signature verifies under the seed's public key.
pub fn sign_tx_v1(sk: &PrivKey, tx: &mut TxV1) -> (r: Result<(), CryptoError>)
    ensures
        old(tx).payload@.len() <= u32::MAX ==> {
            &&& r is Ok
            &&& final(tx)@ == (TxV1View {
                sig: ed25519_sign(sk@, tx_unsigned_bytes(old(tx)@)),
                ..old(tx)@
            })
            &&& ed25519_verifies(
                ed25519_pubkey_of(sk@),
                tx_unsigned_bytes(old(tx)@),
                final(tx).sig@,
            )
        },
        old(tx).payload@.len() > u32::MAX ==> {
            &&& r == Err::<(), CryptoError>(CryptoError::Codec(CodecError::LengthOverflow))
            &&& *final(tx) == *old(tx)
        },
{
    let unsigned = match encode_tx_v1_unsigned(tx) {
        Ok(b) => b,
        Err(e) => {
            return Err(CryptoError::Codec(e));
        },
    };
    tx.sig = sign_bytes(sk, unsigned.as_slice());
    Ok(())
}

/// Verify a transaction's stored signature by independently recomputing the
/// canonical unsigned bytes and checking the signature over them.
pub fn verify_tx_v1(pk: &PubKey, tx: &TxV1) -> (r: Result<bool, CryptoError>)
    ensures
        tx.payload@.len() <= u32::MAX ==> r == Ok::<bool, CryptoError>(
            ed25519_verifies(pk@, tx_unsigned_bytes(tx@), tx.sig@),
        ),
        tx.payload@.len() > u32::MAX ==> r == Err::<bool, CryptoError>(
            CryptoError::Codec(CodecError::LengthOverflow),
        ),
{
    let unsigned = match encode_tx_v1_unsigned(tx) {
        Ok(b) => b,
        Err(e) => {
            return Err(CryptoError::Codec(e));
        },
    };
    Ok(verify_bytes(pk, unsigned.as_slice(), &tx.sig))
}

} // verus!
