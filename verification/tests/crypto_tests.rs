use ed25519_dalek::{Signer, SigningKey, Verifier, VerifyingKey};
use novai_core::codec::encode_tx_v1_unsigned;
use novai_core::crypto::{
    address_from_pubkey, pubkey_from_bytes, sign_bytes, sign_tx_v1, verify_bytes, verify_tx_v1,
    PrivKey,
};
use novai_core::types::{TxV1, TxVersion};

#[test]
fn sign_and_verify_roundtrip() {
    // Deterministic secret key for test (no RNG).
    let sk = SigningKey::from_bytes(&[7u8; 32]);
    let vk: VerifyingKey = sk.verifying_key();

    let msg = b"hello world";
    let sig = sk.sign(msg);

    // ed25519 verify should succeed for the same message
    assert!(vk.verify(msg, &sig).is_ok());

    // and fail if the message changes
    assert!(vk.verify(b"hello world!", &sig).is_err());
}

#[test]
fn signature_tamper_fails() {
    let sk = SigningKey::from_bytes(&[9u8; 32]);
    let vk: VerifyingKey = sk.verifying_key();

    let msg = b"payload";
    let mut sig_bytes = sk.sign(msg).to_bytes();

    // flip 1 bit
    sig_bytes[0] ^= 0x01;

    let sig = ed25519_dalek::Signature::from_bytes(&sig_bytes);
    assert!(vk.verify(msg, &sig).is_err());
}

#[test]
fn address_is_32_bytes_and_deterministic() {
    let sk1 = PrivKey::from_bytes(&[1u8; 32]);
    let pk1 = sk1.verifying_key();

    let sk2 = PrivKey::from_bytes(&[2u8; 32]);
    let pk2 = sk2.verifying_key();

    let a1 = address_from_pubkey(&pk1);
    let a1_again = address_from_pubkey(&pk1);
    let a2 = address_from_pubkey(&pk2);

    assert_eq!(a1.len(), 32);
    assert_eq!(a1, a1_again);
    assert_ne!(a1, a2);

    // the address is a digest, not the public-key bytes handed back unchanged
    assert_ne!(a1, *pk1.as_bytes());
}

#[test]
fn txv1_signing_rule_is_over_unsigned_bytes() {
    let sk = PrivKey::from_bytes(&[3u8; 32]);
    let pk = sk.verifying_key();

    let mut tx = TxV1 {
        version: TxVersion::V1,
        from: *pk.as_bytes(),
        nonce: 1,
        fee: 5,
        payload: b"hello".to_vec(),
        sig: [0u8; 64],
    };

    sign_tx_v1(&sk, &mut tx).unwrap();
    assert!(verify_tx_v1(&pk, &tx).unwrap());

    // Mutating any unsigned field should break signature
    tx.fee += 1;
    assert!(!verify_tx_v1(&pk, &tx).unwrap());
}

#[test]
fn mutating_any_field_but_sig_breaks_verification() {
    let sk = PrivKey::from_bytes(&[4u8; 32]);
    let pk = sk.verifying_key();

    let mut tx = TxV1 {
        version: TxVersion::V1,
        from: *pk.as_bytes(),
        nonce: 10,
        fee: 20,
        payload: b"abc".to_vec(),
        sig: [0u8; 64],
    };
    sign_tx_v1(&sk, &mut tx).unwrap();
    assert!(verify_tx_v1(&pk, &tx).unwrap());

    let mut t = tx.clone();
    t.from[0] ^= 0x01;
    assert!(!verify_tx_v1(&pk, &t).unwrap());

    let mut t = tx.clone();
    t.nonce += 1;
    assert!(!verify_tx_v1(&pk, &t).unwrap());

    let mut t = tx.clone();
    t.fee -= 1;
    assert!(!verify_tx_v1(&pk, &t).unwrap());

    let mut t = tx.clone();
    t.payload.push(0x00);
    assert!(!verify_tx_v1(&pk, &t).unwrap());

    // the untouched original still verifies
    assert!(verify_tx_v1(&pk, &tx).unwrap());
}

#[test]
fn raw_sign_bytes_verifies_and_is_not_the_message() {
    let sk = PrivKey::from_bytes(&[5u8; 32]);
    let pk = sk.verifying_key();

    let msg = [0x5Au8; 64];
    let sig = sign_bytes(&sk, &msg);
    assert!(verify_bytes(&pk, &msg, &sig));
    assert_ne!(sig, msg);
    assert_ne!(sig, [0u8; 64]);

    // deterministic signing: the same message signs identically
    assert_eq!(sign_bytes(&sk, &msg), sig);

    let other = b"other message";
    assert!(!verify_bytes(&pk, other, &sig));
}

#[test]
fn pubkey_parse_accepts_real_keys_and_rejects_non_points() {
    let sk = PrivKey::from_bytes(&[6u8; 32]);
    let pk = sk.verifying_key();
    assert!(pubkey_from_bytes(pk.as_bytes()).is_ok());

    // roughly half of all 32-byte strings are no curve point; some constant
    // pattern in this range must be rejected
    let mut found_invalid = false;
    for b in 0..=255u8 {
        if pubkey_from_bytes(&[b; 32]).is_err() {
            found_invalid = true;
        }
    }
    assert!(found_invalid);
}

#[test]
fn signing_rule_matches_raw_signature_over_unsigned_encoding() {
    let sk = PrivKey::from_bytes(&[8u8; 32]);
    let pk = sk.verifying_key();

    let mut tx = TxV1 {
        version: TxVersion::V1,
        from: *pk.as_bytes(),
        nonce: 3,
        fee: 9,
        payload: b"xyz".to_vec(),
        sig: [0u8; 64],
    };
    let unsigned = encode_tx_v1_unsigned(&tx).unwrap();
    let raw = sign_bytes(&sk, &unsigned);
    sign_tx_v1(&sk, &mut tx).unwrap();
    assert_eq!(tx.sig, raw);
}
