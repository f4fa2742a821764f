use novai_core::codec::{encode_tx_v1_unsigned, txid_v1};
use novai_core::crypto::{sign_bytes, PrivKey};
use novai_core::pool::{InMemoryNonceProvider, NonceProvider, TxMempool, TxMempoolError};
use novai_core::types::{Address, SignatureBytes, TxV1, TxVersion};

fn test_keypair(seed: u8) -> (PrivKey, Address) {
    let sk = PrivKey::from_bytes(&[seed; 32]);
    let from: Address = *sk.verifying_key().as_bytes();
    (sk, from)
}

fn make_signed_tx(from_sk: &PrivKey, from_pk_bytes: Address, nonce: u64, fee: u64, payload: &[u8]) -> TxV1 {
    let mut tx = TxV1 {
        version: TxVersion::V1,
        from: from_pk_bytes,
        nonce,
        fee,
        payload: payload.to_vec(),
        sig: [0u8; 64],
    };

    let unsigned = encode_tx_v1_unsigned(&tx).expect("unsigned encode");
    let sig: SignatureBytes = sign_bytes(from_sk, &unsigned);
    tx.sig = sig;
    tx
}

#[test]
fn rejects_below_min_fee() {
    let (sk, from) = test_keypair(7);

    let mut np = InMemoryNonceProvider::new();
    np.set(from, 0);

    let mut mp = TxMempool::new(10, 2);
    let tx = make_signed_tx(&sk, from, 0, 9, b"p");
    let err = mp.insert(tx, &np).unwrap_err();
    assert!(matches!(err, TxMempoolError::FeeTooLow { .. }));
    assert_eq!(err, TxMempoolError::FeeTooLow { min_fee: 10, got: 9 });
    assert!(mp.is_empty());
}

#[test]
fn rejects_nonce_too_low() {
    let (sk, from) = test_keypair(9);

    let mut np = InMemoryNonceProvider::new();
    np.set(from, 5);

    let mut mp = TxMempool::new(1, 2);
    let tx = make_signed_tx(&sk, from, 4, 1, b"p");
    let err = mp.insert(tx, &np).unwrap_err();
    assert!(matches!(err, TxMempoolError::NonceTooLow { .. }));
    assert_eq!(err, TxMempoolError::NonceTooLow { expected: 5, got: 4 });
    assert!(mp.is_empty());
}

#[test]
fn rejects_invalid_signature() {
    let (_sk1, from1) = test_keypair(1);
    let (sk2, _from2) = test_keypair(2);

    let mut np = InMemoryNonceProvider::new();
    np.set(from1, 0);

    let mut mp = TxMempool::new(1, 2);

    // Build a tx "from1" but sign it with sk2 (wrong key) => should fail.
    let mut tx = TxV1 {
        version: TxVersion::V1,
        from: from1,
        nonce: 0,
        fee: 1,
        payload: b"x".to_vec(),
        sig: [0u8; 64],
    };

    let unsigned = encode_tx_v1_unsigned(&tx).expect("unsigned encode");
    tx.sig = sign_bytes(&sk2, &unsigned);

    let err = mp.insert(tx, &np).unwrap_err();
    assert_eq!(err, TxMempoolError::InvalidSignature);
}

#[test]
fn rejects_unparsable_sender_key() {
    let np = InMemoryNonceProvider::new();
    let mut mp = TxMempool::new(1, 2);

    // scan constant address patterns: those that are no curve point must be
    // rejected as a bad public key, before any signature check
    let mut found = false;
    for b in 0..=255u8 {
        let tx = TxV1 {
            version: TxVersion::V1,
            from: [b; 32],
            nonce: 0,
            fee: 1,
            payload: b"x".to_vec(),
            sig: [0u8; 64],
        };
        match mp.insert(tx, &np) {
            Err(TxMempoolError::InvalidPublicKey) => {
                found = true;
            },
            Err(TxMempoolError::InvalidSignature) => {},
            other => {
                panic!("unexpected admission result: {:?}", other);
            },
        }
    }
    assert!(found);
    assert!(mp.is_empty());
}

#[test]
fn duplicate_content_rejected_and_id_ignores_signature() {
    let (sk, from) = test_keypair(3);

    let mut np = InMemoryNonceProvider::new();
    np.set(from, 0);

    let mut mp = TxMempool::new(1, 2);
    let tx = make_signed_tx(&sk, from, 0, 5, b"dup");

    // identifiers of two transactions that differ only in signature collide
    let mut resigned = tx.clone();
    resigned.sig = [0x55u8; 64];
    assert_eq!(txid_v1(&tx).unwrap(), txid_v1(&resigned).unwrap());

    let id = mp.insert(tx.clone(), &np).unwrap();
    assert_eq!(id, txid_v1(&tx).unwrap());
    assert!(mp.contains(&id));
    assert_eq!(mp.len(), 1);

    let err = mp.insert(tx.clone(), &np).unwrap_err();
    assert_eq!(err, TxMempoolError::Duplicate);
    assert_eq!(mp.len(), 1);

    // the stored transaction can be read back and removed under its id
    assert_eq!(mp.get(&id).unwrap().payload, b"dup".to_vec());
    let removed = mp.remove(&id).unwrap();
    assert_eq!(removed.payload, b"dup".to_vec());
    assert!(!mp.contains(&id));
    assert!(mp.is_empty());
}

#[test]
fn drain_is_fee_priority_and_nonce_ready() {
    let (sk, from) = test_keypair(3);

    let mut np = InMemoryNonceProvider::new();
    np.set(from, 0);

    let mut mp = TxMempool::new(1, 10);

    // nonce 0 ready, fee 5
    let tx_a = make_signed_tx(&sk, from, 0, 5, b"a");
    // nonce 1 NOT ready initially, fee 999 (should not drain yet)
    let tx_b = make_signed_tx(&sk, from, 1, 999, b"b");
    // nonce 0 ready, fee 10 (should drain first)
    let tx_c = make_signed_tx(&sk, from, 0, 10, b"c");

    mp.insert(tx_a, &np).unwrap();
    mp.insert(tx_b, &np).unwrap();
    mp.insert(tx_c, &np).unwrap();

    let drained = mp.drain_ready(10, &np);
    assert_eq!(drained.len(), 2);
    assert_eq!(drained[0].payload, b"c");
    assert_eq!(drained[1].payload, b"a");

    // Now advance expected nonce to 1, tx_b becomes ready.
    np.set(from, 1);
    let drained2 = mp.drain_ready(10, &np);
    assert_eq!(drained2.len(), 1);
    assert_eq!(drained2[0].payload, b"b");
}

#[test]
fn fairness_cap_limits_per_sender() {
    let (sk1, from1) = test_keypair(5);
    let (sk2, from2) = test_keypair(6);

    let mut np = InMemoryNonceProvider::new();
    np.set(from1, 0);
    np.set(from2, 0);

    let mut mp = TxMempool::new(1, 1); // cap = 1 per sender per drain

    // Two ready txs from sender1 (both nonce 0) and one from sender2.
    let s1_hi = make_signed_tx(&sk1, from1, 0, 100, b"s1_hi");
    let s1_lo = make_signed_tx(&sk1, from1, 0, 1, b"s1_lo");
    let s2_mid = make_signed_tx(&sk2, from2, 0, 50, b"s2_mid");

    mp.insert(s1_hi, &np).unwrap();
    mp.insert(s1_lo, &np).unwrap();
    mp.insert(s2_mid, &np).unwrap();

    let drained = mp.drain_ready(10, &np);

    // Should pick: sender1 highest fee and sender2 tx (cap blocks second sender1 tx).
    assert_eq!(drained.len(), 2);
    let payloads: Vec<Vec<u8>> = drained.into_iter().map(|t| t.payload).collect();
    assert!(payloads.contains(&b"s1_hi".to_vec()));
    assert!(payloads.contains(&b"s2_mid".to_vec()));
    assert!(!payloads.contains(&b"s1_lo".to_vec()));
}

#[test]
fn fee_ties_break_by_identifier_ascending() {
    let (sk, from) = test_keypair(11);

    let mut np = InMemoryNonceProvider::new();
    np.set(from, 0);

    let mut mp = TxMempool::new(1, 10);
    let tx_a = make_signed_tx(&sk, from, 0, 5, b"tie-a");
    let tx_b = make_signed_tx(&sk, from, 0, 5, b"tie-b");
    let id_a = txid_v1(&tx_a).unwrap();
    let id_b = txid_v1(&tx_b).unwrap();

    mp.insert(tx_a, &np).unwrap();
    mp.insert(tx_b, &np).unwrap();

    let drained = mp.drain_ready(10, &np);
    assert_eq!(drained.len(), 2);
    let first_id = txid_v1(&drained[0]).unwrap();
    let second_id = txid_v1(&drained[1]).unwrap();
    if id_a < id_b {
        assert_eq!(first_id, id_a);
        assert_eq!(second_id, id_b);
    } else {
        assert_eq!(first_id, id_b);
        assert_eq!(second_id, id_a);
    }
}

#[test]
fn drain_respects_batch_maximum() {
    let (sk, from) = test_keypair(12);

    let mut np = InMemoryNonceProvider::new();
    np.set(from, 0);

    let mut mp = TxMempool::new(1, 10);
    mp.insert(make_signed_tx(&sk, from, 0, 3, b"p1"), &np).unwrap();
    mp.insert(make_signed_tx(&sk, from, 0, 2, b"p2"), &np).unwrap();
    mp.insert(make_signed_tx(&sk, from, 0, 1, b"p3"), &np).unwrap();

    let drained = mp.drain_ready(2, &np);
    assert_eq!(drained.len(), 2);
    assert_eq!(drained[0].fee, 3);
    assert_eq!(drained[1].fee, 2);
    assert_eq!(mp.len(), 1);

    let none = mp.drain_ready(0, &np);
    assert_eq!(none.len(), 0);
    assert_eq!(mp.len(), 1);
}

#[test]
fn zero_fairness_cap_is_coerced_to_one() {
    let (sk, from) = test_keypair(13);

    let mut np = InMemoryNonceProvider::new();
    np.set(from, 0);

    let mut mp = TxMempool::new(1, 0);
    mp.insert(make_signed_tx(&sk, from, 0, 4, b"q1"), &np).unwrap();
    mp.insert(make_signed_tx(&sk, from, 0, 8, b"q2"), &np).unwrap();

    // with a cap coerced to one, a single drain takes one per sender
    let drained = mp.drain_ready(10, &np);
    assert_eq!(drained.len(), 1);
    assert_eq!(drained[0].fee, 8);
    assert_eq!(mp.len(), 1);
}

#[test]
fn nonce_provider_snapshot_is_settable() {
    let mut np = InMemoryNonceProvider::new();
    let a: Address = [1u8; 32];
    let b: Address = [2u8; 32];
    assert_eq!(np.expected_nonce(&a), 0);
    np.set(a, 7);
    assert_eq!(np.expected_nonce(&a), 7);
    assert_eq!(np.expected_nonce(&b), 0);
    np.set(a, 8);
    assert_eq!(np.expected_nonce(&a), 8);
}
