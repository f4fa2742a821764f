use novai_core::codec::{
    decode_block_header_v1, decode_tx_v1_signed, decode_tx_v1_unsigned, encode_block_header_v1,
    encode_tx_v1_signed, encode_tx_v1_unsigned, txid_v1, CodecError,
};
use novai_core::types::{Address, BlockHeaderV1, BlockHeaderVersion, Hash32, SignatureBytes, TxV1, TxVersion};

fn sample_tx() -> TxV1 {
    let from: Address = [0x11u8; 32];
    let sig: SignatureBytes = [0x22u8; 64];

    TxV1 { version: TxVersion::V1, from, nonce: 42, fee: 7, payload: b"hello".to_vec(), sig }
}

fn sample_header() -> BlockHeaderV1 {
    let prev_hash: Hash32 = [0xAAu8; 32];
    let state_root: Hash32 = [0xBBu8; 32];
    let tx_root: Hash32 = [0xCCu8; 32];
    let proposer: Address = [0xDDu8; 32];
    let qc_hash: Hash32 = [0xEEu8; 32];

    BlockHeaderV1 {
        version: BlockHeaderVersion::V1,
        height: 123,
        prev_hash,
        state_root,
        tx_root,
        proposer,
        qc_hash,
    }
}

/// The golden unsigned encoding of `sample_tx`, written out byte by byte.
fn golden_unsigned() -> Vec<u8> {
    let mut v: Vec<u8> = vec![0x01];
    v.extend_from_slice(&[0x11u8; 32]);
    v.extend_from_slice(&42u64.to_le_bytes());
    v.extend_from_slice(&7u64.to_le_bytes());
    v.extend_from_slice(&5u32.to_le_bytes());
    v.extend_from_slice(b"hello");
    v
}

fn golden_header() -> Vec<u8> {
    let mut v: Vec<u8> = vec![0x01];
    v.extend_from_slice(&123u64.to_le_bytes());
    v.extend_from_slice(&[0xAAu8; 32]);
    v.extend_from_slice(&[0xBBu8; 32]);
    v.extend_from_slice(&[0xCCu8; 32]);
    v.extend_from_slice(&[0xDDu8; 32]);
    v.extend_from_slice(&[0xEEu8; 32]);
    v
}

#[test]
fn golden_vectors_tx_and_header_v1() {
    let tx = sample_tx();
    let header = sample_header();

    // --- Encode ---
    let unsigned = encode_tx_v1_unsigned(&tx).expect("encode unsigned");
    let signed = encode_tx_v1_signed(&tx).expect("encode signed");
    let header_bytes = encode_block_header_v1(&header).expect("encode header");

    // --- Decode checks ---
    let decoded_unsigned = decode_tx_v1_unsigned(&unsigned).expect("decode unsigned");
    assert_eq!(decoded_unsigned.version, tx.version);
    assert_eq!(decoded_unsigned.from, tx.from);
    assert_eq!(decoded_unsigned.nonce, tx.nonce);
    assert_eq!(decoded_unsigned.fee, tx.fee);
    assert_eq!(decoded_unsigned.payload, tx.payload);
    assert_eq!(decoded_unsigned.sig, [0u8; 64], "unsigned decode must zero sig");

    let decoded_signed = decode_tx_v1_signed(&signed).expect("decode signed");
    assert_eq!(decoded_signed, tx);

    let decoded_header = decode_block_header_v1(&header_bytes).expect("decode header");
    assert_eq!(decoded_header, header);

    // --- Compare against byte-for-byte golden vectors ---
    assert_eq!(unsigned, golden_unsigned());
    let mut expected_signed = golden_unsigned();
    expected_signed.extend_from_slice(&[0x22u8; 64]);
    assert_eq!(signed, expected_signed);
    assert_eq!(header_bytes, golden_header());
    assert_eq!(header_bytes.len(), 169);
}

#[test]
fn trailing_byte_rejected_everywhere() {
    let tx = sample_tx();
    let header = sample_header();

    let mut unsigned = encode_tx_v1_unsigned(&tx).unwrap();
    unsigned.push(0x00);
    assert_eq!(decode_tx_v1_unsigned(&unsigned).unwrap_err(), CodecError::TrailingBytes);

    let mut signed = encode_tx_v1_signed(&tx).unwrap();
    signed.push(0x7F);
    assert_eq!(decode_tx_v1_signed(&signed).unwrap_err(), CodecError::TrailingBytes);

    let mut hb = encode_block_header_v1(&header).unwrap();
    hb.push(0xFF);
    assert_eq!(decode_block_header_v1(&hb).unwrap_err(), CodecError::TrailingBytes);
}

#[test]
fn truncated_input_is_eof() {
    let tx = sample_tx();
    let unsigned = encode_tx_v1_unsigned(&tx).unwrap();

    assert_eq!(decode_tx_v1_unsigned(&[]).unwrap_err(), CodecError::UnexpectedEof);
    assert_eq!(
        decode_tx_v1_unsigned(&unsigned[..unsigned.len() - 1]).unwrap_err(),
        CodecError::UnexpectedEof
    );
    assert_eq!(decode_tx_v1_unsigned(&unsigned[..10]).unwrap_err(), CodecError::UnexpectedEof);

    // a signed frame cut inside its signature
    let signed = encode_tx_v1_signed(&tx).unwrap();
    assert_eq!(
        decode_tx_v1_signed(&signed[..signed.len() - 1]).unwrap_err(),
        CodecError::UnexpectedEof
    );

    let hb = encode_block_header_v1(&sample_header()).unwrap();
    assert_eq!(decode_block_header_v1(&hb[..168]).unwrap_err(), CodecError::UnexpectedEof);
}

#[test]
fn unknown_version_rejected() {
    let tx = sample_tx();
    let mut unsigned = encode_tx_v1_unsigned(&tx).unwrap();
    unsigned[0] = 0x02;
    assert_eq!(decode_tx_v1_unsigned(&unsigned).unwrap_err(), CodecError::InvalidVersion);

    let mut signed = encode_tx_v1_signed(&tx).unwrap();
    signed[0] = 0x00;
    assert_eq!(decode_tx_v1_signed(&signed).unwrap_err(), CodecError::InvalidVersion);

    let mut hb = encode_block_header_v1(&sample_header()).unwrap();
    hb[0] = 0x09;
    assert_eq!(decode_block_header_v1(&hb).unwrap_err(), CodecError::InvalidVersion);
}

#[test]
fn version_parsing() {
    assert_eq!(TxVersion::from_u8(1), Some(TxVersion::V1));
    assert_eq!(TxVersion::from_u8(0), None);
    assert_eq!(TxVersion::from_u8(2), None);
    assert_eq!(BlockHeaderVersion::from_u8(1), Some(BlockHeaderVersion::V1));
    assert_eq!(BlockHeaderVersion::from_u8(255), None);
}

#[test]
fn txid_depends_on_unsigned_bytes_only() {
    let tx = sample_tx();
    let mut other = sample_tx();
    other.sig = [0x77u8; 64];

    // same unsigned content, different signatures: same identifier
    let id1 = txid_v1(&tx).unwrap();
    let id2 = txid_v1(&other).unwrap();
    assert_eq!(id1, id2);

    // the digest is not the encoding handed back unchanged
    let unsigned = encode_tx_v1_unsigned(&tx).unwrap();
    assert_ne!(id1.to_vec(), unsigned[..32].to_vec());

    // changing a covered field changes the identifier
    let mut bumped = sample_tx();
    bumped.fee += 1;
    let id3 = txid_v1(&bumped).unwrap();
    assert_ne!(id1, id3);
}

#[test]
fn empty_payload_roundtrip() {
    let mut tx = sample_tx();
    tx.payload = Vec::new();
    let unsigned = encode_tx_v1_unsigned(&tx).unwrap();
    assert_eq!(unsigned.len(), 53);
    let decoded = decode_tx_v1_unsigned(&unsigned).unwrap();
    assert_eq!(decoded.payload, Vec::<u8>::new());
    assert_eq!(encode_tx_v1_unsigned(&decoded).unwrap(), unsigned);
}
