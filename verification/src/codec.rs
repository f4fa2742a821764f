//! Canonical, versioned binary codec for transactions and block headers.
//!
//! The byte layouts are consensus-relevant: all integers are little-endian,
//! all hash/address/signature fields are fixed-width raw bytes, and a decoder
//! must consume its input exactly — partial frames and over-long frames are
//! both rejected, never truncated or padded.

use vstd::prelude::*;
use vstd::bytes::{
    lemma_auto_spec_u32_to_from_le_bytes, lemma_auto_spec_u64_to_from_le_bytes,
    spec_u32_from_le_bytes, spec_u32_to_le_bytes, spec_u64_from_le_bytes, spec_u64_to_le_bytes,
    u32_from_le_bytes, u32_to_le_bytes, u64_from_le_bytes, u64_to_le_bytes,
};
use vstd::slice::{slice_index_get, slice_subrange, slice_to_vec};
use crate::hashing::{blake3_hash32, blake3_of};
use crate::types::{
    spec_header_version_byte, spec_tx_version_byte, zero_sig, BlockHeaderV1, BlockHeaderV1View,
    BlockHeaderVersion, TxId, TxV1, TxV1View, TxVersion,
};

verus! {

/// The ways a decode or encode can fail; each condition is distinct so that
/// callers can tell them apart.
#[derive(Debug, Clone, Copy, PartialEq, Eq, Structural)]
pub enum CodecError {
    /// End of input was reached before a required field was fully read.
    UnexpectedEof,
    /// Bytes remained after every field of the record was consumed.
    TrailingBytes,
    /// The leading version byte maps to no known version value.
    InvalidVersion,
    /// A variable-length field is too long for its length prefix.
    LengthOverflow,
}

/// Offset of the nonce field in a transaction encoding.
pub const TX_NONCE_OFFSET: usize = 33;

/// Offset of the fee field in a transaction encoding.
pub const TX_FEE_OFFSET: usize = 41;

/// Offset of the payload-length field in a transaction encoding.
pub const TX_LEN_OFFSET: usize = 49;

/// Byte length of the fixed-width prefix of a transaction encoding
/// (version, sender, nonce, fee, payload length).
pub const TX_FIXED_LEN: usize = 53;

/// Byte length of a block header encoding.
pub const HEADER_LEN: usize = 169;

/// The canonical unsigned encoding of a transaction:
/// version, sender, nonce, fee, payload length, payload.
/// Meaningful when the payload length fits the 32-bit length prefix.
pub open spec fn tx_unsigned_bytes(tx: TxV1View) -> Seq<u8>
    recommends
        tx.payload.len() <= u32::MAX,
{
    seq![spec_tx_version_byte(tx.version)] + tx.from + spec_u64_to_le_bytes(tx.nonce)
        + spec_u64_to_le_bytes(tx.fee) + spec_u32_to_le_bytes(tx.payload.len() as u32)
        + tx.payload
}

/// The canonical signed encoding: the unsigned encoding followed by the
/// 64-byte signature.
pub open spec fn tx_signed_bytes(tx: TxV1View) -> Seq<u8>
    recommends
        tx.payload.len() <= u32::MAX,
{
    tx_unsigned_bytes(tx) + tx.sig
}

/// The canonical encoding of a block header: version, height, then five
/// fixed-width 32-byte digests.
pub open spec fn header_bytes(h: BlockHeaderV1View) -> Seq<u8> {
    seq![spec_header_version_byte(h.version)] + spec_u64_to_le_bytes(h.height) + h.prev_hash
        + h.state_root + h.tx_root + h.proposer + h.qc_hash
}

/// A transaction view whose byte fields have their required widths and whose
/// payload fits the length prefix.
pub open spec fn tx_view_wf(tx: TxV1View) -> bool {
    &&& tx.from.len() == 32
    &&& tx.sig.len() == 64
    &&& tx.payload.len() <= u32::MAX
}

/// A header view whose digest fields have their required widths.
pub open spec fn header_view_wf(h: BlockHeaderV1View) -> bool {
    &&& h.prev_hash.len() == 32
    &&& h.state_root.len() == 32
    &&& h.tx_root.len() == 32
    &&& h.proposer.len() == 32
    &&& h.qc_hash.len() == 32
}

/// What decoding an unsigned transaction means, field by field. Reading stops
/// at the first failure: a missing or truncated field is an end-of-input
/// error, an unknown version byte is a version error, and any remainder after
/// the payload is a trailing-bytes error.
pub open spec fn spec_decode_tx_unsigned(bytes: Seq<u8>) -> Result<TxV1View, CodecError> {
    if bytes.len() < 1 {
        Err(CodecError::UnexpectedEof)
    } else if bytes[0] != 1 {
        Err(CodecError::InvalidVersion)
    } else if bytes.len() < TX_FIXED_LEN {
        Err(CodecError::UnexpectedEof)
    } else {
        let payload_len = spec_u32_from_le_bytes(
            bytes.subrange(TX_LEN_OFFSET as int, TX_FIXED_LEN as int),
        ) as int;
        if bytes.len() < TX_FIXED_LEN + payload_len {
            Err(CodecError::UnexpectedEof)
        } else if bytes.len() > TX_FIXED_LEN + payload_len {
            Err(CodecError::TrailingBytes)
        } else {
            Ok(TxV1View {
                version: TxVersion::V1,
                from: bytes.subrange(1, TX_NONCE_OFFSET as int),
                nonce: spec_u64_from_le_bytes(
                    bytes.subrange(TX_NONCE_OFFSET as int, TX_FEE_OFFSET as int),
                ),
                fee: spec_u64_from_le_bytes(
                    bytes.subrange(TX_FEE_OFFSET as int, TX_LEN_OFFSET as int),
                ),
                payload: bytes.subrange(TX_FIXED_LEN as int, bytes.len() as int),
                sig: zero_sig(),
            })
        }
    }
}

/// What decoding a signed transaction means: the unsigned fields, then the
/// trailing 64-byte signature, with the same exact-consumption rule.
pub open spec fn spec_decode_tx_signed(bytes: Seq<u8>) -> Result<TxV1View, CodecError> {
    if bytes.len() < 1 {
        Err(CodecError::UnexpectedEof)
    } else if bytes[0] != 1 {
        Err(CodecError::InvalidVersion)
    } else if bytes.len() < TX_FIXED_LEN {
        Err(CodecError::UnexpectedEof)
    } else {
        let payload_len = spec_u32_from_le_bytes(
            bytes.subrange(TX_LEN_OFFSET as int, TX_FIXED_LEN as int),
        ) as int;
        if bytes.len() < TX_FIXED_LEN + payload_len + 64 {
            Err(CodecError::UnexpectedEof)
        } else if bytes.len() > TX_FIXED_LEN + payload_len + 64 {
            Err(CodecError::TrailingBytes)
        } else {
            Ok(TxV1View {
                version: TxVersion::V1,
                from: bytes.subrange(1, TX_NONCE_OFFSET as int),
                nonce: spec_u64_from_le_bytes(
                    bytes.subrange(TX_NONCE_OFFSET as int, TX_FEE_OFFSET as int),
                ),
                fee: spec_u64_from_le_bytes(
                    bytes.subrange(TX_FEE_OFFSET as int, TX_LEN_OFFSET as int),
                ),
                payload: bytes.subrange(TX_FIXED_LEN as int, TX_FIXED_LEN + payload_len),
                sig: bytes.subrange(TX_FIXED_LEN + payload_len, bytes.len() as int),
            })
        }
    }
}

/// What decoding a block header means: a fixed 169-byte frame.
pub open spec fn spec_decode_header(bytes: Seq<u8>) -> Result<BlockHeaderV1View, CodecError> {
    if bytes.len() < 1 {
        Err(CodecError::UnexpectedEof)
    } else if bytes[0] != 1 {
        Err(CodecError::InvalidVersion)
    } else if bytes.len() < HEADER_LEN {
        Err(CodecError::UnexpectedEof)
    } else if bytes.len() > HEADER_LEN {
        Err(CodecError::TrailingBytes)
    } else {
        Ok(BlockHeaderV1View {
            version: BlockHeaderVersion::V1,
            height: spec_u64_from_le_bytes(bytes.subrange(1, 9)),
            prev_hash: bytes.subrange(9, 41),
            state_root: bytes.subrange(41, 73),
            tx_root: bytes.subrange(73, 105),
            proposer: bytes.subrange(105, 137),
            qc_hash: bytes.subrange(137, 169),
        })
    }
}

/// A decode result and a spec-level decode result agree: same success or
/// failure, same error, and on success the decoded value models the spec one.
pub open spec fn view_result<T: View>(r: Result<T, CodecError>) -> Result<T::V, CodecError> {
    match r {
        Ok(t) => Ok(t@),
        Err(e) => Err(e),
    }
}

/// Copy a 32-byte slice into an array.
fn to_array_32(b: &[u8]) -> (out: [u8; 32])
    requires
        b@.len() == 32,
    ensures
        out@ == b@,
{
    let mut out: [u8; 32] = [0u8; 32];
    let mut i: usize = 0;
    while i < 32
        invariant
            i <= 32,
            b@.len() == 32,
            forall|j: int| 0 <= j < i ==> out@[j] == b@[j],
        decreases 32 - i,
    {
        out[i] = *slice_index_get(b, i);
        i += 1;
    }
    proof {
        assert(out@ =~= b@);
    }
    out
}

/// Copy a 64-byte slice into an array.
fn to_array_64(b: &[u8]) -> (out: [u8; 64])
    requires
        b@.len() == 64,
    ensures
        out@ == b@,
{
    let mut out: [u8; 64] = [0u8; 64];
    let mut i: usize = 0;
    while i < 64
        invariant
            i <= 64,
            b@.len() == 64,
            forall|j: int| 0 <= j < i ==> out@[j] == b@[j],
        decreases 64 - i,
    {
        out[i] = *slice_index_get(b, i);
        i += 1;
    }
    proof {
        assert(out@ =~= b@);
    }
    out
}

/// Canonical encoding of a transaction without its signature. Field order is
/// consensus-relevant: changing it is a hard fork. Fails, rather than
/// truncating, when the payload is too long for its 32-bit length prefix.
pub fn encode_tx_v1_unsigned(tx: &TxV1) -> (r: Result<Vec<u8>, CodecError>)
    ensures
        tx.payload@.len() <= u32::MAX ==> (r matches Ok(out) && out@ == tx_unsigned_bytes(tx@)),
        tx.payload@.len() > u32::MAX ==> (r matches Err(e) && e == CodecError::LengthOverflow),
{
    if tx.payload.len() > u32::MAX as usize {
        return Err(CodecError::LengthOverflow);
    }
    let payload_len: u32 = tx.payload.len() as u32;
    let mut out: Vec<u8> = Vec::new();
    out.push(tx.version.as_byte());
    out.extend_from_slice(tx.from.as_slice());
    let nonce_bytes = u64_to_le_bytes(tx.nonce);
    out.extend_from_slice(nonce_bytes.as_slice());
    let fee_bytes = u64_to_le_bytes(tx.fee);
    out.extend_from_slice(fee_bytes.as_slice());
    let len_bytes = u32_to_le_bytes(payload_len);
    out.extend_from_slice(len_bytes.as_slice());
    out.extend_from_slice(tx.payload.as_slice());
    proof {
        assert(out@ =~= tx_unsigned_bytes(tx@));
    }
    Ok(out)
}

/// Canonical encoding of a transaction including its trailing signature.
pub fn encode_tx_v1_signed(tx: &TxV1) -> (r: Result<Vec<u8>, CodecError>)
    ensures
        tx.payload@.len() <= u32::MAX ==> (r matches Ok(out) && out@ == tx_signed_bytes(tx@)),
        tx.payload@.len() > u32::MAX ==> (r matches Err(e) && e == CodecError::LengthOverflow),
{
    let mut out = match encode_tx_v1_unsigned(tx) {
        Ok(out) => out,
        Err(e) => {
            return Err(e);
        },
    };
    out.extend_from_slice(tx.sig.as_slice());
    Ok(out)
}

/// Decode an unsigned transaction, consuming the input exactly. The signature
/// field is not on the wire in this form and is synthesized as all zeroes.
pub fn decode_tx_v1_unsigned(bytes: &[u8]) -> (r: Result<TxV1, CodecError>)
    ensures
        view_result(r) == spec_decode_tx_unsigned(bytes@),
{
    if bytes.len() < 1 {
        return Err(CodecError::UnexpectedEof);
    }
    let version = match TxVersion::from_u8(*slice_index_get(bytes, 0)) {
        Some(v) => v,
        None => {
            return Err(CodecError::InvalidVersion);
        },
    };
    if bytes.len() < TX_FIXED_LEN {
        return Err(CodecError::UnexpectedEof);
    }
    let from = to_array_32(slice_subrange(bytes, 1, TX_NONCE_OFFSET));
    let nonce = u64_from_le_bytes(slice_subrange(bytes, TX_NONCE_OFFSET, TX_FEE_OFFSET));
    let fee = u64_from_le_bytes(slice_subrange(bytes, TX_FEE_OFFSET, TX_LEN_OFFSET));
    let payload_len = u32_from_le_bytes(slice_subrange(bytes, TX_LEN_OFFSET, TX_FIXED_LEN));
    if bytes.len() - TX_FIXED_LEN < payload_len as usize {
        return Err(CodecError::UnexpectedEof);
    }
    if bytes.len() - TX_FIXED_LEN > payload_len as usize {
        return Err(CodecError::TrailingBytes);
    }
    let payload = slice_to_vec(slice_subrange(bytes, TX_FIXED_LEN, bytes.len()));
    let sig: [u8; 64] = [0u8; 64];
    proof {
        assert(sig@ =~= zero_sig());
    }
    Ok(TxV1 { version, from, nonce, fee, payload, sig })
}

/// Decode a signed transaction, consuming the input exactly, including the
/// trailing 64-byte signature.
pub fn decode_tx_v1_signed(bytes: &[u8]) -> (r: Result<TxV1, CodecError>)
    ensures
        view_result(r) == spec_decode_tx_signed(bytes@),
{
    if bytes.len() < 1 {
        return Err(CodecError::UnexpectedEof);
    }
    let version = match TxVersion::from_u8(*slice_index_get(bytes, 0)) {
        Some(v) => v,
        None => {
            return Err(CodecError::InvalidVersion);
        },
    };
    if bytes.len() < TX_FIXED_LEN {
        return Err(CodecError::UnexpectedEof);
    }
    let from = to_array_32(slice_subrange(bytes, 1, TX_NONCE_OFFSET));
    let nonce = u64_from_le_bytes(slice_subrange(bytes, TX_NONCE_OFFSET, TX_FEE_OFFSET));
    let fee = u64_from_le_bytes(slice_subrange(bytes, TX_FEE_OFFSET, TX_LEN_OFFSET));
    let payload_len = u32_from_le_bytes(slice_subrange(bytes, TX_LEN_OFFSET, TX_FIXED_LEN));
    if bytes.len() - TX_FIXED_LEN < payload_len as usize {
        return Err(CodecError::UnexpectedEof);
    }
    let payload_end: usize = TX_FIXED_LEN + payload_len as usize;
    if bytes.len() - payload_end < 64 {
        return Err(CodecError::UnexpectedEof);
    }
    if bytes.len() - payload_end > 64 {
        return Err(CodecError::TrailingBytes);
    }
    let payload = slice_to_vec(slice_subrange(bytes, TX_FIXED_LEN, payload_end));
    let sig = to_array_64(slice_subrange(bytes, payload_end, bytes.len()));
    Ok(TxV1 { version, from, nonce, fee, payload, sig })
}

/// Canonical encoding of a block header: a fixed-width 169-byte frame.
pub fn encode_block_header_v1(h: &BlockHeaderV1) -> (r: Result<Vec<u8>, CodecError>)
    ensures
        r matches Ok(out) && out@ == header_bytes(h@),
{
    let mut out: Vec<u8> = Vec::new();
    out.push(h.version.as_byte());
    let height_bytes = u64_to_le_bytes(h.height);
    out.extend_from_slice(height_bytes.as_slice());
    out.extend_from_slice(h.prev_hash.as_slice());
    out.extend_from_slice(h.state_root.as_slice());
    out.extend_from_slice(h.tx_root.as_slice());
    out.extend_from_slice(h.proposer.as_slice());
    out.extend_from_slice(h.qc_hash.as_slice());
    proof {
        assert(out@ =~= header_bytes(h@));
    }
    Ok(out)
}

/// Decode a block header, consuming the input exactly.
pub fn decode_block_header_v1(bytes: &[u8]) -> (r: Result<BlockHeaderV1, CodecError>)
    ensures
        view_result(r) == spec_decode_header(bytes@),
{
    if bytes.len() < 1 {
        return Err(CodecError::UnexpectedEof);
    }
    let version = match BlockHeaderVersion::from_u8(*slice_index_get(bytes, 0)) {
        Some(v) => v,
        None => {
            return Err(CodecError::InvalidVersion);
        },
    };
    if bytes.len() < HEADER_LEN {
        return Err(CodecError::UnexpectedEof);
    }
    if bytes.len() > HEADER_LEN {
        return Err(CodecError::TrailingBytes);
    }
    let height = u64_from_le_bytes(slice_subrange(bytes, 1, 9));
    let prev_hash = to_array_32(slice_subrange(bytes, 9, 41));
    let state_root = to_array_32(slice_subrange(bytes, 41, 73));
    let tx_root = to_array_32(slice_subrange(bytes, 73, 105));
    let proposer = to_array_32(slice_subrange(bytes, 105, 137));
    let qc_hash = to_array_32(slice_subrange(bytes, 137, 169));
    Ok(BlockHeaderV1 { version, height, prev_hash, state_root, tx_root, proposer, qc_hash })
}

/// Round trip, decode then encode: any byte string that decodes as an
/// unsigned transaction re-encodes to exactly itself, and the decoded
/// signature field is all zeroes.
pub proof fn lemma_tx_unsigned_decode_encode(bytes: Seq<u8>)
    requires
        spec_decode_tx_unsigned(bytes) is Ok,
    ensures
        tx_unsigned_bytes(spec_decode_tx_unsigned(bytes)->Ok_0) == bytes,
        spec_decode_tx_unsigned(bytes)->Ok_0.sig == zero_sig(),
{
    lemma_auto_spec_u32_to_from_le_bytes();
    lemma_auto_spec_u64_to_from_le_bytes();
    let v = spec_decode_tx_unsigned(bytes)->Ok_0;
    let pl = spec_u32_from_le_bytes(bytes.subrange(49, 53)) as int;
    assert(bytes.len() == 53 + pl);
    assert(v.payload.len() == pl);
    assert(spec_u32_to_le_bytes(v.payload.len() as u32) =~= bytes.subrange(49, 53));
    assert(spec_u64_to_le_bytes(v.nonce) =~= bytes.subrange(33, 41));
    assert(spec_u64_to_le_bytes(v.fee) =~= bytes.subrange(41, 49));
    assert(tx_unsigned_bytes(v) =~= bytes);
}

/// Round trip, encode then decode: the unsigned encoding of any well-formed
/// transaction decodes back to the same transaction with its signature field
/// zeroed.
pub proof fn lemma_tx_unsigned_encode_decode(tx: TxV1View)
    requires
        tx_view_wf(tx),
    ensures
        spec_decode_tx_unsigned(tx_unsigned_bytes(tx)) == Ok::<TxV1View, CodecError>(
            TxV1View { sig: zero_sig(), ..tx },
        ),
{
    lemma_auto_spec_u32_to_from_le_bytes();
    lemma_auto_spec_u64_to_from_le_bytes();
    let b = tx_unsigned_bytes(tx);
    let pl = tx.payload.len() as int;
    assert(b.len() == 53 + pl);
    assert(b[0] == 1);
    assert(b.subrange(49, 53) =~= spec_u32_to_le_bytes(tx.payload.len() as u32));
    assert(spec_u32_from_le_bytes(b.subrange(49, 53)) == tx.payload.len() as u32);
    let v = spec_decode_tx_unsigned(b)->Ok_0;
    assert(b.subrange(1, 33) =~= tx.from);
    assert(b.subrange(33, 41) =~= spec_u64_to_le_bytes(tx.nonce));
    assert(b.subrange(41, 49) =~= spec_u64_to_le_bytes(tx.fee));
    assert(b.subrange(53, b.len() as int) =~= tx.payload);
    assert(v == TxV1View { sig: zero_sig(), ..tx });
}

/// Round trip, decode then encode, signed form: any byte string that decodes
/// as a signed transaction re-encodes to exactly itself, signature included.
pub proof fn lemma_tx_signed_decode_encode(bytes: Seq<u8>)
    requires
        spec_decode_tx_signed(bytes) is Ok,
    ensures
        tx_signed_bytes(spec_decode_tx_signed(bytes)->Ok_0) == bytes,
{
    lemma_auto_spec_u32_to_from_le_bytes();
    lemma_auto_spec_u64_to_from_le_bytes();
    let v = spec_decode_tx_signed(bytes)->Ok_0;
    let pl = spec_u32_from_le_bytes(bytes.subrange(49, 53)) as int;
    assert(bytes.len() == 53 + pl + 64);
    assert(v.payload.len() == pl);
    assert(spec_u32_to_le_bytes(v.payload.len() as u32) =~= bytes.subrange(49, 53));
    assert(spec_u64_to_le_bytes(v.nonce) =~= bytes.subrange(33, 41));
    assert(spec_u64_to_le_bytes(v.fee) =~= bytes.subrange(41, 49));
    assert(tx_signed_bytes(v) =~= bytes);
}

/// Round trip, encode then decode, signed form: the signed encoding of any
/// well-formed transaction decodes back to the identical transaction.
pub proof fn lemma_tx_signed_encode_decode(tx: TxV1View)
    requires
        tx_view_wf(tx),
    ensures
        spec_decode_tx_signed(tx_signed_bytes(tx)) == Ok::<TxV1View, CodecError>(tx),
{
    lemma_auto_spec_u32_to_from_le_bytes();
    lemma_auto_spec_u64_to_from_le_bytes();
    let b = tx_signed_bytes(tx);
    let pl = tx.payload.len() as int;
    assert(b.len() == 53 + pl + 64);
    assert(b[0] == 1);
    assert(b.subrange(49, 53) =~= spec_u32_to_le_bytes(tx.payload.len() as u32));
    assert(spec_u32_from_le_bytes(b.subrange(49, 53)) == tx.payload.len() as u32);
    let v = spec_decode_tx_signed(b)->Ok_0;
    assert(b.subrange(1, 33) =~= tx.from);
    assert(b.subrange(33, 41) =~= spec_u64_to_le_bytes(tx.nonce));
    assert(b.subrange(41, 49) =~= spec_u64_to_le_bytes(tx.fee));
    assert(b.subrange(53, 53 + pl) =~= tx.payload);
    assert(b.subrange(53 + pl, b.len() as int) =~= tx.sig);
    assert(v == tx);
}

/// Round trip, decode then encode, block header: any byte string that decodes
/// as a header re-encodes to exactly itself.
pub proof fn lemma_header_decode_encode(bytes: Seq<u8>)
    requires
        spec_decode_header(bytes) is Ok,
    ensures
        header_bytes(spec_decode_header(bytes)->Ok_0) == bytes,
{
    lemma_auto_spec_u64_to_from_le_bytes();
    let v = spec_decode_header(bytes)->Ok_0;
    assert(spec_u64_to_le_bytes(v.height) =~= bytes.subrange(1, 9));
    assert(header_bytes(v) =~= bytes);
}

/// Round trip, encode then decode, block header: the encoding of any
/// well-formed header decodes back to the identical header.
pub proof fn lemma_header_encode_decode(h: BlockHeaderV1View)
    requires
        header_view_wf(h),
    ensures
        spec_decode_header(header_bytes(h)) == Ok::<BlockHeaderV1View, CodecError>(h),
{
    lemma_auto_spec_u64_to_from_le_bytes();
    let b = header_bytes(h);
    assert(b.len() == 169);
    assert(b[0] == 1);
    let v = spec_decode_header(b)->Ok_0;
    assert(b.subrange(1, 9) =~= spec_u64_to_le_bytes(h.height));
    assert(b.subrange(9, 41) =~= h.prev_hash);
    assert(b.subrange(41, 73) =~= h.state_root);
    assert(b.subrange(73, 105) =~= h.tx_root);
    assert(b.subrange(105, 137) =~= h.proposer);
    assert(b.subrange(137, 169) =~= h.qc_hash);
    assert(v == h);
}

/// Appending anything non-empty to a valid unsigned encoding makes decoding
/// fail with the trailing-bytes condition; the extra bytes are never ignored.
pub proof fn lemma_tx_unsigned_trailing_rejected(bytes: Seq<u8>, extra: Seq<u8>)
    requires
        spec_decode_tx_unsigned(bytes) is Ok,
        extra.len() > 0,
    ensures
        spec_decode_tx_unsigned(bytes + extra) == Err::<TxV1View, CodecError>(
            CodecError::TrailingBytes,
        ),
{
    let b2 = bytes + extra;
    assert(b2[0] == bytes[0]);
    assert(b2.subrange(49, 53) =~= bytes.subrange(49, 53));
}

/// Appending anything non-empty to a valid signed encoding makes decoding
/// fail with the trailing-bytes condition.
pub proof fn lemma_tx_signed_trailing_rejected(bytes: Seq<u8>, extra: Seq<u8>)
    requires
        spec_decode_tx_signed(bytes) is Ok,
        extra.len() > 0,
    ensures
        spec_decode_tx_signed(bytes + extra) == Err::<TxV1View, CodecError>(
            CodecError::TrailingBytes,
        ),
{
    let b2 = bytes + extra;
    assert(b2[0] == bytes[0]);
    assert(b2.subrange(49, 53) =~= bytes.subrange(49, 53));
}

/// Appending anything non-empty to a valid header encoding makes decoding
/// fail with the trailing-bytes condition.
pub proof fn lemma_header_trailing_rejected(bytes: Seq<u8>, extra: Seq<u8>)
    requires
        spec_decode_header(bytes) is Ok,
        extra.len() > 0,
    ensures
        spec_decode_header(bytes + extra) == Err::<BlockHeaderV1View, CodecError>(
            CodecError::TrailingBytes,
        ),
{
    let b2 = bytes + extra;
    assert(b2[0] == bytes[0]);
}

/// The transaction identifier: the BLAKE3 digest of the canonical unsigned
/// encoding. This is the single source of truth for transaction identity:
/// signature bytes play no part in it.
pub fn txid_v1(tx: &TxV1) -> (r: Result<TxId, CodecError>)
    ensures
        tx.payload@.len() <= u32::MAX ==> (r matches Ok(id) && id@ == blake3_of(
            tx_unsigned_bytes(tx@),
        )),
        tx.payload@.len() > u32::MAX ==> (r matches Err(e) && e == CodecError::LengthOverflow),
{
    let unsigned = match encode_tx_v1_unsigned(tx) {
        Ok(b) => b,
        Err(e) => {
            return Err(e);
        },
    };
    Ok(blake3_hash32(unsigned.as_slice()))
}

/// The identifier is a function of the unsigned fields only: two transactions
/// that agree on everything but their signature bytes share their unsigned
/// encoding, and so their identifier.
pub proof fn lemma_txid_ignores_sig(a: TxV1View, b: TxV1View)
    requires
        a.version == b.version,
        a.from == b.from,
        a.nonce == b.nonce,
        a.fee == b.fee,
        a.payload == b.payload,
    ensures
        tx_unsigned_bytes(a) == tx_unsigned_bytes(b),
        blake3_of(tx_unsigned_bytes(a)) == blake3_of(tx_unsigned_bytes(b)),
{
}

} // verus!
