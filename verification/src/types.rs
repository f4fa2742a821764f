//! Protocol record types.
//!
//! These structs participate in consensus-relevant encodings: field order and
//! widths are fixed by the canonical codec, and a layout change is only
//! sanctioned through a new version value.

use vstd::prelude::*;

verus! {

/// 32-byte sender address; interpreted as raw Ed25519 public-key bytes when a
/// transaction signature is verified.
pub type Address = [u8; 32];

/// 32-byte transaction identifier: the BLAKE3 digest of the transaction's
/// canonical unsigned encoding.
pub type TxId = [u8; 32];

/// A 32-byte digest.
pub type Hash32 = [u8; 32];

pub type Nonce = u64;

pub type Fee = u64;

/// Raw Ed25519 signature bytes.
pub type SignatureBytes = [u8; 64];

/// Version tag of a transaction. Only one value is currently defined; any
/// other byte on the wire fails decoding.
#[derive(Debug, Clone, Copy, PartialEq, Eq, Structural)]
pub enum TxVersion {
    V1,
}

/// The byte that stands for a transaction version in the canonical encoding.
pub open spec fn spec_tx_version_byte(v: TxVersion) -> u8 {
    match v {
        TxVersion::V1 => 1,
    }
}

impl TxVersion {
    /// Map a wire byte to a known version; any unknown byte is refused.
    pub fn from_u8(v: u8) -> (r: Option<Self>)
        ensures
            r == if v == 1 {
                Some(TxVersion::V1)
            } else {
                None::<TxVersion>
            },
    {
        match v {
            1 => Some(TxVersion::V1),
            _ => None,
        }
    }

    /// The byte written for this version in the canonical encoding.
    pub fn as_byte(&self) -> (r: u8)
        ensures
            r == spec_tx_version_byte(*self),
    {
        match self {
            TxVersion::V1 => 1,
        }
    }
}

/// Version tag of a block header.
#[derive(Debug, Clone, Copy, PartialEq, Eq, Structural)]
pub enum BlockHeaderVersion {
    V1,
}

/// The byte that stands for a block-header version in the canonical encoding.
pub open spec fn spec_header_version_byte(v: BlockHeaderVersion) -> u8 {
    match v {
        BlockHeaderVersion::V1 => 1,
    }
}

impl BlockHeaderVersion {
    /// Map a wire byte to a known version; any unknown byte is refused.
    pub fn from_u8(v: u8) -> (r: Option<Self>)
        ensures
            r == if v == 1 {
                Some(BlockHeaderVersion::V1)
            } else {
                None::<BlockHeaderVersion>
            },
    {
        match v {
            1 => Some(BlockHeaderVersion::V1),
            _ => None,
        }
    }

    /// The byte written for this version in the canonical encoding.
    pub fn as_byte(&self) -> (r: u8)
        ensures
            r == spec_header_version_byte(*self),
    {
        match self {
            BlockHeaderVersion::V1 => 1,
        }
    }
}

/// Canonical V1 transaction.
///
/// The signature is computed over the canonical unsigned encoding (every field
/// except `sig`), so mutating any other field after signing invalidates it.
#[derive(Debug, Clone, PartialEq, Eq)]
pub struct TxV1 {
    pub version: TxVersion,
    pub from: Address,
    pub nonce: Nonce,
    pub fee: Fee,
    pub payload: Vec<u8>,
    pub sig: SignatureBytes,
}

/// Mathematical model of a transaction: the fixed-width byte fields as
/// sequences, everything else as plain values.
pub ghost struct TxV1View {
    pub version: TxVersion,
    pub from: Seq<u8>,
    pub nonce: u64,
    pub fee: u64,
    pub payload: Seq<u8>,
    pub sig: Seq<u8>,
}

impl View for TxV1 {
    type V = TxV1View;

    open spec fn view(&self) -> TxV1View {
        TxV1View {
            version: self.version,
            from: self.from@,
            nonce: self.nonce,
            fee: self.fee,
            payload: self.payload@,
            sig: self.sig@,
        }
    }
}

/// Canonical V1 block header. Purely a record type: all digest fields are
/// fixed-width 32-byte values.
#[derive(Debug, Clone, PartialEq, Eq)]
pub struct BlockHeaderV1 {
    pub version: BlockHeaderVersion,
    pub height: u64,
    pub prev_hash: Hash32,
    pub state_root: Hash32,
    pub tx_root: Hash32,
    pub proposer: Address,
    pub qc_hash: Hash32,
}

/// Mathematical model of a block header.
pub ghost struct BlockHeaderV1View {
    pub version: BlockHeaderVersion,
    pub height: u64,
    pub prev_hash: Seq<u8>,
    pub state_root: Seq<u8>,
    pub tx_root: Seq<u8>,
    pub proposer: Seq<u8>,
    pub qc_hash: Seq<u8>,
}

impl View for BlockHeaderV1 {
    type V = BlockHeaderV1View;

    open spec fn view(&self) -> BlockHeaderV1View {
        BlockHeaderV1View {
            version: self.version,
            height: self.height,
            prev_hash: self.prev_hash@,
            state_root: self.state_root@,
            tx_root: self.tx_root@,
            proposer: self.proposer@,
            qc_hash: self.qc_hash@,
        }
    }
}

/// The all-zero signature field: what an unsigned decode synthesizes, and
/// what a freshly built, not yet signed transaction carries.
pub open spec fn zero_sig() -> Seq<u8> {
    Seq::new(64, |i: int| 0u8)
}

/// Build a not-yet-signed transaction over a payload, with an all-zero
/// signature field.
pub fn build_tx(from: Address, nonce: u64, fee: u64, payload: Vec<u8>) -> (r: TxV1)
    ensures
        r@ == (TxV1View {
            version: TxVersion::V1,
            from: from@,
            nonce,
            fee,
            payload: payload@,
            sig: zero_sig(),
        }),
{
    let sig: [u8; 64] = [0u8; 64];
    proof {
        assert(sig@ =~= zero_sig());
    }
    TxV1 { version: TxVersion::V1, from, nonce, fee, payload, sig }
}

} // verus!
