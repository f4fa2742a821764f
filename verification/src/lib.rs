//! A transaction admission and prioritization engine for a ledger-style
//! system: a canonical byte-exact codec for transactions and block headers, a
//! signature-authentication rule bound to that encoding, and a
//! policy-enforcing pending-transaction pool that admits, deduplicates, and
//! drains transactions in a deterministic priority order.

pub mod types;
pub mod codec;
pub mod crypto;
pub mod fifo;
pub mod hashing;
pub mod pool;
