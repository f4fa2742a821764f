//! The policy-enforcing transaction pool: admission checks in a fixed order,
//! deduplication by content-derived identifier, and deterministic
//! fee-priority draining with a per-sender fairness cap.

use vstd::prelude::*;
use crate::codec::{encode_tx_v1_unsigned, tx_unsigned_bytes, txid_v1};
use crate::crypto::{ed25519_verifies, pubkey_from_bytes, pubkey_parses, verify_bytes};
use crate::hashing::blake3_of;
use crate::types::{Address, TxId, TxV1, TxV1View};

verus! {

/// Supplies the expected next nonce for a sender address, as one consistent
/// snapshot of external account state for the duration of a call.
pub trait NonceProvider {
    /// The expected nonce as a function of the snapshot and the address.
    spec fn spec_expected_nonce(&self, from: Seq<u8>) -> u64;

    /// The current expected nonce for a sender address.
    fn expected_nonce(&self, from: &Address) -> (r: u64)
        ensures
            r == self.spec_expected_nonce(from@),
    ;
}

/// The nonce recorded for an address in an association list, taking the first
/// match from the front and defaulting to zero.
pub open spec fn nonce_lookup(s: Seq<(Address, u64)>, from: Seq<u8>) -> u64
    decreases s.len(),
{
    if s.len() == 0 {
        0u64
    } else if s[0].0@ == from {
        s[0].1
    } else {
        nonce_lookup(s.drop_first(), from)
    }
}

/// A nonce snapshot held in memory; a stub for the external account ledger,
/// usable by callers and tests.
pub struct InMemoryNonceProvider {
    entries: Vec<(Address, u64)>,
}

impl InMemoryNonceProvider {
    /// An empty snapshot: every address expects nonce zero.
    pub fn new() -> (r: Self)
        ensures
            forall|a: Seq<u8>| r.spec_expected_nonce(a) == 0u64,
    {
        InMemoryNonceProvider { entries: Vec::new() }
    }

    /// Record the expected nonce for an address, leaving every other address
    /// unchanged.
    pub fn set(&mut self, from: Address, nonce: u64)
        ensures
            final(self).spec_expected_nonce(from@) == nonce,
            forall|a: Seq<u8>|
                a != from@ ==> final(self).spec_expected_nonce(a) == old(
                    self,
                ).spec_expected_nonce(a),
    {
        self.entries.insert(0, (from, nonce));
        proof {
            assert(self.entries@.drop_first() =~= old(self).entries@);
        }
    }
}

impl NonceProvider for InMemoryNonceProvider {
    closed spec fn spec_expected_nonce(&self, from: Seq<u8>) -> u64 {
        nonce_lookup(self.entries@, from)
    }

    fn expected_nonce(&self, from: &Address) -> (r: u64) {
        let n = self.entries.len();
        let mut i: usize = 0;
        proof {
            assert(self.entries@.skip(0) =~= self.entries@);
        }
        while i < n
            invariant
                n == self.entries@.len(),
                i <= n,
                nonce_lookup(self.entries@, from@) == nonce_lookup(self.entries@.skip(i as int), from@),
            decreases n - i,
        {
            proof {
                assert(self.entries@.skip(i as int).drop_first() =~= self.entries@.skip(
                    i as int + 1,
                ));
            }
            if bytes32_eq(&self.entries[i].0, from) {
                return self.entries[i].1;
            }
            i += 1;
        }
        0
    }
}

/// Typed rejections of the policy pool; admission stops at the first failure.
#[derive(Debug, Clone, Copy, PartialEq, Eq, Structural)]
pub enum TxMempoolError {
    /// A transaction with the same identifier is already stored.
    Duplicate,
    /// The fee is below the configured floor.
    FeeTooLow { min_fee: u64, got: u64 },
    /// The nonce is behind the sender's expected nonce: definitely stale.
    NonceTooLow { expected: u64, got: u64 },
    /// The stored signature does not verify over the unsigned encoding.
    InvalidSignature,
    /// The sender address does not parse as an Ed25519 public key.
    InvalidPublicKey,
    /// Canonical bytes could not be derived for the transaction.
    CodecError,
}

/// Compare two 32-byte arrays for equality.
fn bytes32_eq(a: &[u8; 32], b: &[u8; 32]) -> (r: bool)
    ensures
        r == (a@ == b@),
{
    let mut i: usize = 0;
    while i < 32
        invariant
            i <= 32,
            forall|j: int| 0 <= j < i ==> a@[j] == b@[j],
        decreases 32 - i,
    {
        if a[i] != b[i] {
            return false;
        }
        i += 1;
    }
    proof {
        assert(a@ =~= b@);
    }
    true
}

/// A stored pool entry as the model sees it: the identifier bytes and the
/// transaction.
pub type PoolEntryView = (Seq<u8>, TxV1View);

/// Whether some stored entry carries this identifier.
pub open spec fn has_id(s: Seq<PoolEntryView>, id: Seq<u8>) -> bool {
    exists|i: int| 0 <= i < s.len() && s[i].0 == id
}

/// The position of the entry carrying this identifier (meaningful when
/// identifiers are distinct and the identifier is present).
pub open spec fn id_index(s: Seq<PoolEntryView>, id: Seq<u8>) -> int {
    choose|i: int| 0 <= i < s.len() && s[i].0 == id
}

/// No two stored entries share an identifier: the pool's core invariant.
pub open spec fn distinct_ids(s: Seq<PoolEntryView>) -> bool {
    forall|i: int, j: int| 0 <= i < j < s.len() ==> s[i].0 != s[j].0
}

/// A pool for canonical transactions, keyed by their content-derived
/// identifier. Its model is the stored sequence of (identifier, transaction)
/// pairs in insertion order; policy never depends on that order, only the
/// documented fee/identifier order does.
pub struct TxMempool {
    min_fee: u64,
    fairness_cap_per_sender: usize,
    entries: Vec<(TxId, TxV1)>,
}

impl View for TxMempool {
    type V = Seq<PoolEntryView>;

    closed spec fn view(&self) -> Seq<PoolEntryView> {
        self.entries@.map_values(|e: (TxId, TxV1)| (e.0@, e.1@))
    }
}

impl TxMempool {
    /// The fee floor the pool was built with.
    pub closed spec fn min_fee_spec(&self) -> u64 {
        self.min_fee
    }

    /// The per-drain, per-sender fairness cap the pool was built with,
    /// coerced to at least one.
    pub closed spec fn cap_spec(&self) -> usize {
        self.fairness_cap_per_sender
    }

    /// Well-formedness: identifiers are distinct, every stored identifier is
    /// the digest of its transaction's unsigned encoding, every stored
    /// payload fits the length prefix, and the cap is at least one.
    pub closed spec fn inv(&self) -> bool {
        &&& distinct_ids(self@)
        &&& forall|i: int|
            0 <= i < self@.len() ==> (#[trigger] self@[i]).0 == blake3_of(
                tx_unsigned_bytes(self@[i].1),
            )
        &&& forall|i: int| 0 <= i < self@.len() ==> (#[trigger] self@[i]).1.payload.len() <= u32::MAX
        &&& self.fairness_cap_per_sender >= 1
    }

    /// Create an empty pool with a fee floor and a fairness cap; a cap of
    /// zero is coerced to one.
    pub fn new(min_fee: u64, fairness_cap_per_sender: usize) -> (r: Self)
        ensures
            r.inv(),
            r@ == Seq::<PoolEntryView>::empty(),
            r.min_fee_spec() == min_fee,
            r.cap_spec() == if fairness_cap_per_sender == 0 {
                1usize
            } else {
                fairness_cap_per_sender
            },
    {
        let cap = if fairness_cap_per_sender == 0 {
            1
        } else {
            fairness_cap_per_sender
        };
        let r = TxMempool { min_fee, fairness_cap_per_sender: cap, entries: Vec::new() };
        proof {
            assert(r@ =~= Seq::<PoolEntryView>::empty());
        }
        r
    }

    /// Number of stored transactions.
    pub fn len(&self) -> (r: usize)
        ensures
            r == self@.len(),
    {
        self.entries.len()
    }

    /// True when nothing is stored.
    pub fn is_empty(&self) -> (r: bool)
        ensures
            r == (self@.len() == 0),
    {
        self.entries.len() == 0
    }

    /// The position of the entry with this identifier, if any.
    fn find(&self, id: &TxId) -> (r: Option<usize>)
        ensures
            match r {
                Some(i) => i < self@.len() && self@[i as int].0 == id@,
                None => !has_id(self@, id@),
            },
    {
        let n = self.entries.len();
        let mut i: usize = 0;
        while i < n
            invariant
                n == self@.len(),
                n == self.entries@.len(),
                i <= n,
                forall|j: int| 0 <= j < i ==> self@[j].0 != id@,
            decreases n - i,
        {
            if bytes32_eq(&self.entries[i].0, id) {
                return Some(i);
            }
            i += 1;
        }
        None
    }

    /// Whether a transaction with this identifier is currently stored.
    pub fn contains(&self, id: &TxId) -> (r: bool)
        ensures
            r == has_id(self@, id@),
    {
        self.find(id).is_some()
    }

    /// The stored transaction with this identifier, if any.
    pub fn get(&self, id: &TxId) -> (r: Option<&TxV1>)
        requires
            self.inv(),
        ensures
            match r {
                Some(tx) => has_id(self@, id@) && tx@ == self@[id_index(self@, id@)].1,
                None => !has_id(self@, id@),
            },
    {
        match self.find(id) {
            Some(i) => {
                proof {
                    let k = id_index(self@, id@);
                    assert(0 <= k < self@.len() && self@[k].0 == id@);
                    assert(k == i as int);
                }
                Some(&self.entries[i].1)
            },
            None => None,
        }
    }

    /// Remove the transaction with this identifier and hand it back; the rest
    /// of the pool keeps its order.
    pub fn remove(&mut self, id: &TxId) -> (r: Option<TxV1>)
        requires
            old(self).inv(),
        ensures
            final(self).inv(),
            final(self).min_fee_spec() == old(self).min_fee_spec(),
            final(self).cap_spec() == old(self).cap_spec(),
            match r {
                Some(tx) => {
                    &&& has_id(old(self)@, id@)
                    &&& tx@ == old(self)@[id_index(old(self)@, id@)].1
                    &&& final(self)@ == old(self)@.remove(id_index(old(self)@, id@))
                },
                None => !has_id(old(self)@, id@) && final(self)@ == old(self)@,
            },
    {
        match self.find(id) {
            Some(i) => {
                let entry = self.entries.remove(i);
                proof {
                    let k = id_index(old(self)@, id@);
                    assert(0 <= k < old(self)@.len() && old(self)@[k].0 == id@);
                    assert(k == i as int);
                    assert(self@ =~= old(self)@.remove(i as int));
                }
                Some(entry.1)
            },
            None => None,
        }
    }

    /// Admit a transaction after the fixed sequence of policy checks, in this
    /// order and stopping at the first failure: fee floor, nonce staleness,
    /// canonical bytes, sender key parse, strict signature verification over
    /// the unsigned encoding, and deduplication by identifier. On success the
    /// transaction is stored under its identifier, which is returned.
    ///
    /// The `from` field is read as the raw Ed25519 public-key bytes of the
    /// sender; see `address_from_pubkey` for the open question around that
    /// reading.
    pub fn insert<N: NonceProvider>(&mut self, tx: TxV1, nonce_provider: &N) -> (r: Result<
        TxId,
        TxMempoolError,
    >)
        requires
            old(self).inv(),
        ensures
            final(self).inv(),
            final(self).min_fee_spec() == old(self).min_fee_spec(),
            final(self).cap_spec() == old(self).cap_spec(),
            ({
                let expected = nonce_provider.spec_expected_nonce(tx.from@);
                let unsigned = tx_unsigned_bytes(tx@);
                let id = blake3_of(unsigned);
                if tx.fee < old(self).min_fee_spec() {
                    r == Err::<TxId, TxMempoolError>(
                        TxMempoolError::FeeTooLow { min_fee: old(self).min_fee_spec(), got: tx.fee },
                    ) && final(self)@ == old(self)@
                } else if tx.nonce < expected {
                    r == Err::<TxId, TxMempoolError>(
                        TxMempoolError::NonceTooLow { expected, got: tx.nonce },
                    ) && final(self)@ == old(self)@
                } else if tx.payload@.len() > u32::MAX {
                    r == Err::<TxId, TxMempoolError>(TxMempoolError::CodecError) && final(self)@
                        == old(self)@
                } else if !pubkey_parses(tx.from@) {
                    r == Err::<TxId, TxMempoolError>(TxMempoolError::InvalidPublicKey)
                        && final(self)@ == old(self)@
                } else if !ed25519_verifies(tx.from@, unsigned, tx.sig@) {
                    r == Err::<TxId, TxMempoolError>(TxMempoolError::InvalidSignature)
                        && final(self)@ == old(self)@
                } else if has_id(old(self)@, id) {
                    r == Err::<TxId, TxMempoolError>(TxMempoolError::Duplicate) && final(self)@
                        == old(self)@
                } else {
                    &&& r matches Ok(out) && out@ == id
                    &&& final(self)@ == old(self)@.push((id, tx@))
                }
            }),
    {
        if tx.fee < self.min_fee {
            return Err(TxMempoolError::FeeTooLow { min_fee: self.min_fee, got: tx.fee });
        }
        let expected = nonce_provider.expected_nonce(&tx.from);
        if tx.nonce < expected {
            return Err(TxMempoolError::NonceTooLow { expected, got: tx.nonce });
        }
        let unsigned = match encode_tx_v1_unsigned(&tx) {
            Ok(b) => b,
            Err(_) => {
                return Err(TxMempoolError::CodecError);
            },
        };
        let vk = match pubkey_from_bytes(&tx.from) {
            Ok(vk) => vk,
            Err(_) => {
                return Err(TxMempoolError::InvalidPublicKey);
            },
        };
        if !verify_bytes(&vk, unsigned.as_slice(), &tx.sig) {
            return Err(TxMempoolError::InvalidSignature);
        }
        let id = match txid_v1(&tx) {
            Ok(id) => id,
            Err(_) => {
                return Err(TxMempoolError::CodecError);
            },
        };
        if self.find(&id).is_some() {
            return Err(TxMempoolError::Duplicate);
        }
        self.entries.push((id, tx));
        proof {
            assert(self@ =~= old(self)@.push((id@, tx@)));
            assert forall|i: int, j: int| 0 <= i < j < self@.len() implies self@[i].0
                != self@[j].0 by {
                if j < self@.len() - 1 {
                    assert(old(self)@[i].0 != old(self)@[j].0);
                } else {
                    assert(old(self)@[i].0 != id@);
                }
            }
        }
        Ok(id)
    }
}

/// A drain candidate as the model sees it: fee, identifier, sender.
pub type CandView = (u64, Seq<u8>, Seq<u8>);

/// A stored entry is ready when its nonce equals the snapshot's expected
/// nonce for its sender, exactly; one that is ahead stays queued.
pub open spec fn is_ready<N: NonceProvider>(np: &N, e: PoolEntryView) -> bool {
    e.1.nonce == np.spec_expected_nonce(e.1.from)
}

/// The candidate record of a stored entry.
pub open spec fn cand_of(e: PoolEntryView) -> CandView {
    (e.1.fee, e.0, e.1.from)
}

/// The ready candidates of a stored sequence, in storage order.
pub open spec fn ready_cands<N: NonceProvider>(s: Seq<PoolEntryView>, np: &N) -> Seq<CandView>
    decreases s.len(),
{
    if s.len() == 0 {
        Seq::empty()
    } else {
        ready_cands(s.drop_last(), np) + (if is_ready(np, s.last()) {
            seq![cand_of(s.last())]
        } else {
            Seq::<CandView>::empty()
        })
    }
}

/// Strict lexicographic order on byte strings, read from the front; on equal
/// lengths this is the usual total order on fixed-width identifiers.
pub open spec fn lex_lt(x: Seq<u8>, y: Seq<u8>) -> bool
    decreases x.len(),
{
    if x.len() == 0 || y.len() == 0 {
        false
    } else if x[0] < y[0] {
        true
    } else if x[0] > y[0] {
        false
    } else {
        lex_lt(x.drop_first(), y.drop_first())
    }
}

/// The drain priority: fee descending, ties broken by identifier ascending —
/// a fixed, total, content-derived order.
pub open spec fn cand_lt(a: CandView, b: CandView) -> bool {
    a.0 > b.0 || (a.0 == b.0 && lex_lt(a.1, b.1))
}

/// Insert a candidate into a priority-ordered sequence, before the first
/// candidate it outranks.
pub open spec fn insert_sorted(c: CandView, s: Seq<CandView>) -> Seq<CandView>
    decreases s.len(),
{
    if s.len() == 0 {
        seq![c]
    } else if cand_lt(c, s[0]) {
        seq![c] + s
    } else {
        seq![s[0]] + insert_sorted(c, s.drop_first())
    }
}

/// Sort candidates by the drain priority, one insertion at a time.
pub open spec fn sort_cands(s: Seq<CandView>) -> Seq<CandView>
    decreases s.len(),
{
    if s.len() == 0 {
        Seq::empty()
    } else {
        insert_sorted(s.last(), sort_cands(s.drop_last()))
    }
}

/// The per-sender tally within one selection, defaulting to zero.
pub open spec fn count_of(m: Map<Seq<u8>, int>, sender: Seq<u8>) -> int {
    if m.dom().contains(sender) {
        m[sender]
    } else {
        0
    }
}

/// Greedy selection from a priority-ordered candidate sequence: take in
/// order, at most `remaining` in all, skipping — not deferring — any
/// candidate whose sender has already reached the cap in this selection.
pub open spec fn select_cands(
    s: Seq<CandView>,
    remaining: int,
    cap: int,
    m: Map<Seq<u8>, int>,
) -> Seq<CandView>
    decreases s.len(),
{
    if s.len() == 0 || remaining <= 0 {
        Seq::empty()
    } else {
        let c = s[0];
        if count_of(m, c.2) >= cap {
            select_cands(s.drop_first(), remaining, cap, m)
        } else {
            seq![c] + select_cands(
                s.drop_first(),
                remaining - 1,
                cap,
                m.insert(c.2, count_of(m, c.2) + 1),
            )
        }
    }
}

/// What one drain call selects, as candidate records: the ready entries,
/// ordered by fee descending then identifier ascending, taken greedily under
/// the per-sender fairness cap.
pub open spec fn drain_selection<N: NonceProvider>(
    s: Seq<PoolEntryView>,
    np: &N,
    max: int,
    cap: int,
) -> Seq<CandView> {
    select_cands(sort_cands(ready_cands(s, np)), max, cap, Map::empty())
}

/// The identifiers of a candidate sequence, in order.
pub open spec fn cand_ids(sel: Seq<CandView>) -> Seq<Seq<u8>> {
    sel.map_values(|c: CandView| c.1)
}

/// Remove the entry with this identifier, if present, keeping the order of
/// the rest.
pub open spec fn remove_id(s: Seq<PoolEntryView>, id: Seq<u8>) -> Seq<PoolEntryView> {
    if has_id(s, id) {
        s.remove(id_index(s, id))
    } else {
        s
    }
}

/// Remove the listed identifiers one after the other, keeping the order of
/// the rest.
pub open spec fn without_ids(s: Seq<PoolEntryView>, ids: Seq<Seq<u8>>) -> Seq<PoolEntryView>
    decreases ids.len(),
{
    if ids.len() == 0 {
        s
    } else {
        without_ids(remove_id(s, ids[0]), ids.drop_first())
    }
}

/// Whether some candidate carries this identifier.
pub open spec fn has_cid(s: Seq<CandView>, id: Seq<u8>) -> bool {
    exists|i: int| 0 <= i < s.len() && s[i].1 == id
}

/// No two candidates share an identifier.
pub open spec fn no_dup_cids(s: Seq<CandView>) -> bool {
    forall|i: int, j: int| 0 <= i < j < s.len() ==> s[i].1 != s[j].1
}

proof fn lemma_has_cid_concat(a: Seq<CandView>, b: Seq<CandView>, id: Seq<u8>)
    ensures
        has_cid(a + b, id) <==> has_cid(a, id) || has_cid(b, id),
{
    if has_cid(a, id) {
        let i = choose|i: int| 0 <= i < a.len() && a[i].1 == id;
        assert((a + b)[i].1 == id);
    }
    if has_cid(b, id) {
        let i = choose|i: int| 0 <= i < b.len() && b[i].1 == id;
        assert((a + b)[a.len() + i].1 == id);
    }
    if has_cid(a + b, id) {
        let i = choose|i: int| 0 <= i < (a + b).len() && (a + b)[i].1 == id;
        if i < a.len() {
            assert(a[i].1 == id);
        } else {
            assert(b[i - a.len()].1 == id);
        }
    }
}

/// Every candidate identifier comes from a stored entry, and distinct stored
/// identifiers give distinct candidate identifiers.
proof fn lemma_ready_cands_ids<N: NonceProvider>(s: Seq<PoolEntryView>, np: &N)
    ensures
        forall|id: Seq<u8>| #[trigger] has_cid(ready_cands(s, np), id) ==> has_id(s, id),
        distinct_ids(s) ==> no_dup_cids(ready_cands(s, np)),
    decreases s.len(),
{
    if s.len() == 0 {
    } else {
        let prefix = s.drop_last();
        lemma_ready_cands_ids(prefix, np);
        let tail: Seq<CandView> = if is_ready(np, s.last()) {
            seq![cand_of(s.last())]
        } else {
            Seq::empty()
        };
        let rc = ready_cands(s, np);
        assert(rc == ready_cands(prefix, np) + tail);
        assert forall|id: Seq<u8>| #[trigger] has_cid(rc, id) implies has_id(s, id) by {
            lemma_has_cid_concat(ready_cands(prefix, np), tail, id);
            if has_cid(ready_cands(prefix, np), id) {
                assert(has_id(prefix, id));
                let i = choose|i: int| 0 <= i < prefix.len() && prefix[i].0 == id;
                assert(s[i].0 == id);
            } else {
                assert(tail[0].1 == id);
                assert(s[s.len() - 1].0 == id);
            }
        }
        if distinct_ids(s) {
            assert(distinct_ids(prefix)) by {
                assert forall|i: int, j: int|
                    0 <= i < j < prefix.len() implies prefix[i].0 != prefix[j].0 by {
                    assert(s[i].0 != s[j].0);
                }
            }
            assert forall|i: int, j: int| 0 <= i < j < rc.len() implies rc[i].1 != rc[j].1 by {
                let pc = ready_cands(prefix, np);
                if j < pc.len() {
                    assert(pc[i].1 != pc[j].1);
                } else {
                    assert(rc[j] == cand_of(s.last()));
                    assert(rc[i] == pc[i]);
                    assert(has_cid(pc, pc[i].1));
                    assert(has_id(prefix, rc[i].1));
                    let k = choose|k: int| 0 <= k < prefix.len() && prefix[k].0 == rc[i].1;
                    assert(s[k].0 != s[s.len() - 1].0);
                }
            }
        }
    }
}

/// Inserting into a priority-ordered sequence adds exactly that candidate.
proof fn lemma_insert_sorted_cids(c: CandView, s: Seq<CandView>)
    ensures
        insert_sorted(c, s).len() == s.len() + 1,
        forall|id: Seq<u8>| #[trigger]
            has_cid(insert_sorted(c, s), id) <==> (id == c.1 || has_cid(s, id)),
        (no_dup_cids(s) && !has_cid(s, c.1)) ==> no_dup_cids(insert_sorted(c, s)),
    decreases s.len(),
{
    if s.len() == 0 {
        assert forall|id: Seq<u8>| #[trigger]
            has_cid(insert_sorted(c, s), id) <==> (id == c.1 || has_cid(s, id)) by {
            assert(insert_sorted(c, s)[0] == c);
        }
    } else if cand_lt(c, s[0]) {
        assert(insert_sorted(c, s) == seq![c] + s);
        assert forall|id: Seq<u8>| #[trigger]
            has_cid(insert_sorted(c, s), id) <==> (id == c.1 || has_cid(s, id)) by {
            lemma_has_cid_concat(seq![c], s, id);
            assert(has_cid(seq![c], id) <==> id == c.1) by {
                if has_cid(seq![c], id) {
                    assert(seq![c][0].1 == id);
                }
                if id == c.1 {
                    assert(seq![c][0].1 == id);
                }
            }
        }
        if no_dup_cids(s) && !has_cid(s, c.1) {
            let r = insert_sorted(c, s);
            assert forall|i: int, j: int| 0 <= i < j < r.len() implies r[i].1 != r[j].1 by {
                if i == 0 {
                    assert(r[j] == s[j - 1]);
                    assert(s[j - 1].1 != c.1);
                } else {
                    assert(r[i] == s[i - 1] && r[j] == s[j - 1]);
                }
            }
        }
    } else {
        let rest = s.drop_first();
        lemma_insert_sorted_cids(c, rest);
        let r = insert_sorted(c, s);
        assert(r == seq![s[0]] + insert_sorted(c, rest));
        assert forall|id: Seq<u8>| #[trigger]
            has_cid(r, id) <==> (id == c.1 || has_cid(s, id)) by {
            lemma_has_cid_concat(seq![s[0]], insert_sorted(c, rest), id);
            assert(has_cid(seq![s[0]], id) <==> id == s[0].1) by {
                if has_cid(seq![s[0]], id) {
                    assert(seq![s[0]][0].1 == id);
                }
                if id == s[0].1 {
                    assert(seq![s[0]][0].1 == id);
                }
            }
            assert(has_cid(s, id) <==> (id == s[0].1 || has_cid(rest, id))) by {
                if has_cid(s, id) {
                    let i = choose|i: int| 0 <= i < s.len() && s[i].1 == id;
                    if i > 0 {
                        assert(rest[i - 1].1 == id);
                    }
                }
                if id == s[0].1 {
                    assert(s[0].1 == id);
                }
                if has_cid(rest, id) {
                    let i = choose|i: int| 0 <= i < rest.len() && rest[i].1 == id;
                    assert(s[i + 1].1 == id);
                }
            }
        }
        if no_dup_cids(s) && !has_cid(s, c.1) {
            assert(no_dup_cids(rest)) by {
                assert forall|i: int, j: int|
                    0 <= i < j < rest.len() implies rest[i].1 != rest[j].1 by {
                    assert(s[i + 1].1 != s[j + 1].1);
                }
            }
            assert(!has_cid(rest, c.1)) by {
                if has_cid(rest, c.1) {
                    let i = choose|i: int| 0 <= i < rest.len() && rest[i].1 == c.1;
                    assert(s[i + 1].1 == c.1);
                }
            }
            let ri = insert_sorted(c, rest);
            assert forall|i: int, j: int| 0 <= i < j < r.len() implies r[i].1 != r[j].1 by {
                if i == 0 {
                    assert(r[j] == ri[j - 1]);
                    assert(has_cid(ri, ri[j - 1].1));
                    assert(ri[j - 1].1 == c.1 || has_cid(rest, ri[j - 1].1));
                    if ri[j - 1].1 == c.1 {
                        assert(s[0].1 != c.1) by {
                            if s[0].1 == c.1 {
                                assert(has_cid(s, c.1));
                            }
                        }
                    } else {
                        let k = choose|k: int| 0 <= k < rest.len() && rest[k].1 == ri[j - 1].1;
                        assert(s[k + 1].1 == ri[j - 1].1);
                        assert(s[0].1 != s[k + 1].1);
                    }
                } else {
                    assert(r[i] == ri[i - 1] && r[j] == ri[j - 1]);
                }
            }
        }
    }
}

/// Sorting permutes the candidate identifiers: none appears or disappears,
/// and distinctness is kept.
proof fn lemma_sort_cands_cids(s: Seq<CandView>)
    ensures
        sort_cands(s).len() == s.len(),
        forall|id: Seq<u8>| #[trigger] has_cid(sort_cands(s), id) <==> has_cid(s, id),
        no_dup_cids(s) ==> no_dup_cids(sort_cands(s)),
    decreases s.len(),
{
    if s.len() == 0 {
    } else {
        let prefix = s.drop_last();
        lemma_sort_cands_cids(prefix);
        lemma_insert_sorted_cids(s.last(), sort_cands(prefix));
        assert forall|id: Seq<u8>| #[trigger] has_cid(sort_cands(s), id) <==> has_cid(s, id) by {
            assert(has_cid(s, id) <==> (id == s.last().1 || has_cid(prefix, id))) by {
                if has_cid(s, id) {
                    let i = choose|i: int| 0 <= i < s.len() && s[i].1 == id;
                    if i < s.len() - 1 {
                        assert(prefix[i].1 == id);
                    }
                }
                if id == s.last().1 {
                    assert(s[s.len() - 1].1 == id);
                }
                if has_cid(prefix, id) {
                    let i = choose|i: int| 0 <= i < prefix.len() && prefix[i].1 == id;
                    assert(s[i].1 == id);
                }
            }
        }
        if no_dup_cids(s) {
            assert(no_dup_cids(prefix)) by {
                assert forall|i: int, j: int|
                    0 <= i < j < prefix.len() implies prefix[i].1 != prefix[j].1 by {
                    assert(s[i].1 != s[j].1);
                }
            }
            assert(!has_cid(sort_cands(prefix), s.last().1)) by {
                if has_cid(sort_cands(prefix), s.last().1) {
                    assert(has_cid(prefix, s.last().1));
                    let i = choose|i: int| 0 <= i < prefix.len() && prefix[i].1 == s.last().1;
                    assert(s[i].1 != s[s.len() - 1].1);
                }
            }
        }
    }
}

/// Selection takes a subsequence: every selected identifier was a candidate,
/// and distinctness is kept.
proof fn lemma_select_cands_sub(s: Seq<CandView>, remaining: int, cap: int, m: Map<Seq<u8>, int>)
    ensures
        forall|id: Seq<u8>| #[trigger]
            has_cid(select_cands(s, remaining, cap, m), id) ==> has_cid(s, id),
        no_dup_cids(s) ==> no_dup_cids(select_cands(s, remaining, cap, m)),
    decreases s.len(),
{
    if s.len() == 0 || remaining <= 0 {
    } else {
        let c = s[0];
        let rest = s.drop_first();
        assert(forall|id: Seq<u8>| #[trigger] has_cid(rest, id) ==> has_cid(s, id)) by {
            assert forall|id: Seq<u8>| #[trigger] has_cid(rest, id) implies has_cid(s, id) by {
                let i = choose|i: int| 0 <= i < rest.len() && rest[i].1 == id;
                assert(s[i + 1].1 == id);
            }
        }
        assert(no_dup_cids(s) ==> no_dup_cids(rest)) by {
            if no_dup_cids(s) {
                assert forall|i: int, j: int|
                    0 <= i < j < rest.len() implies rest[i].1 != rest[j].1 by {
                    assert(s[i + 1].1 != s[j + 1].1);
                }
            }
        }
        if count_of(m, c.2) >= cap {
            lemma_select_cands_sub(rest, remaining, cap, m);
            let sel = select_cands(s, remaining, cap, m);
            assert(sel == select_cands(rest, remaining, cap, m));
            assert forall|id: Seq<u8>| #[trigger] has_cid(sel, id) implies has_cid(s, id) by {
                assert(has_cid(select_cands(rest, remaining, cap, m), id));
            }
        } else {
            let m2 = m.insert(c.2, count_of(m, c.2) + 1);
            lemma_select_cands_sub(rest, remaining - 1, cap, m2);
            let sub = select_cands(rest, remaining - 1, cap, m2);
            let sel = select_cands(s, remaining, cap, m);
            assert(sel == seq![c] + sub);
            assert forall|id: Seq<u8>| #[trigger] has_cid(sel, id) implies has_cid(s, id) by {
                lemma_has_cid_concat(seq![c], sub, id);
                if has_cid(seq![c], id) {
                    assert(seq![c][0].1 == id);
                    assert(s[0].1 == id);
                }
            }
            if no_dup_cids(s) {
                assert(!has_cid(rest, c.1)) by {
                    if has_cid(rest, c.1) {
                        let i = choose|i: int| 0 <= i < rest.len() && rest[i].1 == c.1;
                        assert(s[0].1 != s[i + 1].1);
                    }
                }
                assert forall|i: int, j: int| 0 <= i < j < sel.len() implies sel[i].1
                    != sel[j].1 by {
                    if i == 0 {
                        assert(sel[j] == sub[j - 1]);
                        assert(has_cid(sub, sub[j - 1].1));
                        assert(has_cid(rest, sub[j - 1].1));
                    } else {
                        assert(sel[i] == sub[i - 1] && sel[j] == sub[j - 1]);
                    }
                }
            }
        }
    }
}

/// Removing one identifier leaves every other identifier's presence alone.
proof fn lemma_remove_id_other(s: Seq<PoolEntryView>, y: Seq<u8>, x: Seq<u8>)
    requires
        x != y,
    ensures
        has_id(remove_id(s, y), x) == has_id(s, x),
{
    if has_id(s, y) {
        let k = id_index(s, y);
        assert(0 <= k < s.len() && s[k].0 == y);
        let r = s.remove(k);
        if has_id(s, x) {
            let i = choose|i: int| 0 <= i < s.len() && s[i].0 == x;
            if i < k {
                assert(r[i].0 == x);
            } else {
                assert(i != k);
                assert(r[i - 1].0 == x);
            }
        }
        if has_id(r, x) {
            let j = choose|j: int| 0 <= j < r.len() && r[j].0 == x;
            if j < k {
                assert(s[j].0 == x);
            } else {
                assert(s[j + 1].0 == x);
            }
        }
    }
}

/// Removing a list of identifiers leaves any identifier outside the list
/// alone.
proof fn lemma_without_ids_has(s: Seq<PoolEntryView>, ids: Seq<Seq<u8>>, x: Seq<u8>)
    requires
        !ids.contains(x),
    ensures
        has_id(without_ids(s, ids), x) == has_id(s, x),
    decreases ids.len(),
{
    if ids.len() == 0 {
    } else {
        assert(ids[0] != x);
        lemma_remove_id_other(s, ids[0], x);
        assert(!ids.drop_first().contains(x)) by {
            if ids.drop_first().contains(x) {
                let i = choose|i: int| 0 <= i < ids.drop_first().len() && ids.drop_first()[i] == x;
                assert(ids[i + 1] == x);
            }
        }
        lemma_without_ids_has(remove_id(s, ids[0]), ids.drop_first(), x);
    }
}

/// Removing one more identifier is removing it after the rest.
proof fn lemma_without_ids_push(s: Seq<PoolEntryView>, ids: Seq<Seq<u8>>, x: Seq<u8>)
    ensures
        without_ids(s, ids.push(x)) == remove_id(without_ids(s, ids), x),
    decreases ids.len(),
{
    if ids.len() == 0 {
        assert(ids.push(x)[0] == x);
        assert(ids.push(x).drop_first() =~= Seq::<Seq<u8>>::empty());
        assert(without_ids(s, ids.push(x)) == without_ids(
            remove_id(s, x),
            ids.push(x).drop_first(),
        ));
        assert(without_ids(remove_id(s, x), ids.push(x).drop_first()) == remove_id(s, x));
        assert(without_ids(s, ids) == s);
    } else {
        assert(ids.push(x)[0] == ids[0]);
        assert(ids.push(x).drop_first() =~= ids.drop_first().push(x));
        lemma_without_ids_push(remove_id(s, ids[0]), ids.drop_first(), x);
        assert(without_ids(s, ids.push(x)) == without_ids(
            remove_id(s, ids[0]),
            ids.drop_first().push(x),
        ));
        assert(without_ids(s, ids) == without_ids(remove_id(s, ids[0]), ids.drop_first()));
    }
}

/// A drain candidate: the fields the ordering needs, copied from an entry.
#[derive(Clone, Copy)]
struct Cand {
    fee: u64,
    id: TxId,
    from: Address,
}

/// The model of an exec candidate.
spec fn cand_view(c: Cand) -> CandView {
    (c.fee, c.id@, c.from@)
}

/// Compare two identifiers in ascending lexicographic order.
fn id_lt(a: &TxId, b: &TxId) -> (r: bool)
    ensures
        r == lex_lt(a@, b@),
{
    let mut i: usize = 0;
    proof {
        assert(a@.skip(0) =~= a@);
        assert(b@.skip(0) =~= b@);
    }
    while i < 32
        invariant
            i <= 32,
            lex_lt(a@, b@) == lex_lt(a@.skip(i as int), b@.skip(i as int)),
        decreases 32 - i,
    {
        proof {
            assert(a@.skip(i as int).drop_first() =~= a@.skip(i as int + 1));
            assert(b@.skip(i as int).drop_first() =~= b@.skip(i as int + 1));
        }
        if a[i] < b[i] {
            return true;
        }
        if a[i] > b[i] {
            return false;
        }
        i += 1;
    }
    false
}

/// Compare two candidates in the drain priority order.
fn cand_lt_exec(a: &Cand, b: &Cand) -> (r: bool)
    ensures
        r == cand_lt(cand_view(*a), cand_view(*b)),
{
    if a.fee > b.fee {
        true
    } else if a.fee < b.fee {
        false
    } else {
        id_lt(&a.id, &b.id)
    }
}

/// The tally recorded for a sender in an association list, taking the first
/// match from the front and defaulting to zero.
spec fn count_lookup(s: Seq<(Address, usize)>, k: Seq<u8>) -> int
    decreases s.len(),
{
    if s.len() == 0 {
        0int
    } else if s[0].0@ == k {
        s[0].1 as int
    } else {
        count_lookup(s.drop_first(), k)
    }
}

/// Read a sender's tally from the association list.
fn counts_get(counts: &Vec<(Address, usize)>, from: &Address) -> (r: usize)
    ensures
        r as int == count_lookup(counts@, from@),
{
    let n = counts.len();
    let mut i: usize = 0;
    proof {
        assert(counts@.skip(0) =~= counts@);
    }
    while i < n
        invariant
            n == counts@.len(),
            i <= n,
            count_lookup(counts@, from@) == count_lookup(counts@.skip(i as int), from@),
        decreases n - i,
    {
        proof {
            assert(counts@.skip(i as int).drop_first() =~= counts@.skip(i as int + 1));
        }
        if bytes32_eq(&counts[i].0, from) {
            return counts[i].1;
        }
        i += 1;
    }
    0
}

impl TxMempool {
    /// Drain up to `max` ready transactions under fee priority and the
    /// per-sender fairness cap: the ready entries, ordered by fee descending
    /// then identifier ascending, are taken greedily, skipping any candidate
    /// whose sender has reached the cap within this one call; exactly the
    /// selected transactions leave the pool and are returned in selection
    /// order. The cap does not persist across calls.
    pub fn drain_ready<N: NonceProvider>(&mut self, max: usize, nonce_provider: &N) -> (r: Vec<
        TxV1,
    >)
        requires
            old(self).inv(),
        ensures
            final(self).inv(),
            final(self).min_fee_spec() == old(self).min_fee_spec(),
            final(self).cap_spec() == old(self).cap_spec(),
            ({
                let sel = drain_selection(
                    old(self)@,
                    nonce_provider,
                    max as int,
                    old(self).cap_spec() as int,
                );
                &&& r@.len() == sel.len()
                &&& forall|i: int|
                    0 <= i < sel.len() ==> #[trigger] old(self)@.contains((sel[i].1, r@[i]@))
                &&& forall|i: int|
                    0 <= i < sel.len() ==> r@[i]@ == old(self)@[id_index(
                        old(self)@,
                        #[trigger] sel[i].1,
                    )].1
                &&& final(self)@ == without_ids(old(self)@, cand_ids(sel))
            }),
    {
        let ghost s0 = self@;

        // Gather the ready candidates in storage order.
        let n = self.entries.len();
        let mut cands: Vec<Cand> = Vec::new();
        let mut i: usize = 0;
        proof {
            assert(s0.take(0) =~= Seq::<PoolEntryView>::empty());
        }
        while i < n
            invariant
                old(self).inv(),
                self == old(self),
                s0 == self@,
                n == self.entries@.len(),
                i <= n,
                cands@.map_values(|c: Cand| cand_view(c)) == ready_cands(
                    s0.take(i as int),
                    nonce_provider,
                ),
            decreases n - i,
        {
            proof {
                assert(s0[i as int] == (self.entries@[i as int].0@, self.entries@[i as int].1@));
                assert(s0.take(i as int + 1).drop_last() =~= s0.take(i as int));
                assert(s0.take(i as int + 1).last() == s0[i as int]);
            }
            let expected = nonce_provider.expected_nonce(&self.entries[i].1.from);
            if self.entries[i].1.nonce == expected {
                let c = Cand {
                    fee: self.entries[i].1.fee,
                    id: self.entries[i].0,
                    from: self.entries[i].1.from,
                };
                cands.push(c);
                proof {
                    assert(cands@.map_values(|c: Cand| cand_view(c)) =~= ready_cands(
                        s0.take(i as int + 1),
                        nonce_provider,
                    ));
                }
            } else {
                proof {
                    assert(cands@.map_values(|c: Cand| cand_view(c)) =~= ready_cands(
                        s0.take(i as int + 1),
                        nonce_provider,
                    ));
                }
            }
            i += 1;
        }
        proof {
            assert(s0.take(n as int) =~= s0);
        }
        let ghost cv = cands@.map_values(|c: Cand| cand_view(c));

        // Sort by fee descending, identifier ascending.
        let mut sorted: Vec<Cand> = Vec::new();
        let mut k: usize = 0;
        proof {
            assert(cv.take(0) =~= Seq::<CandView>::empty());
        }
        while k < cands.len()
            invariant
                old(self).inv(),
                self == old(self),
                s0 == self@,
                k <= cands@.len(),
                cv == cands@.map_values(|c: Cand| cand_view(c)),
                cv == ready_cands(s0, nonce_provider),
                sorted@.map_values(|c: Cand| cand_view(c)) == sort_cands(cv.take(k as int)),
            decreases cands@.len() - k,
        {
            let c = cands[k];
            let ghost sv = sorted@.map_values(|c: Cand| cand_view(c));
            let mut j: usize = 0;
            proof {
                assert(sv.take(0) =~= Seq::<CandView>::empty());
                assert(sv.skip(0) =~= sv);
                assert(Seq::<CandView>::empty() + insert_sorted(cand_view(c), sv) =~= insert_sorted(
                    cand_view(c),
                    sv,
                ));
            }
            while j < sorted.len() && !cand_lt_exec(&c, &sorted[j])
                invariant
                    j <= sorted@.len(),
                    sv == sorted@.map_values(|c2: Cand| cand_view(c2)),
                    insert_sorted(cand_view(c), sv) == sv.take(j as int) + insert_sorted(
                        cand_view(c),
                        sv.skip(j as int),
                    ),
                decreases sorted@.len() - j,
            {
                proof {
                    assert(sv.skip(j as int)[0] == sv[j as int]);
                    assert(sv[j as int] == cand_view(sorted@[j as int]));
                    assert(sv.skip(j as int).drop_first() =~= sv.skip(j as int + 1));
                    assert(insert_sorted(cand_view(c), sv.skip(j as int)) == seq![sv[j as int]]
                        + insert_sorted(cand_view(c), sv.skip(j as int + 1)));
                    assert(sv.take(j as int).push(sv[j as int]) =~= sv.take(j as int + 1));
                    assert(sv.take(j as int) + (seq![sv[j as int]] + insert_sorted(
                        cand_view(c),
                        sv.skip(j as int + 1),
                    )) =~= sv.take(j as int + 1) + insert_sorted(
                        cand_view(c),
                        sv.skip(j as int + 1),
                    ));
                }
                j += 1;
            }
            proof {
                if j == sorted@.len() {
                    assert(sv.skip(j as int) =~= Seq::<CandView>::empty());
                    assert(insert_sorted(cand_view(c), sv.skip(j as int)) == seq![cand_view(c)]);
                } else {
                    assert(sv.skip(j as int)[0] == sv[j as int]);
                    assert(cand_lt(cand_view(c), sv[j as int]));
                    assert(insert_sorted(cand_view(c), sv.skip(j as int)) == seq![cand_view(c)]
                        + sv.skip(j as int));
                }
            }
            sorted.insert(j, c);
            proof {
                assert(sorted@.map_values(|c2: Cand| cand_view(c2)) =~= sv.take(j as int) + (
                seq![cand_view(c)] + sv.skip(j as int)));
                assert(sv.take(j as int) + (seq![cand_view(c)] + sv.skip(j as int)) =~= sv.take(
                    j as int,
                ) + insert_sorted(cand_view(c), sv.skip(j as int)));
                assert(cv.take(k as int + 1).drop_last() =~= cv.take(k as int));
                assert(cv.take(k as int + 1).last() == cv[k as int]);
                assert(cv[k as int] == cand_view(cands@[k as int]));
                assert(sort_cands(cv.take(k as int + 1)) == insert_sorted(
                    cand_view(c),
                    sort_cands(cv.take(k as int)),
                ));
            }
            k += 1;
        }
        proof {
            assert(cv.take(cands@.len() as int) =~= cv);
        }
        let ghost sorted_v = sorted@.map_values(|c: Cand| cand_view(c));

        // Select greedily under the per-sender cap.
        let ghost sel = select_cands(
            sorted_v,
            max as int,
            self.fairness_cap_per_sender as int,
            Map::<Seq<u8>, int>::empty(),
        );
        let mut selected: Vec<Cand> = Vec::new();
        let mut counts: Vec<(Address, usize)> = Vec::new();
        let ghost mut m = Map::<Seq<u8>, int>::empty();
        let mut t: usize = 0;
        proof {
            assert(sorted_v.skip(0) =~= sorted_v);
            assert(Seq::<CandView>::empty() + select_cands(
                sorted_v,
                max as int,
                self.fairness_cap_per_sender as int,
                m,
            ) =~= sel);
        }
        while t < sorted.len() && selected.len() < max
            invariant
                old(self).inv(),
                self == old(self),
                s0 == self@,
                t <= sorted@.len(),
                selected@.len() <= max,
                sorted_v == sorted@.map_values(|c: Cand| cand_view(c)),
                sel == select_cands(
                    sorted_v,
                    max as int,
                    self.fairness_cap_per_sender as int,
                    Map::<Seq<u8>, int>::empty(),
                ),
                forall|k2: Seq<u8>| count_of(m, k2) == count_lookup(counts@, k2),
                selected@.map_values(|c: Cand| cand_view(c)) + select_cands(
                    sorted_v.skip(t as int),
                    max as int - selected@.len() as int,
                    self.fairness_cap_per_sender as int,
                    m,
                ) == sel,
            decreases sorted@.len() - t,
    {
            let c = sorted[t];
            proof {
                assert(sorted_v.skip(t as int)[0] == sorted_v[t as int]);
                assert(sorted_v[t as int] == cand_view(sorted@[t as int]));
                assert(sorted_v.skip(t as int).drop_first() =~= sorted_v.skip(t as int + 1));
            }
            let cur = counts_get(&counts, &c.from);
            if cur >= self.fairness_cap_per_sender {
                proof {
                    assert(count_of(m, sorted_v[t as int].2) >= self.fairness_cap_per_sender as int);
                    assert(select_cands(
                        sorted_v.skip(t as int),
                        max as int - selected@.len() as int,
                        self.fairness_cap_per_sender as int,
                        m,
                    ) == select_cands(
                        sorted_v.skip(t as int + 1),
                        max as int - selected@.len() as int,
                        self.fairness_cap_per_sender as int,
                        m,
                    ));
                }
            } else {
                let ghost counts_pre = counts@;
                let ghost m_pre = m;
                counts.insert(0, (c.from, cur + 1));
                proof {
                    m = m.insert(c.from@, cur as int + 1);
                    assert(counts@ == counts_pre.insert(0, (c.from, (cur + 1) as usize)));
                    assert(counts@[0] == (c.from, (cur + 1) as usize));
                    assert(counts@.len() == counts_pre.len() + 1);
                    assert(counts@.drop_first() =~= counts_pre);
                    assert forall|k2: Seq<u8>| count_of(m, k2) == count_lookup(counts@, k2) by {
                        if k2 == c.from@ {
                            assert(counts@[0].0@ == k2);
                            assert(count_lookup(counts@, k2) == counts@[0].1 as int);
                            assert(count_of(m, k2) == cur as int + 1);
                        } else {
                            assert(counts@[0].0@ != k2);
                            assert(count_lookup(counts@, k2) == count_lookup(
                                counts@.drop_first(),
                                k2,
                            ));
                            assert(count_of(m_pre, k2) == count_lookup(counts_pre, k2));
                            assert(count_of(m, k2) == count_of(m_pre, k2));
                        }
                    }
                    assert(select_cands(
                        sorted_v.skip(t as int),
                        max as int - selected@.len() as int,
                        self.fairness_cap_per_sender as int,
                        m_pre,
                    ) == seq![sorted_v[t as int]] + select_cands(
                        sorted_v.skip(t as int + 1),
                        max as int - selected@.len() as int - 1,
                        self.fairness_cap_per_sender as int,
                        m,
                    ));
                }
                let ghost selected_pre = selected@;
                selected.push(c);
                proof {
                    assert(selected@.map_values(|c2: Cand| cand_view(c2)) =~= selected_pre
                        .map_values(|c2: Cand| cand_view(c2)).push(cand_view(c)));
                    assert(selected_pre.map_values(|c2: Cand| cand_view(c2)).push(cand_view(c))
                        + select_cands(
                        sorted_v.skip(t as int + 1),
                        max as int - selected@.len() as int,
                        self.fairness_cap_per_sender as int,
                        m,
                    ) =~= selected_pre.map_values(|c2: Cand| cand_view(c2)) + (
                    seq![cand_view(c)] + select_cands(
                        sorted_v.skip(t as int + 1),
                        max as int - selected@.len() as int,
                        self.fairness_cap_per_sender as int,
                        m,
                    )));
                }
            }
            t += 1;
        }
        proof {
            if t == sorted@.len() {
                assert(sorted_v.skip(t as int) =~= Seq::<CandView>::empty());
            }
            assert(select_cands(
                sorted_v.skip(t as int),
                max as int - selected@.len() as int,
                self.fairness_cap_per_sender as int,
                m,
            ) =~= Seq::<CandView>::empty());
            assert(selected@.map_values(|c: Cand| cand_view(c)) + Seq::<CandView>::empty()
                =~= selected@.map_values(|c: Cand| cand_view(c)));
            assert(selected@.map_values(|c: Cand| cand_view(c)) == sel);

            // The selected identifiers are distinct and all stored.
            lemma_ready_cands_ids(s0, nonce_provider);
            lemma_sort_cands_cids(cv);
            lemma_select_cands_sub(
                sorted_v,
                max as int,
                self.fairness_cap_per_sender as int,
                Map::<Seq<u8>, int>::empty(),
            );
        }

        // Remove exactly the selected transactions, in selection order.
        let mut out: Vec<TxV1> = Vec::new();
        let mut t2: usize = 0;
        proof {
            assert(cand_ids(sel).take(0) =~= Seq::<Seq<u8>>::empty());
            assert(without_ids(s0, cand_ids(sel).take(0)) == s0);
        }
        while t2 < selected.len()
            invariant
                self.inv(),
                self.min_fee_spec() == old(self).min_fee_spec(),
                self.cap_spec() == old(self).cap_spec(),
                s0 == old(self)@,
                distinct_ids(s0),
                t2 <= selected@.len(),
                out@.len() == t2,
                sel == selected@.map_values(|c: Cand| cand_view(c)),
                no_dup_cids(sel),
                forall|id: Seq<u8>| #[trigger] has_cid(sel, id) ==> has_id(s0, id),
                forall|i: int| 0 <= i < t2 ==> #[trigger] s0.contains((sel[i].1, out@[i]@)),
                forall|i: int|
                    0 <= i < t2 ==> out@[i]@ == s0[id_index(s0, #[trigger] sel[i].1)].1,
                self@ == without_ids(s0, cand_ids(sel).take(t2 as int)),
                forall|j: int| 0 <= j < self@.len() ==> s0.contains(#[trigger] self@[j]),
            decreases selected@.len() - t2,
        {
            let id_arr = selected[t2].id;
            proof {
                assert(sel[t2 as int] == cand_view(selected@[t2 as int]));
                assert(sel[t2 as int].1 == id_arr@);
                assert(!cand_ids(sel).take(t2 as int).contains(id_arr@)) by {
                    if cand_ids(sel).take(t2 as int).contains(id_arr@) {
                        let i = choose|i: int|
                            0 <= i < t2 && cand_ids(sel).take(t2 as int)[i] == id_arr@;
                        assert(cand_ids(sel)[i] == sel[i].1);
                        assert(sel[i].1 != sel[t2 as int].1);
                    }
                }
                lemma_without_ids_has(s0, cand_ids(sel).take(t2 as int), id_arr@);
                assert(has_cid(sel, id_arr@)) by {
                    assert(sel[t2 as int].1 == id_arr@);
                }
                assert(has_id(self@, id_arr@));
            }
            let ghost pool_pre = self@;
            let removed = self.remove(&id_arr);
            match removed {
                Some(tx) => {
                    proof {
                        let kx = id_index(pool_pre, id_arr@);
                        assert(pool_pre[kx] == (id_arr@, tx@));
                        assert(s0.contains((sel[t2 as int].1, tx@)));
                        let j0 = choose|j: int| 0 <= j < s0.len() && s0[j] == (id_arr@, tx@);
                        let k0 = id_index(s0, id_arr@);
                        assert(0 <= k0 < s0.len() && s0[k0].0 == id_arr@);
                        assert(s0[j0].0 == id_arr@);
                        assert(j0 == k0) by {
                            if j0 < k0 {
                                assert(s0[j0].0 != s0[k0].0);
                            } else if k0 < j0 {
                                assert(s0[k0].0 != s0[j0].0);
                            }
                        }
                        assert(tx@ == s0[id_index(s0, sel[t2 as int].1)].1);
                        assert(self@ == remove_id(pool_pre, id_arr@));
                        lemma_without_ids_push(s0, cand_ids(sel).take(t2 as int), id_arr@);
                        assert(cand_ids(sel).take(t2 as int).push(id_arr@) =~= cand_ids(sel).take(
                            t2 as int + 1,
                        ));
                        assert forall|j: int| 0 <= j < self@.len() implies s0.contains(
                            #[trigger] self@[j],
                        ) by {
                            if j < kx {
                                assert(self@[j] == pool_pre[j]);
                            } else {
                                assert(self@[j] == pool_pre[j + 1]);
                            }
                        }
                    }
                    out.push(tx);
                },
                None => {
                    proof {
                        assert(false);
                    }
                },
            }
            t2 += 1;
        }
        proof {
            assert(cand_ids(sel).take(selected@.len() as int) =~= cand_ids(sel));
        }
        out
    }
}

} // verus!
