//! A minimal first-in-first-out pending pool, keyed by an id that a
//! caller-supplied function extracts from each transaction.
//!
//! This is the generic, swappable precedent for a pending-item queue; the
//! policy-enforcing production pool is `TxMempool`.

use vstd::prelude::*;
use vstd::laws_eq::obeys_concrete_eq;

verus! {

/// Failures of the FIFO pool.
#[derive(Debug, Clone, Copy, PartialEq, Eq, Structural)]
pub enum MempoolError {
    /// An entry with the same id is already stored.
    Duplicate,
}

/// Whether some stored entry carries this key.
pub open spec fn has_key<Id, Tx>(s: Seq<(Id, Tx)>, id: Id) -> bool {
    exists|i: int| 0 <= i < s.len() && s[i].0 == id
}

/// The position of the entry carrying this key (meaningful when keys are
/// distinct and the key is present).
pub open spec fn key_index<Id, Tx>(s: Seq<(Id, Tx)>, id: Id) -> int {
    choose|i: int| 0 <= i < s.len() && s[i].0 == id
}

/// No two stored entries share a key.
pub open spec fn distinct_keys<Id, Tx>(s: Seq<(Id, Tx)>) -> bool {
    forall|i: int, j: int| 0 <= i < j < s.len() ==> s[i].0 != s[j].0
}

/// A FIFO pool of transactions with distinct ids, drained in insertion order.
/// Its model is the stored sequence of (id, transaction) pairs, oldest first.
#[verifier::reject_recursive_types(Id)]
pub struct Mempool<Id, Tx, F> where Id: Eq + Copy, F: Fn(&Tx) -> Id {
    id_of: F,
    entries: Vec<(Id, Tx)>,
}

impl<Id, Tx, F> View for Mempool<Id, Tx, F> where Id: Eq + Copy, F: Fn(&Tx) -> Id {
    type V = Seq<(Id, Tx)>;

    closed spec fn view(&self) -> Seq<(Id, Tx)> {
        self.entries@
    }
}

impl<Id, Tx, F> Mempool<Id, Tx, F> where Id: Eq + Copy, F: Fn(&Tx) -> Id {
    /// The id-extraction function the pool was built with.
    pub closed spec fn id_fn(&self) -> F {
        self.id_of
    }

    /// Well-formedness: keys are distinct, equality on ids is reliable, and
    /// the id function can be asked about any transaction.
    pub closed spec fn inv(&self) -> bool {
        &&& distinct_keys(self.entries@)
        &&& obeys_concrete_eq::<Id>()
        &&& forall|t: &Tx| #[trigger] call_requires(self.id_of, (t,))
    }

    /// Create an empty pool around an id-extraction function.
    pub fn new(id_of: F) -> (r: Self)
        requires
            obeys_concrete_eq::<Id>(),
            forall|t: &Tx| #[trigger] call_requires(id_of, (t,)),
        ensures
            r.inv(),
            r@ == Seq::<(Id, Tx)>::empty(),
            r.id_fn() == id_of,
    {
        Mempool { id_of, entries: Vec::new() }
    }

    /// The position of the entry with this id, if any.
    fn find(&self, id: &Id) -> (r: Option<usize>)
        requires
            self.inv(),
        ensures
            match r {
                Some(i) => i < self@.len() && self@[i as int].0 == *id,
                None => !has_key(self@, *id),
            },
    {
        proof {
            reveal(vstd::laws_eq::obeys_concrete_eq);
        }
        let n = self.entries.len();
        let mut i: usize = 0;
        while i < n
            invariant
                self.inv(),
                n == self@.len(),
                i <= n,
                obeys_concrete_eq::<Id>(),
                forall|j: int| 0 <= j < i ==> self@[j].0 != *id,
            decreases n - i,
        {
            proof {
                reveal(vstd::laws_eq::obeys_concrete_eq);
            }
            if self.entries[i].0 == *id {
                return Some(i);
            }
            i += 1;
        }
        None
    }

    /// Insert a transaction; rejected when an entry with the same id is
    /// already stored, in which case the pool is unchanged.
    pub fn insert(&mut self, tx: Tx) -> (r: Result<(), MempoolError>)
        requires
            old(self).inv(),
        ensures
            final(self).inv(),
            final(self).id_fn() == old(self).id_fn(),
            match r {
                Ok(()) => exists|id: Id|
                    {
                        &&& #[trigger] call_ensures(old(self).id_fn(), (&tx,), id)
                        &&& !has_key(old(self)@, id)
                        &&& final(self)@ == old(self)@.push((id, tx))
                    },
                Err(e) => e == MempoolError::Duplicate && final(self)@ == old(self)@
                    && exists|id: Id|
                    {
                        &&& #[trigger] call_ensures(old(self).id_fn(), (&tx,), id)
                        &&& has_key(old(self)@, id)
                    },
            },
    {
        let id = (self.id_of)(&tx);
        match self.find(&id) {
            Some(_) => {
                proof {
                    assert(call_ensures(old(self).id_fn(), (&tx,), id) && has_key(
                        old(self)@,
                        id,
                    ));
                }
                Err(MempoolError::Duplicate)
            },
            None => {
                proof {
                    assert(!has_key(old(self)@, id));
                }
                self.entries.push((id, tx));
                proof {
                    assert forall|i: int, j: int|
                        0 <= i < j < self@.len() implies self@[i].0 != self@[j].0 by {
                        if j < self@.len() - 1 {
                            assert(old(self)@[i].0 != old(self)@[j].0);
                        } else {
                            assert(old(self)@[i].0 != id);
                        }
                    }
                    assert(call_ensures(old(self).id_fn(), (&tx,), id) && !has_key(
                        old(self)@,
                        id,
                    ) && self@ == old(self)@.push((id, tx)));
                }
                Ok(())
            },
        }
    }

    /// Remove the entry with this id and hand its transaction back; the rest
    /// of the pool keeps its order.
    pub fn remove(&mut self, id: Id) -> (r: Option<Tx>)
        requires
            old(self).inv(),
        ensures
            final(self).inv(),
            final(self).id_fn() == old(self).id_fn(),
            match r {
                Some(tx) => {
                    &&& has_key(old(self)@, id)
                    &&& tx == old(self)@[key_index(old(self)@, id)].1
                    &&& final(self)@ == old(self)@.remove(key_index(old(self)@, id))
                },
                None => !has_key(old(self)@, id) && final(self)@ == old(self)@,
            },
    {
        match self.find(&id) {
            Some(i) => {
                let entry = self.entries.remove(i);
                proof {
                    assert(has_key(old(self)@, id));
                    let k = key_index(old(self)@, id);
                    assert(0 <= k < old(self)@.len() && old(self)@[k].0 == id);
                    assert(k == i as int);
                }
                Some(entry.1)
            },
            None => None,
        }
    }

    /// Whether an entry with this id is currently stored.
    pub fn contains(&self, id: Id) -> (r: bool)
        requires
            self.inv(),
        ensures
            r == has_key(self@, id),
    {
        self.find(&id).is_some()
    }

    /// The stored transaction with this id, if any.
    pub fn get(&self, id: Id) -> (r: Option<&Tx>)
        requires
            self.inv(),
        ensures
            match r {
                Some(tx) => {
                    &&& has_key(self@, id)
                    &&& *tx == self@[key_index(self@, id)].1
                },
                None => !has_key(self@, id),
            },
    {
        match self.find(&id) {
            Some(i) => {
                proof {
                    let k = key_index(self@, id);
                    assert(0 <= k < self@.len() && self@[k].0 == id);
                    assert(k == i as int);
                }
                Some(&self.entries[i].1)
            },
            None => None,
        }
    }

    /// Number of stored transactions.
    pub fn len(&self) -> (r: usize)
        ensures
            r == self@.len(),
    {
        self.entries.len()
    }

    /// True when nothing is stored.
    pub fn is_empty(&self) -> (r: bool)
        ensures
            r == (self@.len() == 0),
    {
        self.entries.len() == 0
    }

    /// Drain up to `max` transactions in insertion order; the drained entries
    /// leave the pool.
    pub fn drain_ready(&mut self, max: usize) -> (r: Vec<Tx>)
        requires
            old(self).inv(),
        ensures
            final(self).inv(),
            final(self).id_fn() == old(self).id_fn(),
            r@.len() == vstd::math::min(max as int, old(self)@.len() as int),
            r@ == old(self)@.take(r@.len() as int).map_values(|e: (Id, Tx)| e.1),
            final(self)@ == old(self)@.skip(r@.len() as int),
    {
        let mut out: Vec<Tx> = Vec::new();
        while out.len() < max && self.entries.len() > 0
            invariant
                old(self).inv(),
                self.inv(),
                self.id_fn() == old(self).id_fn(),
                out@.len() <= max,
                out@.len() <= old(self)@.len(),
                out@ == old(self)@.take(out@.len() as int).map_values(|e: (Id, Tx)| e.1),
                self@ == old(self)@.skip(out@.len() as int),
            decreases self@.len(),
        {
            let entry = self.entries.remove(0);
            out.push(entry.1);
            proof {
                let k = out@.len() as int;
                assert(old(self)@.skip(k - 1).remove(0) =~= old(self)@.skip(k));
                assert(old(self)@.take(k - 1).map_values(|e: (Id, Tx)| e.1).push(entry.1)
                    =~= old(self)@.take(k).map_values(|e: (Id, Tx)| e.1));
            }
        }
        proof {
            assert(distinct_keys(self@));
        }
        out
    }
}

} // verus!
