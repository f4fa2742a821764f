use novai_core::fifo::{Mempool, MempoolError};

#[derive(Debug, Clone, PartialEq, Eq)]
struct Tx {
    id: u64,
    payload: &'static str,
}

#[test]
fn insert_and_get_and_contains() {
    let mut mp = Mempool::new(|tx: &Tx| tx.id);

    mp.insert(Tx { id: 1, payload: "a" }).unwrap();
    assert!(mp.contains(1));
    assert_eq!(mp.len(), 1);

    let tx = mp.get(1).unwrap();
    assert_eq!(tx.payload, "a");
}

#[test]
fn duplicate_rejected() {
    let mut mp = Mempool::new(|tx: &Tx| tx.id);

    mp.insert(Tx { id: 7, payload: "x" }).unwrap();
    let err = mp.insert(Tx { id: 7, payload: "y" }).unwrap_err();
    assert_eq!(err, MempoolError::Duplicate);

    // original remains
    assert_eq!(mp.get(7).unwrap().payload, "x");
    assert_eq!(mp.len(), 1);
}

#[test]
fn remove_works() {
    let mut mp = Mempool::new(|tx: &Tx| tx.id);

    mp.insert(Tx { id: 2, payload: "b" }).unwrap();
    let removed = mp.remove(2).unwrap();
    assert_eq!(removed.payload, "b");
    assert!(!mp.contains(2));
    assert_eq!(mp.len(), 0);
}

#[test]
fn drain_ready_fifo_and_skips_removed() {
    let mut mp = Mempool::new(|tx: &Tx| tx.id);

    mp.insert(Tx { id: 1, payload: "a" }).unwrap();
    mp.insert(Tx { id: 2, payload: "b" }).unwrap();
    mp.insert(Tx { id: 3, payload: "c" }).unwrap();

    // remove one in the middle before draining
    mp.remove(2);

    let drained = mp.drain_ready(10);
    let payloads: Vec<_> = drained.into_iter().map(|t| t.payload).collect();
    assert_eq!(payloads, vec!["a", "c"]);
    assert_eq!(mp.len(), 0);
    assert!(mp.is_empty());
}

#[test]
fn drain_respects_max() {
    let mut mp = Mempool::new(|tx: &Tx| tx.id);

    mp.insert(Tx { id: 1, payload: "a" }).unwrap();
    mp.insert(Tx { id: 2, payload: "b" }).unwrap();
    mp.insert(Tx { id: 3, payload: "c" }).unwrap();

    let drained1 = mp.drain_ready(2);
    assert_eq!(drained1.len(), 2);
    assert_eq!(mp.len(), 1);

    let drained2 = mp.drain_ready(2);
    assert_eq!(drained2.len(), 1);
    assert_eq!(mp.len(), 0);
}
