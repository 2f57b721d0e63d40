use std::sync::atomic::{AtomicUsize, Ordering};
use std::sync::Arc;

use orderbook_aggregator::atomic_slot::{drop_half, slot};

struct Counted(Arc<AtomicUsize>);

impl Drop for Counted {
    fn drop(&mut self) {
        self.0.fetch_add(1, Ordering::SeqCst);
    }
}

#[test]
fn send_recv_basic() {
    let (mut tx, mut rx, mut shared) = slot::<u64>();
    assert!(rx.recv(&mut shared).is_none());
    tx.send(&mut shared, 42);
    assert_eq!(rx.recv(&mut shared), Some(42));
    assert!(rx.recv(&mut shared).is_none());
}

#[test]
fn latest_value_wins() {
    let (mut tx, mut rx, mut shared) = slot();
    tx.send(&mut shared, 1u64);
    tx.send(&mut shared, 2);
    tx.send(&mut shared, 3);
    // Only the latest value should be returned.
    assert_eq!(rx.recv(&mut shared), Some(3));
    assert!(rx.recv(&mut shared).is_none());
}

#[test]
fn abandoned_detection() {
    let (tx, rx, mut shared) = slot::<u64>();
    assert!(!tx.is_abandoned(&shared));
    assert!(!rx.is_abandoned(&shared));
    drop(rx);
    assert!(!drop_half(&mut shared));
    assert!(tx.is_abandoned(&shared));
}

#[test]
fn abandoned_receiver_side() {
    let (tx, rx, mut shared) = slot::<u64>();
    drop(tx);
    assert!(!drop_half(&mut shared));
    assert!(rx.is_abandoned(&shared));
}

#[test]
fn drop_cleans_up_unread_value() {
    // Send a value and drop both halves without reading.
    let (mut tx, rx, mut shared) = slot::<String>();
    tx.send(&mut shared, "hello".to_string());
    drop(tx);
    assert!(!drop_half(&mut shared));
    drop(rx);
    assert!(drop_half(&mut shared));
    drop(shared);
}

#[test]
fn overwrite_drops_stale() {
    let drop_count = Arc::new(AtomicUsize::new(0));

    let (mut tx, mut rx, mut shared) = slot();

    // Three buffers: the first overwrite occurs on the third send.
    tx.send(&mut shared, Counted(drop_count.clone())); // v1 in buffer A
    tx.send(&mut shared, Counted(drop_count.clone())); // v2 in buffer B
    assert_eq!(drop_count.load(Ordering::SeqCst), 0);

    tx.send(&mut shared, Counted(drop_count.clone())); // v3 in buffer A, drops v1
    assert_eq!(drop_count.load(Ordering::SeqCst), 1);

    let val = rx.recv(&mut shared); // takes v3
    assert!(val.is_some());
    assert_eq!(drop_count.load(Ordering::SeqCst), 1); // v3 owned by val

    drop(val); // drops v3
    assert_eq!(drop_count.load(Ordering::SeqCst), 2);

    drop(tx);
    drop(rx);
    drop_half(&mut shared);
    assert!(drop_half(&mut shared));
    drop(shared);
    // What was shared drops v2, which was not received.
    assert_eq!(drop_count.load(Ordering::SeqCst), 3);
}

#[test]
fn the_roles_never_share_a_buffer() {
    let (mut tx, mut rx, mut shared) = slot::<u64>();
    let mut latest = None;
    for i in 0..200u64 {
        if i % 7 < 4 {
            tx.send(&mut shared, i);
            latest = Some(i);
        } else {
            assert_eq!(rx.recv(&mut shared), latest.take());
        }
        let middle = shared.state >> 1;
        assert!(tx.back < 3 && rx.front < 3 && middle < 3);
        assert!(tx.back != rx.front && tx.back != middle && rx.front != middle);
    }
}
