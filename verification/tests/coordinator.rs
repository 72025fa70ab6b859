use sqlsync::coordinator::ReceiveQueue;
use sqlsync::journal::JournalId;
use sqlsync::LsnRange;

fn id16(b: u8) -> JournalId {
    JournalId::try_from(&[b; 16]).unwrap()
}

#[test]
fn receive_queue_coalesces_consecutive_lsns() {
    let a = id16(1);
    let b = id16(2);
    let mut q = ReceiveQueue::new();
    assert!(!q.has_pending_work());
    q.mark_received(a, 3);
    q.mark_received(a, 4);
    // an lsn the back entry already holds changes nothing
    q.mark_received(a, 3);
    q.mark_received(b, 0);
    q.mark_received(a, 5);
    assert!(q.has_pending_work());

    let e = q.pop_front().unwrap();
    assert!(e.id.same_id(&a));
    assert_eq!(e.range, LsnRange::new(3, 4));
    let e = q.pop_front().unwrap();
    assert!(e.id.same_id(&b));
    assert_eq!(e.range, LsnRange::new(0, 0));
    let e = q.pop_front().unwrap();
    assert!(e.id.same_id(&a));
    assert_eq!(e.range, LsnRange::new(5, 5));
    assert!(q.pop_front().is_none());
    assert!(!q.has_pending_work());
}
