use sqlsync::journal::{Journal, JournalId, MemoryJournal};
use sqlsync::replication::{
    ReplicationDestination, ReplicationMsg, ReplicationProtocol, ReplicationSource,
    MAX_OUTSTANDING_FRAMES,
};
use sqlsync::LsnRange;

fn id16(b: u8) -> JournalId {
    JournalId::try_from(&[b; 16]).unwrap()
}

/// Runs the protocol between a source and a destination until the source has
/// nothing more to send.
fn replicate(source: &MemoryJournal, dest: &mut MemoryJournal) -> usize {
    let mut sender = ReplicationProtocol::new();
    let mut receiver = ReplicationProtocol::new();
    let mut frames_sent = 0;

    let start = sender.start(source);
    let reply = receiver.handle(dest, start, Vec::new()).unwrap().unwrap();
    assert!(sender.handle(dest, reply, Vec::new()).unwrap().is_none());

    loop {
        let mut batch = Vec::new();
        while let Some((msg, data)) = sender.sync(source).unwrap() {
            batch.push((msg, data.to_vec()));
        }
        if batch.is_empty() {
            break;
        }
        assert!(batch.len() <= MAX_OUTSTANDING_FRAMES);
        for (msg, data) in batch {
            frames_sent += 1;
            let ack = receiver.handle(dest, msg, data).unwrap().unwrap();
            assert!(sender.handle(dest, ack, Vec::new()).unwrap().is_none());
        }
    }
    frames_sent
}

#[test]
fn replication_copies_every_frame() {
    let id = id16(1);
    let mut source = MemoryJournal::open(id).unwrap();
    for i in 0..12u8 {
        let entry = vec![i; (i as usize) + 1];
        source.append(entry.as_slice()).unwrap();
    }
    let mut dest = MemoryJournal::open(id).unwrap();
    let sent = replicate(&source, &mut dest);
    assert_eq!(sent, 12);
    assert_eq!(dest.source_range(), LsnRange::new(0, 11));
    for lsn in 0..12u64 {
        assert_eq!(dest.read_lsn(lsn).unwrap(), source.read_lsn(lsn).unwrap());
    }
    // nothing left to send the second time around
    assert_eq!(replicate(&source, &mut dest), 0);
}

#[test]
fn replication_sync_waits_for_range() {
    let id = id16(2);
    let mut source = MemoryJournal::open(id).unwrap();
    let entry: &[u8] = b"x";
    source.append(entry).unwrap();
    let mut p = ReplicationProtocol::new();
    // no frame is sent before the destination reported its range
    assert!(p.sync(&source).unwrap().is_none());
    match p.start(&source) {
        ReplicationMsg::RangeRequest { id: got } => assert!(got.same_id(&id)),
        other => panic!("unexpected {:?}", other),
    }
}

#[test]
fn replication_window_is_bounded() {
    let id = id16(3);
    let mut source = MemoryJournal::open(id).unwrap();
    for _ in 0..20 {
        let entry: &[u8] = b"e";
        source.append(entry).unwrap();
    }
    let mut dest = MemoryJournal::open(id).unwrap();
    let mut p = ReplicationProtocol::new();
    let reply = ReplicationMsg::Range { range: ReplicationDestination::range(&mut dest, id).unwrap() };
    p.handle(&mut dest, reply, Vec::new()).unwrap();
    let mut n = 0;
    while let Some((msg, _)) = p.sync(&source).unwrap() {
        match msg {
            ReplicationMsg::Frame { lsn, len, .. } => {
                assert_eq!(lsn, n as u64);
                assert_eq!(len, 1);
            }
            other => panic!("unexpected {:?}", other),
        }
        n += 1;
    }
    assert_eq!(n, MAX_OUTSTANDING_FRAMES);
}
