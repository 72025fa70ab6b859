use sqlsync::journal::{
    JournalError,
    Journal, JournalFactory, JournalId, JournalIdParseError, JournalPartial, MemoryJournal,
    MemoryJournalFactory, Scannable,
};
use sqlsync::positioned_io::PositionedReader;
use sqlsync::replication::{ReplicationDestination, ReplicationError, ReplicationSource};
use sqlsync::LsnRange;

fn id16(b: u8) -> JournalId {
    JournalId::try_from(&[b; 16]).unwrap()
}

#[test]
fn journal_id_from_bytes() {
    let id = JournalId::try_from(&[7u8; 16]).unwrap();
    assert!(matches!(id, JournalId::Size128(_)));
    assert_eq!(id.bytes(), &[7u8; 16]);
    let id = JournalId::try_from(&[9u8; 32]).unwrap();
    assert!(matches!(id, JournalId::Size256(_)));
    assert_eq!(id.bytes().len(), 32);
    assert!(matches!(
        JournalId::try_from(&[1u8; 5]),
        Err(JournalIdParseError::InvalidByteLength(5))
    ));
}

#[test]
fn journal_id_hex_roundtrip() {
    let mut bytes = [0u8; 16];
    for (i, b) in bytes.iter_mut().enumerate() {
        *b = (i as u8) * 17;
    }
    let id = JournalId::try_from(&bytes).unwrap();
    let hex = id.to_hex();
    assert_eq!(hex, "00112233445566778899aabbccddeeff");
    assert_eq!(JournalId::from_hex(&hex).unwrap(), id);
    // upper case digits are accepted too
    assert_eq!(
        JournalId::from_hex("00112233445566778899AABBCCDDEEFF").unwrap(),
        id
    );
}

#[test]
fn journal_id_hex_errors() {
    assert!(matches!(
        JournalId::from_hex("zz"),
        Err(JournalIdParseError::HexError(_))
    ));
    assert!(matches!(
        JournalId::from_hex("abc"),
        Err(JournalIdParseError::HexError(_))
    ));
    assert!(matches!(
        JournalId::from_hex("abcd"),
        Err(JournalIdParseError::InvalidByteLength(2))
    ));
}

#[test]
fn journal_id_base58_roundtrip() {
    let id = id16(1);
    let text = id.to_base58();
    assert_ne!(text.len(), 0);
    assert_eq!(JournalId::from_base58(&text).unwrap(), id);
    let long = JournalId::try_from(&[200u8; 32]).unwrap();
    assert_eq!(JournalId::from_base58(&long.to_base58()).unwrap(), long);
}

#[test]
fn journal_id_base58_errors() {
    // '0' is not a base58 digit
    assert!(matches!(
        JournalId::from_base58("0OIl"),
        Err(JournalIdParseError::Base58Error(_))
    ));
    // "2" decodes to the single byte 1
    assert!(matches!(
        JournalId::from_base58("2"),
        Err(JournalIdParseError::InvalidByteLength(1))
    ));
}

#[test]
fn journal_id_random() {
    let mut rng: rand::rngs::StdRng = rand::SeedableRng::seed_from_u64(7);
    let a = JournalId::new128(&mut rng);
    let b = JournalId::new256(&mut rng);
    assert_eq!(a.bytes().len(), 16);
    assert_eq!(b.bytes().len(), 32);
    assert!(a.same_id(&a));
    assert!(!a.same_id(&b));
}

fn read_all_entries(j: &MemoryJournal, range: LsnRange) -> Vec<(u64, Vec<u8>)> {
    let mut out = Vec::new();
    let mut cursor = j.scan_range(range);
    while cursor.advance().unwrap() {
        let lsn = cursor.lsn().unwrap();
        out.push((lsn, cursor.read_all().unwrap()));
    }
    out
}

#[test]
fn memory_journal_append_scan_drop() {
    let id = id16(3);
    let mut j = MemoryJournalFactory.open(id).unwrap();
    assert!(j.id().same_id(&id));
    assert_eq!(j.range(), LsnRange::empty());

    let a: &[u8] = b"alpha";
    let b: &[u8] = b"beta";
    let c: &[u8] = b"gamma";
    j.append(a).unwrap();
    j.append(b).unwrap();
    j.append(c).unwrap();
    assert_eq!(j.range(), LsnRange::new(0, 2));

    assert_eq!(
        read_all_entries(&j, LsnRange::new(1, 10)),
        vec![(1, b"beta".to_vec()), (2, b"gamma".to_vec())]
    );
    assert_eq!(j.get(0).unwrap(), Some(&b"alpha"[..]));
    assert_eq!(j.get(3).unwrap(), None);

    // scanning backwards visits the newest entry first
    let mut cursor = j.scan().into_rev();
    assert!(cursor.advance().unwrap());
    assert_eq!(cursor.lsn(), Some(2));

    j.drop_prefix(1).unwrap();
    assert_eq!(j.range(), LsnRange::new(2, 2));
    assert_eq!(read_all_entries(&j, LsnRange::new(0, 10)), vec![(2, b"gamma".to_vec())]);
    j.drop_prefix(5).unwrap();
    assert_eq!(j.range(), LsnRange::Empty { nextlsn: 6 });
}

#[test]
fn memory_journal_write_lsn_then_read() {
    let id = id16(4);
    let mut j = MemoryJournal::open(id).unwrap();

    // an empty journal restarts at the first lsn it receives
    j.write_lsn(id, 7, b"seven".to_vec()).unwrap();
    assert_eq!(ReplicationDestination::range(&mut j, id).unwrap(), LsnRange::new(7, 7));
    j.write_lsn(id, 8, b"eight".to_vec()).unwrap();
    assert_eq!(j.read_lsn(8).unwrap(), Some(&b"eight"[..]));

    // an lsn it holds is overwritten
    j.write_lsn(id, 7, b"SEVEN".to_vec()).unwrap();
    assert_eq!(j.read_lsn(7).unwrap(), Some(&b"SEVEN"[..]));
    assert_eq!(j.source_range(), LsnRange::new(7, 8));

    // an lsn past the next one is refused
    match j.write_lsn(id, 10, b"ten".to_vec()) {
        Err(ReplicationError::NonContiguousLsn { received, range }) => {
            assert_eq!(received, 10);
            assert_eq!(range, LsnRange::new(7, 9));
        }
        other => panic!("unexpected {:?}", other),
    }

    // another journal's frames are refused
    let other = id16(5);
    assert!(matches!(
        j.write_lsn(other, 9, vec![]),
        Err(ReplicationError::UnknownJournal(_))
    ));
    assert!(matches!(
        ReplicationDestination::range(&mut j, other),
        Err(ReplicationError::UnknownJournal(_))
    ));
}

#[test]
fn journal_partial_accessors() {
    let id = id16(6);
    let data: Vec<u8> = b"frame".to_vec();
    let partial = JournalPartial::new(id, LsnRange::new(3, 5), data);
    assert!(partial.id().same_id(&id));
    assert_eq!(partial.range(), LsnRange::new(3, 5));
    assert_eq!(partial.len(), 3);
    let mut readable = partial.into_read_partial();
    assert_eq!(readable.len(), 3);
    let mut cursor = readable_cursor(&mut readable);
    let mut buf = [0u8; 3];
    assert_eq!(cursor.read(&mut buf).unwrap(), 3);
    assert_eq!(&buf, b"fra");
    assert_eq!(cursor.read(&mut buf).unwrap(), 2);
    assert_eq!(&buf[..2], b"me");
}

fn readable_cursor(
    p: &mut JournalPartial<sqlsync::positioned_io::PositionedCursor<Vec<u8>>>,
) -> sqlsync::positioned_io::PositionedCursor<Vec<u8>> {
    let taken = std::mem::replace(
        p,
        JournalPartial::new(id16(0), LsnRange::empty(), sqlsync::positioned_io::PositionedCursor::new(Vec::new())),
    );
    taken.into_cursor()
}

fn entries_of(j: &MemoryJournal) -> Vec<(u64, Vec<u8>)> {
    read_all_entries(j, LsnRange::new(0, 100))
}

#[test]
fn memory_journal_sync_receive() {
    let id = id16(8);
    let mut j = MemoryJournal::open(id).unwrap();

    // an empty journal takes a partial that holds its next lsn
    let p = JournalPartial::new(id, LsnRange::new(0, 1), vec![b"a".to_vec(), b"b".to_vec()]);
    assert_eq!(j.sync_receive(p).unwrap(), LsnRange::new(0, 1));

    // a partial that directly follows is appended
    let p = JournalPartial::new(id, LsnRange::new(2, 2), vec![b"c".to_vec()]);
    assert_eq!(j.sync_receive(p).unwrap(), LsnRange::new(0, 2));

    // an overlapping partial replaces the lsns it covers
    let p = JournalPartial::new(id, LsnRange::new(1, 3), vec![b"B".to_vec(), b"C".to_vec(), b"D".to_vec()]);
    assert_eq!(j.sync_receive(p).unwrap(), LsnRange::new(0, 3));
    assert_eq!(
        entries_of(&j),
        vec![
            (0, b"a".to_vec()),
            (1, b"B".to_vec()),
            (2, b"C".to_vec()),
            (3, b"D".to_vec())
        ]
    );

    // a gap is refused
    let p = JournalPartial::new(id, LsnRange::new(6, 6), vec![b"x".to_vec()]);
    match j.sync_receive(p) {
        Err(JournalError::RangesMustBeContiguous { partial_range, .. }) => {
            assert_eq!(partial_range, LsnRange::new(6, 6))
        }
        other => panic!("unexpected {:?}", other),
    }

    // another journal's partial is refused
    let p = JournalPartial::new(id16(9), LsnRange::new(4, 4), vec![b"x".to_vec()]);
    assert!(matches!(j.sync_receive(p), Err(JournalError::WrongJournal { .. })));
    assert_eq!(j.range(), LsnRange::new(0, 3));
}

#[test]
fn memory_journal_sync_receive_into_empty_needs_next_lsn() {
    let id = id16(10);
    let mut j = MemoryJournal::open(id).unwrap();
    let p = JournalPartial::new(id, LsnRange::new(1, 2), vec![b"a".to_vec(), b"b".to_vec()]);
    assert!(matches!(
        j.sync_receive(p),
        Err(JournalError::RangesMustBeContiguous { .. })
    ));
    assert_eq!(j.range(), LsnRange::empty());
}

#[test]
fn memory_journal_sync_receive_keeps_later_entries() {
    let id = id16(11);
    let mut j = MemoryJournal::open(id).unwrap();
    let p = JournalPartial::new(
        id,
        LsnRange::new(0, 3),
        vec![b"a".to_vec(), b"b".to_vec(), b"c".to_vec(), b"d".to_vec()],
    );
    assert_eq!(j.sync_receive(p).unwrap(), LsnRange::new(0, 3));

    // a partial inside the journal replaces its lsns and keeps the rest
    let p = JournalPartial::new(id, LsnRange::new(1, 2), vec![b"B".to_vec(), b"C".to_vec()]);
    assert_eq!(j.sync_receive(p).unwrap(), LsnRange::new(0, 3));
    assert_eq!(
        entries_of(&j),
        vec![
            (0, b"a".to_vec()),
            (1, b"B".to_vec()),
            (2, b"C".to_vec()),
            (3, b"d".to_vec())
        ]
    );
}

#[test]
fn memory_journal_debug_text() {
    let id = id16(1);
    let mut j = MemoryJournal::open(id).unwrap();
    let expected_id = id.to_base58();
    assert_eq!(j.debug_text(), format!("MemoryJournal({}, LsnRange::E(0))", expected_id));
    let p = JournalPartial::new(id, LsnRange::new(0, 12), (0..13).map(|_| vec![0u8]).collect());
    j.sync_receive(p).unwrap();
    assert_eq!(j.debug_text(), format!("MemoryJournal({}, LsnRange(0, 12))", expected_id));

    // a refused partial reports the journal's text
    let p = JournalPartial::new(id, LsnRange::new(20, 20), vec![vec![1u8]]);
    match j.sync_receive(p) {
        Err(JournalError::RangesMustBeContiguous { journal_debug, .. }) => {
            assert_eq!(journal_debug, format!("MemoryJournal({}, LsnRange(0, 12))", expected_id))
        }
        other => panic!("unexpected {:?}", other),
    }
}

#[test]
fn lsn_range_debug_text() {
    assert_eq!(LsnRange::new(5, 107).debug_text(), "LsnRange(5, 107)");
    assert_eq!(LsnRange::empty().debug_text(), "LsnRange::E(0)");
    assert_eq!(
        LsnRange::new(u64::MAX - 1, u64::MAX - 1).debug_text(),
        format!("LsnRange({}, {})", u64::MAX - 1, u64::MAX - 1)
    );
}

#[test]
fn fresh_cursor_points_at_no_entry() {
    let id = id16(12);
    let mut j = MemoryJournal::open(id).unwrap();
    j.append(b"x".as_slice()).unwrap();
    let mut cursor = j.scan();
    assert_eq!(cursor.lsn(), None);
    assert_eq!(cursor.size().unwrap(), 0);
    let mut buf = [9u8; 3];
    assert_eq!(cursor.read_at(0, &mut buf).unwrap(), 0);
    assert_eq!(buf, [9u8; 3]);
    assert!(cursor.advance().unwrap());
    assert_eq!(cursor.lsn(), Some(0));
    assert_eq!(cursor.size().unwrap(), 1);
}
