use sqlsync::journal::{JournalId, MemoryJournal};
use sqlsync::page::PAGESIZE;
use sqlsync::replication::{ReplicationDestination, ReplicationSource};
use sqlsync::storage::{Storage, StorageChange};
use sqlsync::LsnRange;

fn id16(b: u8) -> JournalId {
    JournalId::try_from(&[b; 16]).unwrap()
}

fn new_storage() -> Storage<MemoryJournal> {
    Storage::new(MemoryJournal::open(id16(1)).unwrap())
}

fn filled(byte: u8) -> Vec<u8> {
    vec![byte; PAGESIZE]
}

/// page 1 (the database header page) with the given schema cookie
fn header_page(schema_cookie: u32) -> Vec<u8> {
    let mut p = vec![0u8; PAGESIZE];
    p[40..44].copy_from_slice(&schema_cookie.to_be_bytes());
    p
}

/// the position of page `idx` (page indexes start at 1)
fn pos(idx: u64) -> u64 {
    (idx - 1) * PAGESIZE as u64
}

#[test]
fn storage_read_after_write() {
    let mut s = new_storage();
    assert_eq!(s.write(pos(2), &filled(7)), PAGESIZE);
    let mut buf = [0u8; 16];
    assert_eq!(s.read(pos(2) + 100, &mut buf).unwrap(), 16);
    assert_eq!(buf, [7u8; 16]);
    // a page never written reads nothing and leaves the buffer alone
    let mut buf = [3u8; 16];
    assert_eq!(s.read(pos(5), &mut buf).unwrap(), 0);
    assert_eq!(buf, [3u8; 16]);
    assert!(s.has_changes());
}

#[test]
fn storage_header_reads_see_the_change_counter() {
    let mut s = new_storage();
    s.write(pos(1), &header_page(0));
    let mut buf = [0u8; 100];
    assert_eq!(s.read(0, &mut buf).unwrap(), 100);
    // one write so far
    assert_eq!(&buf[24..28], &1u32.to_be_bytes());
    s.write(pos(2), &filled(1));
    assert_eq!(s.read(0, &mut buf).unwrap(), 100);
    assert_eq!(&buf[24..28], &2u32.to_be_bytes());
    // a read that does not cover the whole counter is left as written
    let mut small = [9u8; 2];
    assert_eq!(s.read(24, &mut small).unwrap(), 2);
    assert_eq!(small, [0, 0]);
}

#[test]
fn storage_commit_keeps_contents() {
    let mut s = new_storage();
    s.write(pos(1), &header_page(0));
    s.write(pos(3), &filled(33));
    assert!(!s.has_committed_pages());
    assert_eq!(s.last_committed_lsn(), None);
    s.commit().unwrap();
    assert!(s.has_committed_pages());
    assert_eq!(s.last_committed_lsn(), Some(0));
    assert!(!s.has_invisible_pages());
    let mut buf = [0u8; 8];
    assert_eq!(s.read(pos(3) + 8, &mut buf).unwrap(), 8);
    assert_eq!(buf, [33u8; 8]);
    assert_eq!(s.file_size().unwrap(), 3 * PAGESIZE as u64);

    // a newer version of a page wins over the committed one
    s.write(pos(3), &filled(44));
    assert_eq!(s.read(pos(3), &mut buf).unwrap(), 8);
    assert_eq!(buf, [44u8; 8]);
    s.commit().unwrap();
    assert_eq!(s.last_committed_lsn(), Some(1));
    assert_eq!(s.read(pos(3), &mut buf).unwrap(), 8);
    assert_eq!(buf, [44u8; 8]);
    // committing with nothing pending is a no-op
    s.commit().unwrap();
    assert_eq!(s.last_committed_lsn(), Some(1));
}

#[test]
fn storage_file_size() {
    let mut s = new_storage();
    assert_eq!(s.file_size().unwrap(), 0);
    s.write(pos(4), &filled(0));
    assert_eq!(s.file_size().unwrap(), 4 * PAGESIZE as u64);
    s.commit().unwrap();
    s.write(pos(2), &filled(0));
    assert_eq!(s.file_size().unwrap(), 4 * PAGESIZE as u64);
    s.write(pos(9), &filled(0));
    assert_eq!(s.file_size().unwrap(), 9 * PAGESIZE as u64);
}

#[test]
fn storage_reset_drops_pending() {
    let mut s = new_storage();
    s.write(pos(2), &filled(5));
    s.commit().unwrap();
    s.changes().unwrap();
    assert!(!s.has_changes());
    s.write(pos(2), &filled(6));
    s.write(pos(1), &header_page(0));
    s.reset().unwrap();
    let mut buf = [0u8; 4];
    assert_eq!(s.read(pos(2), &mut buf).unwrap(), 4);
    assert_eq!(buf, [5u8; 4]);
    assert_eq!(s.read(pos(1), &mut buf).unwrap(), 0);
    // the dropped pages count as changed: page 1 is the schema table's root
    assert!(s.has_changes());
    match s.changes().unwrap() {
        StorageChange::Tables { root_pages_sorted } => assert_eq!(root_pages_sorted, vec![1]),
        StorageChange::Full => panic!("schema did not change"),
    }
}

/// a ptrmap entry for a page: its type and its parent page
fn ptrmap_entry(kind: u8, parent: u32) -> [u8; 5] {
    let p = parent.to_be_bytes();
    [kind, p[0], p[1], p[2], p[3]]
}

#[test]
fn storage_changes_reports_tables() {
    let mut s = new_storage();
    s.write(pos(1), &header_page(0));
    // page 2 is the first ptrmap page: it maps pages 3, 4, ...
    let mut ptrmap = vec![0u8; PAGESIZE];
    // page 3 is a b-tree root page
    ptrmap[0..5].copy_from_slice(&ptrmap_entry(1, 0));
    // page 4 belongs to the b-tree rooted at page 3
    ptrmap[5..10].copy_from_slice(&ptrmap_entry(5, 3));
    // page 5 is a free page
    ptrmap[10..15].copy_from_slice(&ptrmap_entry(2, 0));
    s.write(pos(2), &ptrmap);
    s.write(pos(3), &filled(1));
    s.write(pos(4), &filled(2));
    s.write(pos(5), &filled(3));
    match s.changes().unwrap() {
        StorageChange::Tables { root_pages_sorted } => assert_eq!(root_pages_sorted, vec![1, 3]),
        StorageChange::Full => panic!("schema did not change"),
    }
    assert!(!s.has_changes());

    // a change to a committed page is traced through the committed ptrmap
    s.commit().unwrap();
    s.write(pos(4), &filled(9));
    match s.changes().unwrap() {
        // the commit made the pages of the new lsn visible, and they changed too
        StorageChange::Tables { root_pages_sorted } => assert_eq!(root_pages_sorted, vec![1, 3]),
        StorageChange::Full => panic!("schema did not change"),
    }

    // a new schema cookie means everything changed
    s.write(pos(1), &header_page(7));
    assert!(matches!(s.changes().unwrap(), StorageChange::Full));
    // and it is remembered
    s.write(pos(4), &filled(10));
    match s.changes().unwrap() {
        StorageChange::Tables { root_pages_sorted } => assert_eq!(root_pages_sorted, vec![3]),
        StorageChange::Full => panic!("schema did not change"),
    }
}

#[test]
fn storage_replicated_lsns_become_visible_on_reset() {
    let id = id16(1);
    let mut leader = new_storage();
    leader.write(pos(2), &filled(8));
    leader.commit().unwrap();

    let mut follower = new_storage();
    let frame = leader.read_lsn(0).unwrap().unwrap().to_vec();
    follower.write_lsn(id, 0, frame).unwrap();
    assert_eq!(ReplicationDestination::range(&mut follower, id).unwrap(), LsnRange::new(0, 0));
    assert!(follower.has_committed_pages());
    assert!(follower.has_invisible_pages());
    let mut buf = [0u8; 4];
    assert_eq!(follower.read(pos(2), &mut buf).unwrap(), 0);
    follower.reset().unwrap();
    assert!(!follower.has_invisible_pages());
    assert_eq!(follower.read(pos(2), &mut buf).unwrap(), 4);
    assert_eq!(buf, [8u8; 4]);
    assert!(follower.source_id().same_id(&id));
    assert_eq!(follower.source_range(), LsnRange::new(0, 0));
}
