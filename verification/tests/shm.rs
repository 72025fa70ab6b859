use sqlsync::chksum::{sqlite_chksum, Endian};
use sqlsync::shm::SqliteShm;

fn le(x: u32) -> [u8; 4] {
    x.to_le_bytes()
}

#[test]
fn shm_reset_writes_header_twice() {
    let mut shm = SqliteShm::new();
    shm.reset(Endian::Little, 3, (5, 6), (7, 8));
    let regions = shm.regions();
    assert_eq!(regions.len(), 1);
    let r = &regions[0];
    assert_eq!(r.len(), 32768);

    let mut body = Vec::new();
    body.extend_from_slice(&le(3007000));
    body.extend_from_slice(&[0, 0, 0, 0]);
    body.extend_from_slice(&le(0)); // change counter
    body.extend_from_slice(&[1, 1]);
    body.extend_from_slice(&4096u16.to_le_bytes());
    body.extend_from_slice(&le(0)); // valid frames
    body.extend_from_slice(&le(3)); // database size
    body.extend_from_slice(&le(5));
    body.extend_from_slice(&le(6));
    body.extend_from_slice(&7u32.to_be_bytes());
    body.extend_from_slice(&8u32.to_be_bytes());
    let (c0, c1) = sqlite_chksum(Endian::Big, 0, 0, &body);
    let mut header = body.clone();
    header.extend_from_slice(&le(c0));
    header.extend_from_slice(&le(c1));

    assert_eq!(&r[0..48], &header[..]);
    assert_eq!(&r[48..96], &header[..]);
    assert!(r[96..].iter().all(|&b| b == 0));
}

#[test]
fn shm_reset_advances_change_counter_and_keeps_one_region() {
    let mut shm = SqliteShm::new();
    shm.reset(Endian::Big, 1, (0, 0), (0, 0));
    shm.reset(Endian::Big, 2, (0, 0), (0, 0));
    let regions = shm.regions();
    assert_eq!(regions.len(), 1);
    assert_eq!(&regions[0][8..12], &1u32.to_be_bytes());
    assert_eq!(&regions[0][20..24], &2u32.to_be_bytes());
    shm.shm_unmap();
    assert_eq!(shm.regions().len(), 0);
}
