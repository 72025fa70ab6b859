use sqlsync::chksum::{sqlite_chksum, wal_checksum, Endian, SqliteChksum};

#[test]
fn chksum_big_endian_words() {
    let b = [0u8, 0, 0, 1, 0, 0, 0, 2];
    assert_eq!(sqlite_chksum(Endian::Big, 0, 0, &b), (1, 3));
}

#[test]
fn chksum_little_endian_words() {
    let b = [0u8, 0, 0, 1, 0, 0, 0, 2];
    assert_eq!(
        sqlite_chksum(Endian::Little, 0, 0, &b),
        (0x0100_0000, 0x0300_0000)
    );
}

#[test]
fn chksum_wraps_modulo_2_pow_32() {
    let b = [0u8, 0, 0, 1, 0, 0, 0, 0];
    assert_eq!(sqlite_chksum(Endian::Big, 0xffff_ffff, 0, &b), (0, 0));
}

#[test]
fn chksum_empty_input_keeps_state() {
    assert_eq!(sqlite_chksum(Endian::Big, 7, 9, &[]), (7, 9));
}

#[test]
fn chksum_two_chunks() {
    // chunk 1: s0 = 0 + (0 + 1) = 1, s1 = 0 + (1 + 2) = 3
    // chunk 2: s0 = 1 + (3 + 3) = 7, s1 = 3 + (7 + 4) = 14
    let b = [0u8, 0, 0, 1, 0, 0, 0, 2, 0, 0, 0, 3, 0, 0, 0, 4];
    assert_eq!(sqlite_chksum(Endian::Big, 0, 0, &b), (7, 14));
    assert_eq!(wal_checksum(Endian::Big, 0, 0, &b), (7, 14));
}

#[test]
fn chksum_split_updates_match_one_pass() {
    let b: Vec<u8> = (0u8..32).collect();
    let mut c = SqliteChksum::new(Endian::Little, 3, 5);
    c.update(&b[..8]);
    c.update(&b[8..]);
    assert_eq!(c.read(), sqlite_chksum(Endian::Little, 3, 5, &b));
}
