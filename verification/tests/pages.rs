use sqlsync::page::{SerializedPagesReader, SparsePages, PAGESIZE};
use sqlsync::serialization::Serializable;

fn page_of(byte: u8) -> [u8; PAGESIZE] {
    let mut p = [0u8; PAGESIZE];
    for (i, b) in p.iter_mut().enumerate() {
        *b = byte.wrapping_add(i as u8);
    }
    p
}

#[test]
fn sparse_pages_write_read() {
    let mut pages = SparsePages::new();
    assert_eq!(pages.num_pages(), 0);
    assert_eq!(pages.max_page_idx(), None);
    pages.write(3, page_of(30));
    pages.write(1, page_of(10));
    pages.write(7, page_of(70));
    pages.write(3, page_of(31));
    assert_eq!(pages.num_pages(), 3);
    assert_eq!(pages.max_page_idx(), Some(7));
    assert_eq!(pages.page_idxs(), vec![1, 3, 7]);

    let mut buf = [0u8; 4];
    assert_eq!(pages.read(3, 10, &mut buf), 4);
    assert_eq!(buf, [41, 42, 43, 44]);
    let mut buf = [9u8; 4];
    assert_eq!(pages.read(2, 0, &mut buf), 0);
    assert_eq!(buf, [9; 4]);

    pages.clear();
    assert_eq!(pages.num_pages(), 0);
}

#[test]
fn serialized_pages_layout() {
    let mut pages = SparsePages::new();
    pages.write(2, page_of(1));
    pages.write(9, page_of(2));
    let mut bytes = Vec::new();
    pages.serialize_into(&mut bytes).unwrap();
    assert_eq!(bytes.len(), 2 * (4 + PAGESIZE));
    // index section first, largest page index first, little endian
    assert_eq!(&bytes[0..8], &[9, 0, 0, 0, 2, 0, 0, 0]);
    // then the pages in the same order
    assert_eq!(bytes[8], 2);
    assert_eq!(bytes[8 + PAGESIZE], 1);
}

#[test]
fn serialized_pages_read_back() {
    let mut pages = SparsePages::new();
    for idx in [5u32, 1, 12, 8, 3] {
        pages.write(idx, page_of(idx as u8));
    }
    let mut bytes = Vec::new();
    pages.serialize_into(&mut bytes).unwrap();
    let reader = SerializedPagesReader(bytes);
    assert_eq!(reader.num_pages().unwrap(), 5);
    assert_eq!(reader.max_page_idx().unwrap(), 12);
    assert_eq!(reader.page_idxs().unwrap(), vec![12, 8, 5, 3, 1]);
    for idx in [5u32, 1, 12, 8, 3] {
        let mut from_reader = [0u8; 100];
        let mut from_pages = [0u8; 100];
        assert_eq!(reader.read(idx, 50, &mut from_reader).unwrap(), 100);
        assert_eq!(pages.read(idx, 50, &mut from_pages), 100);
        assert_eq!(from_reader, from_pages);
    }
    let mut buf = [0u8; 10];
    assert_eq!(reader.read(4, 0, &mut buf).unwrap(), 0);
    assert_eq!(reader.read(13, 0, &mut buf).unwrap(), 0);
    assert_eq!(reader.read(0, 0, &mut buf).unwrap(), 0);
}

#[test]
fn serialized_pages_short_input() {
    let reader = SerializedPagesReader(vec![1u8, 2]);
    assert!(reader.max_page_idx().is_err());
    assert_eq!(reader.num_pages().unwrap(), 0);
}
