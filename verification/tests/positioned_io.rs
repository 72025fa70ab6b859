use sqlsync::positioned_io::{PositionedCursor, PositionedReader, SeekFrom};

#[test]
fn positioned_reads() {
    let data: Vec<u8> = (0u8..10).collect();
    let mut buf = [0u8; 4];
    assert_eq!(data.read_at(8, &mut buf).unwrap(), 2);
    assert_eq!(&buf[..2], &[8, 9]);
    assert_eq!(data.read_at(10, &mut buf).unwrap(), 0);
    data.read_exact_at(3, &mut buf).unwrap();
    assert_eq!(buf, [3, 4, 5, 6]);
    let err = data.read_exact_at(8, &mut buf).unwrap_err();
    assert_eq!(err.kind(), std::io::ErrorKind::UnexpectedEof);
    assert_eq!(data.size().unwrap(), 10);
    assert_eq!(data.read_all().unwrap(), data);
    let slice: &[u8] = &data[2..5];
    assert_eq!(slice.read_all().unwrap(), vec![2, 3, 4]);
}

#[test]
fn positioned_cursor_reads_sequentially() {
    let mut cursor = PositionedCursor::new(vec![1u8, 2, 3, 4, 5]);
    let mut buf = [0u8; 2];
    assert_eq!(cursor.read(&mut buf).unwrap(), 2);
    assert_eq!(buf, [1, 2]);
    assert_eq!(cursor.read(&mut buf).unwrap(), 2);
    assert_eq!(buf, [3, 4]);
    assert_eq!(cursor.read(&mut buf).unwrap(), 1);
    assert_eq!(buf[0], 5);
    assert_eq!(cursor.read(&mut buf).unwrap(), 0);
}

#[test]
fn positioned_cursor_seeks() {
    let mut cursor = PositionedCursor::new(vec![10u8, 11, 12, 13, 14, 15]);
    assert_eq!(cursor.seek(SeekFrom::Start(4)).unwrap(), 4);
    let mut buf = [0u8; 1];
    assert_eq!(cursor.read(&mut buf).unwrap(), 1);
    assert_eq!(buf, [14]);
    assert_eq!(cursor.seek(SeekFrom::Current(0)).unwrap(), 5);
    assert_eq!(cursor.seek(SeekFrom::End(0)).unwrap(), 6);
    assert_eq!(cursor.read(&mut buf).unwrap(), 0);
    assert_eq!(cursor.seek(SeekFrom::Start(1)).unwrap(), 1);
    assert_eq!(cursor.seek(SeekFrom::Current(2)).unwrap(), 3);
    assert_eq!(cursor.read(&mut buf).unwrap(), 1);
    assert_eq!(buf, [13]);
}
