use sqlsync::pagevfs::{OpenAccess, Storage, VfsError};

type Store = Storage<512>;

#[test]
fn pagevfs_open_create_delete() {
    let mut s = Store::new();
    assert!(!s.file_exists("main.db"));
    assert_eq!(s.open("main.db", OpenAccess::Write).map(|f| f.fd()), Err(VfsError::IoErr));
    let f = s.open("main.db", OpenAccess::Create).unwrap();
    assert_eq!(f.fd(), 0);
    assert!(s.file_exists("main.db"));
    // opening again finds the same file
    assert_eq!(s.open("main.db", OpenAccess::Create).unwrap().fd(), 0);
    assert_eq!(s.open("main.db", OpenAccess::Write).unwrap().fd(), 0);
    assert_eq!(s.open("main.db", OpenAccess::CreateNew).map(|f| f.fd()), Err(VfsError::IoErr));
    let j = s.open("main.db-journal", OpenAccess::CreateNew).unwrap();
    assert_eq!(j.fd(), 1);
    assert_eq!(s.delete("main.db-journal"), Ok(()));
    assert!(!s.file_exists("main.db-journal"));
    assert_eq!(s.delete("main.db-journal"), Err(VfsError::IoErr));
    assert!(s.file_exists("main.db"));
}

#[test]
fn pagevfs_read_after_write() {
    let mut s = Store::new();
    let f = s.open("main.db", OpenAccess::Create).unwrap();
    assert_eq!(f.write(&mut s, 512 + 10, &[1, 2, 3]), Ok(3));
    let mut buf = [0u8; 5];
    assert_eq!(f.read(&s, 512 + 9, &mut buf), Ok(5));
    assert_eq!(buf, [0, 1, 2, 3, 0]);
    // a page never written reads nothing
    let mut buf = [7u8; 4];
    assert_eq!(f.read(&s, 0, &mut buf), Ok(0));
    assert_eq!(buf, [7u8; 4]);
    // a read or write must stay in one page
    assert_eq!(f.write(&mut s, 510, &[1, 2, 3]), Err(VfsError::IoErr));
    assert_eq!(f.read(&s, 510, &mut [0u8; 3]), Err(VfsError::IoErr));
    assert_eq!(f.write(&mut s, 0, &[0u8; 513]), Err(VfsError::IoErr));
    assert_eq!(f.file_size(&s), 512);
}

#[test]
fn pagevfs_branch_commit_rollback() {
    let mut s = Store::new();
    let f = s.open("main.db", OpenAccess::Create).unwrap();
    f.write(&mut s, 0, &[1; 4]).unwrap();

    s.branch();
    f.write(&mut s, 0, &[2; 2]).unwrap();
    f.write(&mut s, 1024, &[3; 2]).unwrap();
    let mut buf = [0u8; 4];
    f.read(&s, 0, &mut buf).unwrap();
    assert_eq!(buf, [2, 2, 1, 1]);
    assert_eq!(f.file_size(&s), 2 * 512);
    s.rollback();
    f.read(&s, 0, &mut buf).unwrap();
    assert_eq!(buf, [1; 4]);
    assert_eq!(f.read(&s, 1024, &mut buf), Ok(0));
    assert_eq!(f.file_size(&s), 512);

    s.branch();
    f.write(&mut s, 2, &[4; 2]).unwrap();
    s.commit();
    f.read(&s, 0, &mut buf).unwrap();
    assert_eq!(buf, [1, 1, 4, 4]);
    // committing on the root layer changes nothing
    s.commit();
    f.read(&s, 0, &mut buf).unwrap();
    assert_eq!(buf, [1, 1, 4, 4]);
}

#[test]
fn pagevfs_files_have_separate_pages() {
    let mut s = Store::new();
    let a = s.open("a", OpenAccess::Create).unwrap();
    let b = s.open("b", OpenAccess::Create).unwrap();
    a.write(&mut s, 0, &[9]).unwrap();
    let mut buf = [0u8; 1];
    assert_eq!(b.read(&s, 0, &mut buf), Ok(0));
    assert_eq!(a.file_size(&s), 512);
    assert_eq!(b.file_size(&s), 0);
}
