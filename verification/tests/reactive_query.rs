use sqlsync::reactive_query::{root_pages_of_plan, ReactiveQuery};
use sqlsync::storage::StorageChange;

fn monitored(root_pages: Vec<u32>) -> ReactiveQuery<i64> {
    let mut q = ReactiveQuery::new("SELECT * FROM t".to_string(), vec![1i64]);
    q.monitor(root_pages);
    q
}

#[test]
fn reactive_query_starts_dirty() {
    let q: ReactiveQuery<i64> = ReactiveQuery::new("SELECT 1".to_string(), vec![]);
    assert!(q.is_dirty());
    assert_eq!(q.sql(), "SELECT 1");
    assert_eq!(q.explain_sql(), "EXPLAIN SELECT 1");
    assert!(q.params().is_empty());
}

#[test]
fn reactive_query_follows_its_tables() {
    let mut q = monitored(vec![7, 3, 7, 5]);
    assert!(!q.is_dirty());
    // an unrelated table
    let change = StorageChange::Tables { root_pages_sorted: vec![1, 2, 4] };
    assert!(!q.handle_storage_change(&change));
    // one of its tables
    let change = StorageChange::Tables { root_pages_sorted: vec![2, 5] };
    assert!(q.handle_storage_change(&change));
    assert!(q.is_dirty());
    // a dirty query stays dirty
    let change = StorageChange::Tables { root_pages_sorted: vec![] };
    assert!(q.handle_storage_change(&change));
}

#[test]
fn reactive_query_full_change_and_errors() {
    let mut q = monitored(vec![4]);
    assert!(q.handle_storage_change(&StorageChange::Full));
    let mut q = monitored(vec![4]);
    q.mark_error();
    assert!(!q.is_dirty());
    // a failed query is retried on any change
    let change = StorageChange::Tables { root_pages_sorted: vec![] };
    assert!(q.handle_storage_change(&change));
    q.mark_dirty();
    assert!(q.is_dirty());
}

#[test]
fn plan_root_pages_are_open_read_operands() {
    let plan = vec![
        ("Init".to_string(), 0i64),
        ("OpenRead".to_string(), 2),
        ("Rewind".to_string(), 0),
        ("OpenRead".to_string(), 5),
        ("OpenWrite".to_string(), 7),
        ("OpenRead".to_string(), 2),
    ];
    assert_eq!(root_pages_of_plan(&plan), Ok(vec![2, 5, 2]));
    let bad = vec![("OpenRead".to_string(), -1i64)];
    assert_eq!(root_pages_of_plan(&bad), Err(-1));
}
