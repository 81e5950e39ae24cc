use memorydb::memorydb::MemoryDB;
use memorydb::storage::{Change, Cursor, Database, Error, Patch, Snapshot};

fn put(db: &mut MemoryDB, key: &[u8], value: &[u8]) {
    let mut patch = Patch::new();
    patch.insert(key.to_vec(), Change::Put(value.to_vec()));
    assert!(db.merge(patch).is_ok());
}

fn delete(db: &mut MemoryDB, key: &[u8]) {
    let mut patch = Patch::new();
    patch.insert(key.to_vec(), Change::Delete);
    assert!(db.merge(patch).is_ok());
}

fn collect(db: &MemoryDB, from: &[u8]) -> Vec<(Vec<u8>, Vec<u8>)> {
    let mut it = db.iter(from);
    let mut out = Vec::new();
    while let Some(e) = it.next() {
        out.push(e);
    }
    out
}

#[test]
fn new_database_is_empty() {
    let db = MemoryDB::new();
    assert_eq!(db.get(&[]), None);
    assert!(!db.contains(&[1]));
    assert!(collect(&db, &[]).is_empty());
}

#[test]
fn put_then_get() {
    let mut db = MemoryDB::new();
    put(&mut db, b"key", b"value");
    assert_eq!(db.snapshot().get(b"key"), Some(b"value".to_vec()));
    assert!(db.snapshot().contains(b"key"));
}

#[test]
fn put_overwrites() {
    let mut db = MemoryDB::new();
    put(&mut db, &[1], &[1]);
    put(&mut db, &[1], &[2]);
    assert_eq!(db.get(&[1]), Some(vec![2]));
    assert_eq!(collect(&db, &[]).len(), 1);
}

#[test]
fn empty_key_and_value() {
    let mut db = MemoryDB::new();
    put(&mut db, &[], &[]);
    assert_eq!(db.get(&[]), Some(vec![]));
    assert!(db.contains(&[]));
    assert_eq!(collect(&db, &[]), vec![(vec![], vec![])]);
}

#[test]
fn delete_present_key() {
    let mut db = MemoryDB::new();
    put(&mut db, b"a", b"1");
    delete(&mut db, b"a");
    assert_eq!(db.snapshot().get(b"a"), None);
    assert!(!db.contains(b"a"));
}

#[test]
fn delete_absent_key_is_noop() {
    let mut db = MemoryDB::new();
    put(&mut db, b"a", b"1");
    put(&mut db, b"c", b"3");
    delete(&mut db, b"b");
    assert_eq!(db.get(b"a"), Some(b"1".to_vec()));
    assert_eq!(db.get(b"c"), Some(b"3".to_vec()));
    assert_eq!(
        collect(&db, &[]),
        vec![(b"a".to_vec(), b"1".to_vec()), (b"c".to_vec(), b"3".to_vec())]
    );
}

#[test]
fn snapshot_isolation() {
    let mut db = MemoryDB::new();
    put(&mut db, b"k", b"old");
    let s = db.snapshot();
    let mut patch = Patch::new();
    patch.insert(b"k".to_vec(), Change::Put(b"new".to_vec()));
    patch.insert(b"x".to_vec(), Change::Put(b"y".to_vec()));
    assert!(db.merge(patch).is_ok());
    assert_eq!(s.get(b"k"), Some(b"old".to_vec()));
    assert_eq!(s.get(b"x"), None);
    assert_eq!(db.get(b"k"), Some(b"new".to_vec()));
}

#[test]
fn clone_is_independent() {
    let mut db = MemoryDB::new();
    put(&mut db, &[5], &[6]);
    let mut copy = db.clone();
    delete(&mut copy, &[5]);
    assert_eq!(db.get(&[5]), Some(vec![6]));
    assert_eq!(copy.get(&[5]), None);
}

#[test]
fn iteration_order() {
    let mut db = MemoryDB::new();
    let mut patch = Patch::new();
    patch.insert(b"c".to_vec(), Change::Put(b"3".to_vec()));
    patch.insert(b"a".to_vec(), Change::Put(b"1".to_vec()));
    patch.insert(b"b".to_vec(), Change::Put(b"2".to_vec()));
    assert!(db.merge(patch).is_ok());
    let snap = db.snapshot();
    let all: Vec<Vec<u8>> = collect(&snap, b"").into_iter().map(|e| e.0).collect();
    assert_eq!(all, vec![b"a".to_vec(), b"b".to_vec(), b"c".to_vec()]);
    let from_b: Vec<Vec<u8>> = collect(&snap, b"b").into_iter().map(|e| e.0).collect();
    assert_eq!(from_b, vec![b"b".to_vec(), b"c".to_vec()]);
}

#[test]
fn iteration_byte_order_and_prefixes() {
    let mut db = MemoryDB::new();
    put(&mut db, &[2], &[0]);
    put(&mut db, &[1, 255], &[0]);
    put(&mut db, &[1], &[0]);
    put(&mut db, &[255], &[0]);
    put(&mut db, &[1, 0], &[0]);
    let keys: Vec<Vec<u8>> = collect(&db, &[]).into_iter().map(|e| e.0).collect();
    assert_eq!(keys, vec![vec![1], vec![1, 0], vec![1, 255], vec![2], vec![255]]);
    let keys: Vec<Vec<u8>> = collect(&db, &[1, 1]).into_iter().map(|e| e.0).collect();
    assert_eq!(keys, vec![vec![1, 255], vec![2], vec![255]]);
    assert!(collect(&db, &[255, 0]).is_empty());
}

#[test]
fn peek_is_idempotent() {
    let mut db = MemoryDB::new();
    put(&mut db, &[1], &[10]);
    put(&mut db, &[2], &[20]);
    let mut it = db.iter(&[]);
    let first = it.peek();
    assert_eq!(first, Some((vec![1], vec![10])));
    assert_eq!(it.peek(), first);
    assert_eq!(it.next(), first);
    assert_eq!(it.peek(), Some((vec![2], vec![20])));
    assert_eq!(it.next(), Some((vec![2], vec![20])));
    assert_eq!(it.peek(), None);
    assert_eq!(it.next(), None);
    assert_eq!(it.next(), None);
}

#[test]
fn scenario_put_then_delete_and_put() {
    let mut db = MemoryDB::new();
    put(&mut db, &[1, 2], &[9]);
    assert_eq!(db.get(&[1, 2]), Some(vec![9]));
    let mut patch = Patch::new();
    patch.insert(vec![1, 2], Change::Delete);
    patch.insert(vec![3], Change::Put(vec![7]));
    assert!(db.merge(patch).is_ok());
    assert_eq!(db.get(&[1, 2]), None);
    assert_eq!(db.get(&[3]), Some(vec![7]));
    let mut it = db.iter(&[]);
    assert_eq!(it.next(), Some((vec![3], vec![7])));
    assert_eq!(it.next(), None);
}

#[test]
fn scenario_two_snapshots_coexist() {
    let mut db = MemoryDB::new();
    let s1 = db.snapshot();
    put(&mut db, b"k", b"v");
    let s2 = db.snapshot();
    assert_eq!(s1.get(b"k"), None);
    assert_eq!(s2.get(b"k"), Some(b"v".to_vec()));
    assert!(!s1.contains(b"k"));
    assert!(s2.contains(b"k"));
}

#[test]
fn patch_last_change_wins() {
    let mut db = MemoryDB::new();
    put(&mut db, &[4], &[4]);
    let mut patch = Patch::new();
    patch.insert(vec![4], Change::Put(vec![1]));
    patch.insert(vec![4], Change::Delete);
    patch.insert(vec![5], Change::Delete);
    patch.insert(vec![5], Change::Put(vec![50]));
    assert!(db.merge(patch).is_ok());
    assert_eq!(db.get(&[4]), None);
    assert_eq!(db.get(&[5]), Some(vec![50]));
}

#[test]
fn empty_patch_changes_nothing() {
    let mut db = MemoryDB::new();
    put(&mut db, &[1], &[1]);
    assert!(db.merge(Patch::new()).is_ok());
    assert_eq!(collect(&db, &[]), vec![(vec![1], vec![1])]);
}

#[test]
fn error_keeps_message() {
    let e = Error::new(String::from("disk full"));
    assert_eq!(e.description(), "disk full");
}
