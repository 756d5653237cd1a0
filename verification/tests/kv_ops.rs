use coordkv::errors::Error;
use coordkv::etcd::Etcd;
use coordkv::store::KvStore;

fn client() -> Etcd {
    Etcd::new("/zinc/observe")
}

#[test]
fn test_etcd_prefix() {
    let client = Etcd::new("/zinc/observe");
    assert_eq!(client.prefix, "/zinc/observe".to_string());
    let trimmed = Etcd::new("/zinc/observe///");
    assert_eq!(trimmed.prefix, "/zinc/observe".to_string());
}

#[test]
fn test_etcd_count() {
    let client = client();
    let mut backend = KvStore::new();
    client
        .put(&mut backend, "/test/count/1", b"1".to_vec(), false, None)
        .unwrap();
    client
        .put(&mut backend, "/test/count/2", b"2".to_vec(), false, None)
        .unwrap();
    client
        .put(&mut backend, "/test/count/3", b"3".to_vec(), false, None)
        .unwrap();
    let count = client.count(&backend, "/test/count");
    assert_eq!(count, 3);
}

#[test]
fn put_then_get_returns_value() {
    let client = client();
    let mut backend = KvStore::new();
    client
        .put(&mut backend, "/cfg/a", b"hello".to_vec(), false, None)
        .unwrap();
    assert_eq!(client.get(&backend, "/cfg/a").unwrap(), b"hello".to_vec());
    // overwrite
    client
        .put(&mut backend, "/cfg/a", b"world".to_vec(), false, None)
        .unwrap();
    assert_eq!(client.get(&backend, "/cfg/a").unwrap(), b"world".to_vec());
}

#[test]
fn delete_then_get_is_not_found() {
    let client = client();
    let mut backend = KvStore::new();
    client
        .put(&mut backend, "/cfg/a", b"1".to_vec(), false, None)
        .unwrap();
    client
        .delete(&mut backend, "/cfg/a", false, false, None)
        .unwrap();
    match client.get(&backend, "/cfg/a") {
        Err(Error::NotFound { key }) => assert_eq!(key, "/zinc/observe/cfg/a"),
        other => panic!("expected a missing key, got {:?}", other.is_ok()),
    }
}

#[test]
fn get_missing_key_reports_full_key() {
    let client = client();
    let backend = KvStore::new();
    match client.get(&backend, "/nope") {
        Err(Error::NotFound { key }) => assert_eq!(key, "/zinc/observe/nope"),
        _ => panic!("expected a missing key"),
    }
}

#[test]
fn get_returns_newest_versioned_record() {
    let client = client();
    let mut backend = KvStore::new();
    client
        .put(&mut backend, "/job", b"plain".to_vec(), false, None)
        .unwrap();
    client
        .put(&mut backend, "/job", b"versioned".to_vec(), false, Some(5))
        .unwrap();
    // the versioned key sorts above the plain one, so the read surfaces it
    let (k, v) = client.get_key_value(&backend, "/job").unwrap();
    assert_eq!(k, "/job/5");
    assert_eq!(v, b"versioned".to_vec());
}

#[test]
fn delete_with_prefix_removes_subtree() {
    let client = client();
    let mut backend = KvStore::new();
    client
        .put(&mut backend, "/tree/a", b"1".to_vec(), false, None)
        .unwrap();
    client
        .put(&mut backend, "/tree/b", b"2".to_vec(), false, None)
        .unwrap();
    client
        .put(&mut backend, "/other", b"3".to_vec(), false, None)
        .unwrap();
    client
        .delete(&mut backend, "/tree", true, false, None)
        .unwrap();
    let listed = client.list(&backend, "/", 100);
    assert_eq!(listed.len(), 1);
    assert_eq!(listed[0].0, "/other");
    assert!(client.get(&backend, "/tree/a").is_err());
}

#[test]
fn delete_versioned_record() {
    let client = client();
    let mut backend = KvStore::new();
    client
        .put(&mut backend, "/job", b"v1".to_vec(), false, Some(7))
        .unwrap();
    client
        .delete(&mut backend, "/job", false, false, Some(7))
        .unwrap();
    assert!(client.get(&backend, "/job").is_err());
}

#[test]
fn stats_counts_keys() {
    let client = client();
    let mut backend = KvStore::new();
    assert_eq!(client.stats(&backend).keys_count, 0);
    client
        .put(&mut backend, "/a", b"xy".to_vec(), false, None)
        .unwrap();
    client
        .put(&mut backend, "/b", b"z".to_vec(), false, None)
        .unwrap();
    let stats = client.stats(&backend);
    assert_eq!(stats.keys_count, 2);
    // bytes: "/zinc/observe/a" (15) + "xy" (2) + "/zinc/observe/b" (15) + "z" (1)
    assert_eq!(stats.bytes_len, 33);
}

#[test]
fn lifecycle_calls_are_no_ops() {
    let client = client();
    assert!(client.create_table().is_ok());
    assert!(client.close().is_ok());
    assert!(client.add_start_dt_column().is_ok());
}
