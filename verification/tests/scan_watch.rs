use coordkv::etcd::{Etcd, Event, EventData};
use coordkv::store::KvStore;

fn client() -> Etcd {
    Etcd::new("/zinc/observe")
}

#[test]
fn list_returns_exactly_the_prefixed_entries() {
    let client = client();
    let mut backend = KvStore::new();
    client
        .put(&mut backend, "/cfg/a", b"1".to_vec(), false, None)
        .unwrap();
    client
        .put(&mut backend, "/cfg/b", b"2".to_vec(), false, None)
        .unwrap();
    let listed = client.list(&backend, "/cfg/", 100);
    assert_eq!(
        listed,
        vec![
            ("/cfg/a".to_string(), b"1".to_vec()),
            ("/cfg/b".to_string(), b"2".to_vec()),
        ]
    );
    // keys outside the prefix never appear
    client
        .put(&mut backend, "/zzz", b"9".to_vec(), false, None)
        .unwrap();
    let listed = client.list(&backend, "/cfg/", 100);
    assert_eq!(listed.len(), 2);
}

#[test]
fn list_is_identical_for_every_page_size() {
    let client = client();
    let mut backend = KvStore::new();
    for (k, v) in [
        ("/scan/a", "1"),
        ("/scan/b", "2"),
        ("/scan/c", "3"),
        ("/scan/d", "4"),
        ("/scan/e", "5"),
    ] {
        client
            .put(&mut backend, k, v.as_bytes().to_vec(), false, None)
            .unwrap();
    }
    // a key after the block, so a scan crosses the prefix boundary
    client
        .put(&mut backend, "/zz", b"x".to_vec(), false, None)
        .unwrap();
    let one = client.list(&backend, "/scan/", 1);
    let two = client.list(&backend, "/scan/", 2);
    let huge = client.list(&backend, "/scan/", 10000);
    assert_eq!(one, huge);
    assert_eq!(two, huge);
    assert_eq!(huge.len(), 5);
    assert_eq!(huge[4], ("/scan/e".to_string(), b"5".to_vec()));
}

#[test]
fn list_of_empty_prefix_is_empty_not_an_error() {
    let client = client();
    let backend = KvStore::new();
    assert_eq!(client.list(&backend, "/nothing/", 1).len(), 0);
    assert_eq!(client.list_keys(&backend, "/nothing/", 1).len(), 0);
    assert_eq!(client.list_values(&backend, "/nothing/", 1).len(), 0);
    assert_eq!(client.count(&backend, "/nothing/"), 0);
}

#[test]
fn list_keys_and_values_project_the_pairs() {
    let client = client();
    let mut backend = KvStore::new();
    client
        .put(&mut backend, "/p/x", b"vx".to_vec(), false, None)
        .unwrap();
    client
        .put(&mut backend, "/p/y", b"vy".to_vec(), false, None)
        .unwrap();
    assert_eq!(
        client.list_keys(&backend, "/p/", 1),
        vec!["/p/x".to_string(), "/p/y".to_string()]
    );
    assert_eq!(
        client.list_values(&backend, "/p/", 1),
        vec![b"vx".to_vec(), b"vy".to_vec()]
    );
}

#[test]
fn list_values_by_start_dt_filters_the_inclusive_range() {
    let client = client();
    let mut backend = KvStore::new();
    client
        .put(&mut backend, "/v/a", b"early".to_vec(), false, Some(100))
        .unwrap();
    client
        .put(&mut backend, "/v/a", b"late".to_vec(), false, Some(200))
        .unwrap();
    // a key without a version suffix parses to version zero
    client
        .put(&mut backend, "/v/plain", b"none".to_vec(), false, None)
        .unwrap();

    let mid = client.list_values_by_start_dt(&backend, "/v/", Some((50, 150)), 10);
    assert_eq!(mid, vec![(100, b"early".to_vec())]);

    let both = client.list_values_by_start_dt(&backend, "/v/", Some((100, 200)), 10);
    assert_eq!(both, vec![(100, b"early".to_vec()), (200, b"late".to_vec())]);

    // a malformed (missing) suffix is excluded unless the range includes zero
    let with_zero = client.list_values_by_start_dt(&backend, "/v/", Some((0, 150)), 10);
    assert_eq!(
        with_zero,
        vec![(100, b"early".to_vec()), (0, b"none".to_vec())]
    );

    // no range: everything, tagged with version zero
    let all = client.list_values_by_start_dt(&backend, "/v/", None, 10);
    assert_eq!(all.len(), 3);
    assert!(all.iter().all(|p| p.0 == 0));

    // the (0, 0) range means "no range" as well
    let zz = client.list_values_by_start_dt(&backend, "/v/", Some((0, 0)), 10);
    assert_eq!(zz, all);
}

#[test]
fn watch_delivers_put_then_delete_events() {
    let client = client();
    let mut backend = KvStore::new();
    client
        .put(&mut backend, "/cfg/a", b"1".to_vec(), false, None)
        .unwrap();
    let since = backend.events.len();
    client
        .put(&mut backend, "/cfg/c", b"3".to_vec(), false, None)
        .unwrap();
    let events = client.watch_events(&backend, "/cfg/", since);
    assert_eq!(
        events,
        vec![Event::Put(EventData {
            key: "/cfg/c".to_string(),
            value: Some(b"3".to_vec()),
            start_dt: None,
        })]
    );
    client
        .delete(&mut backend, "/cfg/c", false, false, None)
        .unwrap();
    let events = client.watch_events(&backend, "/cfg/", since);
    assert_eq!(
        events,
        vec![
            Event::Put(EventData {
                key: "/cfg/c".to_string(),
                value: Some(b"3".to_vec()),
                start_dt: None,
            }),
            Event::Delete(EventData {
                key: "/cfg/c".to_string(),
                value: None,
                start_dt: None,
            }),
        ]
    );
}

#[test]
fn watch_ignores_changes_outside_the_prefix() {
    let client = client();
    let mut backend = KvStore::new();
    let since = backend.events.len();
    client
        .put(&mut backend, "/elsewhere", b"1".to_vec(), false, None)
        .unwrap();
    assert_eq!(client.watch_events(&backend, "/cfg/", since).len(), 0);
}
