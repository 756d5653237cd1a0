use coordkv::errors::Error;
use coordkv::etcd::{Etcd, Event, EventData};
use coordkv::lease::{health_key, KeepAlive, KeepAliveAction, KeepAliveEvent};
use coordkv::lock::{lock_attempts, LockState, Locker};
use coordkv::store::KvStore;
use coordkv::txn::{build_meta_lock_scope, UpdateDecision};

fn client() -> Etcd {
    Etcd::new("/zinc/observe")
}

fn counter_update(old: Option<Vec<u8>>) -> UpdateDecision {
    // the old count, or zero when the key is absent, plus one
    let n: i64 = match old {
        None => 0,
        Some(bytes) => String::from_utf8(bytes).unwrap().parse().unwrap_or(0),
    };
    UpdateDecision::Write {
        old_rewrite: Some(format!("{}", n + 1).into_bytes()),
        new_entry: None,
    }
}

#[test]
fn lock_names_are_scoped_into_the_locker_namespace() {
    let locker = Locker::new("/meta/k/0", "/zinc/observe");
    assert_eq!(locker.key, "/zinc/observelocker/meta/k/0");
    assert_eq!(locker.state, LockState::Init);
    assert_eq!(build_meta_lock_scope("/k", Some(7)), "/meta/k/7");
    assert_eq!(build_meta_lock_scope("/k", None), "/meta/k/0");
}

#[test]
fn lock_attempt_budget_is_bounded_and_positive() {
    // timeout zero means the configured default
    assert_eq!(lock_attempts(0, 600, 5), 120);
    assert_eq!(lock_attempts(0, 3, 5), 1);
    assert_eq!(lock_attempts(7, 600, 5), 1);
    assert_eq!(lock_attempts(10, 600, 5), 2);
}

#[test]
fn lock_and_unlock_round_trip() {
    let mut backend = KvStore::new();
    let mut locker = Locker::new("/meta/x/0", "/zinc/observe");
    locker.lock(&mut backend, 0, 600, 5).unwrap();
    assert_eq!(locker.state, LockState::Locked);
    locker.unlock(&mut backend).unwrap();
    assert_eq!(locker.state, LockState::Released);
    // a fresh attempt on the same name succeeds again
    let mut second = Locker::new("/meta/x/0", "/zinc/observe");
    second.lock(&mut backend, 0, 600, 5).unwrap();
}

#[test]
fn unlock_without_a_lock_is_a_no_op() {
    let mut backend = KvStore::new();
    let mut locker = Locker::new("/meta/x/0", "/zinc/observe");
    assert!(locker.unlock(&mut backend).is_ok());
    assert_eq!(locker.state, LockState::Init);
}

#[test]
fn held_lock_times_out_within_the_attempt_budget() {
    let mut backend = KvStore::new();
    let mut holder = Locker::new("/meta/busy/0", "/zinc/observe");
    holder.lock(&mut backend, 0, 600, 5).unwrap();
    // the same name, timeout zero: bounded retries, then a lock timeout
    let mut waiter = Locker::new("/meta/busy/0", "/zinc/observe");
    match waiter.lock(&mut backend, 0, 600, 5) {
        Err(Error::LockTimeout { key }) => {
            assert_eq!(key, "/zinc/observelocker/meta/busy/0")
        }
        _ => panic!("expected a lock timeout"),
    }
    assert_eq!(waiter.state, LockState::Init);
}

#[test]
fn rewrite_on_an_absent_key_creates_the_logical_key() {
    let client = client();
    let mut backend = KvStore::new();
    client
        .get_for_update(&mut backend, "/fresh", false, None, 600, 5, |old| {
            assert!(old.is_none());
            UpdateDecision::Write {
                old_rewrite: Some(b"seeded".to_vec()),
                new_entry: None,
            }
        })
        .unwrap();
    let (k, v) = client.get_key_value(&backend, "/fresh").unwrap();
    assert_eq!(k, "/fresh");
    assert_eq!(v, b"seeded".to_vec());
}

#[test]
fn get_for_update_applies_the_increment() {
    let client = client();
    let mut backend = KvStore::new();
    client
        .get_for_update(&mut backend, "/counter", false, None, 600, 5, counter_update)
        .unwrap();
    assert_eq!(client.get(&backend, "/counter").unwrap(), b"1".to_vec());
    client
        .get_for_update(&mut backend, "/counter", false, None, 600, 5, counter_update)
        .unwrap();
    assert_eq!(client.get(&backend, "/counter").unwrap(), b"2".to_vec());
}

#[test]
fn serialized_increments_compose_to_the_total() {
    let client = client();
    let mut backend = KvStore::new();
    // ten tasks of ten serialized increments each
    for _task in 0..10 {
        for _call in 0..10 {
            client
                .get_for_update(&mut backend, "/counter", false, None, 600, 5, counter_update)
                .unwrap();
        }
    }
    assert_eq!(client.get(&backend, "/counter").unwrap(), b"100".to_vec());
}

#[test]
fn get_for_update_releases_the_lock_when_the_update_rejects() {
    let client = client();
    let mut backend = KvStore::new();
    let result = client.get_for_update(&mut backend, "/counter", false, None, 600, 5, |_old| {
        UpdateDecision::Reject {
            detail: "not today".to_string(),
        }
    });
    match result {
        Err(Error::UpdateRejected { detail }) => assert_eq!(detail, "not today"),
        _ => panic!("expected the rejection to propagate"),
    }
    // nothing was written
    assert!(client.get(&backend, "/counter").is_err());
    // and the lock is free: an immediate attempt on the same scope succeeds
    let scope = build_meta_lock_scope("/counter", None);
    let mut locker = Locker::new(&scope, "/zinc/observe");
    locker.lock(&mut backend, 0, 600, 5).unwrap();
    assert_eq!(locker.state, LockState::Locked);
}

#[test]
fn get_for_update_writes_show_on_a_watch() {
    let client = client();
    let mut backend = KvStore::new();
    let since = backend.events.len();
    client
        .get_for_update(&mut backend, "/counter", false, None, 600, 5, counter_update)
        .unwrap();
    let events = client.watch_events(&backend, "/counter", since);
    assert_eq!(
        events,
        vec![Event::Put(EventData {
            key: "/counter".to_string(),
            value: Some(b"1".to_vec()),
            start_dt: None,
        })]
    );
}

#[test]
fn get_for_update_keep_leaves_the_store_unchanged() {
    let client = client();
    let mut backend = KvStore::new();
    client
        .put(&mut backend, "/cfg/a", b"1".to_vec(), false, None)
        .unwrap();
    client
        .get_for_update(&mut backend, "/cfg/a", false, None, 600, 5, |_old| {
            UpdateDecision::Keep
        })
        .unwrap();
    assert_eq!(client.get(&backend, "/cfg/a").unwrap(), b"1".to_vec());
}

#[test]
fn get_for_update_can_promote_to_a_versioned_record() {
    let client = client();
    let mut backend = KvStore::new();
    client
        .put(&mut backend, "/draft", b"draft".to_vec(), false, None)
        .unwrap();
    client
        .get_for_update(&mut backend, "/draft", false, None, 600, 5, |old| {
            let body = old.unwrap();
            UpdateDecision::Write {
                old_rewrite: Some(b"promoted".to_vec()),
                new_entry: Some(("/published".to_string(), body, Some(42))),
            }
        })
        .unwrap();
    assert_eq!(client.get(&backend, "/draft").unwrap(), b"promoted".to_vec());
    let (k, v) = client.get_key_value(&backend, "/published").unwrap();
    assert_eq!(k, "/published/42");
    assert_eq!(v, b"draft".to_vec());
}

#[test]
fn get_for_update_times_out_when_the_scope_is_held() {
    let client = client();
    let mut backend = KvStore::new();
    let scope = build_meta_lock_scope("/busy", None);
    let mut holder = Locker::new(&scope, "/zinc/observe");
    holder.lock(&mut backend, 0, 600, 5).unwrap();
    let result = client.get_for_update(&mut backend, "/busy", false, None, 600, 5, |_old| {
        UpdateDecision::Keep
    });
    assert!(matches!(result, Err(Error::LockTimeout { .. })));
}

#[test]
fn keep_alive_intervals_follow_the_lease() {
    let mut ka = KeepAlive::new(6);
    assert_eq!(ka.interval, 3);
    let ka30 = KeepAlive::new(30);
    assert_eq!(ka30.interval, 5);

    // a failure tightens the interval and reconnects
    assert_eq!(ka.step(KeepAliveEvent::SendFailed), KeepAliveAction::Reconnect);
    assert_eq!(ka.interval, 1);
    // a live renewal relaxes it back toward the steady state
    assert_eq!(
        ka.step(KeepAliveEvent::Renewed { ttl: 6 }),
        KeepAliveAction::Renew
    );
    assert_eq!(ka.interval, 3);
    let mut ka40 = KeepAlive::new(40);
    assert_eq!(
        ka40.step(KeepAliveEvent::Renewed { ttl: 40 }),
        KeepAliveAction::Renew
    );
    assert_eq!(ka40.interval, 10);
    // a zero TTL means the lease is gone: fatal
    assert_eq!(
        ka.step(KeepAliveEvent::Renewed { ttl: 0 }),
        KeepAliveAction::Fatal
    );
    // a read failure also reconnects tightly
    assert_eq!(ka.step(KeepAliveEvent::RecvFailed), KeepAliveAction::Reconnect);
    assert_eq!(ka.interval, 1);
    // establishment failures retry without touching the interval
    assert_eq!(
        ka.step(KeepAliveEvent::EstablishFailed),
        KeepAliveAction::Reconnect
    );
    // and a stop request finishes
    assert_eq!(ka.step(KeepAliveEvent::Stopped), KeepAliveAction::Finish);
}

#[test]
fn health_key_is_under_the_store_prefix() {
    assert_eq!(health_key("/zinc/observe"), "/zinc/observehealthz");
}
