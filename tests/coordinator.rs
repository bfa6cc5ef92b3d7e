use std::collections::HashMap;

use coalesce_cache::cache_aside::{CacheAside, CacheError, StoreError};
use coalesce_cache::flight::{FlightTable, Role};
use coalesce_cache::record::Account;
use coalesce_cache::singleflight::{Action, Call, SingleFlight, Stage};

#[derive(Default)]
struct MemStore {
    map: HashMap<String, String>,
    ttls: HashMap<String, u64>,
    fail_reads: bool,
    failing_writes: usize,
}

impl MemStore {
    fn get(&self, k: &str) -> Result<Option<String>, StoreError> {
        if self.fail_reads {
            Err(StoreError::Unavailable)
        } else {
            Ok(self.map.get(k).cloned())
        }
    }

    fn set(&mut self, k: String, v: String, ttl: u64) -> Result<(), StoreError> {
        if self.failing_writes > 0 {
            self.failing_writes -= 1;
            return Err(StoreError::Unavailable);
        }
        self.ttls.insert(k.clone(), ttl);
        self.map.insert(k, v);
        Ok(())
    }
}

/// Performs actions until the call waits or ends.
fn drive(
    sf: &mut SingleFlight<u32>,
    store: &mut MemStore,
    call: &mut Call,
    mut act: Action<u32>,
) -> Action<u32> {
    loop {
        act = match act {
            Action::Read(k) => {
                let r = store.get(&k);
                sf.on_read(call, r)
            }
            Action::Join => sf.join(call, 7),
            Action::Fetch => sf.on_fetched(call),
            Action::Write(k, v, ttl) => {
                let ack = store.set(k, v, ttl);
                sf.on_written(call, ack)
            }
            Action::Release => {
                let (marker, res) = sf.release(call);
                assert_eq!(marker, Some(7));
                return Action::Done(res);
            }
            other => return other,
        }
    }
}

fn get(sf: &mut SingleFlight<u32>, store: &mut MemStore, id: &str) -> Result<Account, CacheError> {
    let (mut call, act) = Call::start::<u32>(id);
    match drive(sf, store, &mut call, act) {
        Action::Done(r) => r,
        _ => panic!("a lone call does not wait"),
    }
}

fn fields(a: &Account) -> (u64, i64, String) {
    (a.id, a.balance_cents, a.name.clone())
}

#[test]
fn first_get_fetches_second_hits() {
    let mut sf: SingleFlight<u32> = SingleFlight::new(CacheAside::new(30));
    let mut store = MemStore::default();
    let a = get(&mut sf, &mut store, "42").unwrap();
    assert_eq!(fields(&a), (42, 1000, "John Doe".to_string()));
    assert_eq!(sf.cache.metrics.origin_fetches, 1);
    assert_eq!(sf.cache.metrics.misses, 1);
    assert_eq!(sf.cache.metrics.hits, 0);
    assert_eq!(
        store.map.get("acct:42").map(|s| s.as_str()),
        Some(r#"{"id":42,"balance_cents":1000,"name":"John Doe"}"#)
    );
    assert_eq!(store.ttls.get("acct:42"), Some(&30));
    assert!(!sf.flights.contains("42"));

    let b = get(&mut sf, &mut store, "42").unwrap();
    assert_eq!(fields(&b), fields(&a));
    assert_eq!(sf.cache.metrics.origin_fetches, 1);
    assert_eq!(sf.cache.metrics.misses, 1);
    assert_eq!(sf.cache.metrics.hits, 1);
}

#[test]
fn fifty_concurrent_gets_fetch_once() {
    let mut sf: SingleFlight<u32> = SingleFlight::new(CacheAside::new(30));
    let mut store = MemStore::default();
    let mut calls = Vec::new();
    let mut acts = Vec::new();
    for _ in 0..50 {
        let (mut c, a) = Call::start::<u32>("42");
        // every first read happens before anyone has fetched
        let a = match a {
            Action::Read(k) => {
                let r = store.get(&k);
                sf.on_read(&mut c, r)
            }
            _ => panic!("a call starts with a read"),
        };
        assert!(matches!(a, Action::Join));
        calls.push(c);
        acts.push(a);
    }
    let mut roles = Vec::new();
    for c in calls.iter_mut() {
        roles.push(sf.join(c, 7));
    }
    let leaders = calls.iter().filter(|c| c.leader).count();
    assert_eq!(leaders, 1);
    assert!(calls[0].leader);
    let mut results = Vec::new();
    let first = roles.remove(0);
    match drive(&mut sf, &mut store, &mut calls[0], first) {
        Action::Done(r) => results.push(r.unwrap()),
        _ => panic!("the leader finishes"),
    }
    for (c, act) in calls.iter_mut().skip(1).zip(roles.into_iter()) {
        assert!(matches!(act, Action::Wait(7)));
        assert_eq!(c.stage, Stage::Waiting);
        let act = c.woken::<u32>();
        match drive(&mut sf, &mut store, c, act) {
            Action::Done(r) => results.push(r.unwrap()),
            _ => panic!("a woken follower finishes"),
        }
    }
    assert_eq!(results.len(), 50);
    for r in results.iter() {
        assert_eq!(fields(r), (42, 1000, "John Doe".to_string()));
    }
    assert_eq!(sf.cache.metrics.origin_fetches, 1);
    assert_eq!(sf.cache.metrics.misses, 1);
    assert_eq!(sf.cache.metrics.hits, 49);
}

#[test]
fn followers_retry_after_leader_failure() {
    let mut sf: SingleFlight<u32> = SingleFlight::new(CacheAside::new(30));
    let mut store = MemStore { failing_writes: 1, ..MemStore::default() };
    let mut calls = Vec::new();
    for _ in 0..3 {
        let (mut c, a) = Call::start::<u32>("42");
        let a = match a {
            Action::Read(k) => {
                let r = store.get(&k);
                sf.on_read(&mut c, r)
            }
            _ => panic!("a call starts with a read"),
        };
        assert!(matches!(a, Action::Join));
        let a = sf.join(&mut c, 7);
        calls.push((c, a));
    }
    assert!(calls[0].0.leader);
    assert!(matches!(calls[1].1, Action::Wait(7)));
    assert!(matches!(calls[2].1, Action::Wait(7)));
    // the leader fails its write and releases
    let first = std::mem::replace(&mut calls[0].1, Action::Fetch);
    let done = drive(&mut sf, &mut store, &mut calls[0].0, first);
    assert!(matches!(done, Action::Done(Err(CacheError::StoreUnavailable))));
    assert!(!sf.flights.contains("42"));
    // both followers reread before either has written
    let mut pending = Vec::new();
    for (c, _) in calls.iter_mut().skip(1) {
        let act = c.woken::<u32>();
        let act = match act {
            Action::Read(k) => {
                let r = store.get(&k);
                sf.on_read(c, r)
            }
            _ => panic!("a woken follower reads"),
        };
        assert!(matches!(act, Action::Fetch));
        pending.push(act);
    }
    for ((c, _), act) in calls.iter_mut().skip(1).zip(pending.into_iter()) {
        match drive(&mut sf, &mut store, c, act) {
            Action::Done(r) => assert_eq!(fields(&r.unwrap()).0, 42),
            _ => panic!("a follower finishes"),
        }
    }
    assert_eq!(sf.cache.metrics.origin_fetches, 3);
    assert_eq!(sf.cache.metrics.misses, 3);
}

#[test]
fn invalid_key_is_reported() {
    let mut sf: SingleFlight<u32> = SingleFlight::new(CacheAside::new(30));
    let mut store = MemStore::default();
    assert!(matches!(get(&mut sf, &mut store, "4x2"), Err(CacheError::InvalidKey)));
    assert!(matches!(get(&mut sf, &mut store, ""), Err(CacheError::InvalidKey)));
    assert!(store.map.is_empty());
    assert!(!sf.flights.contains("4x2"));
}

#[test]
fn store_failure_is_reported() {
    let mut sf: SingleFlight<u32> = SingleFlight::new(CacheAside::new(30));
    let mut store = MemStore { fail_reads: true, ..MemStore::default() };
    assert!(matches!(get(&mut sf, &mut store, "42"), Err(CacheError::StoreUnavailable)));
    assert_eq!(sf.cache.metrics.origin_fetches, 0);
    assert_eq!(sf.cache.metrics.misses, 0);
}

#[test]
fn corrupt_entry_is_not_a_miss() {
    let mut sf: SingleFlight<u32> = SingleFlight::new(CacheAside::new(30));
    let mut store = MemStore::default();
    store.map.insert("acct:42".to_string(), "{broken".to_string());
    assert!(matches!(get(&mut sf, &mut store, "42"), Err(CacheError::CorruptEntry)));
    assert_eq!(sf.cache.metrics.origin_fetches, 0);
    assert_eq!(sf.cache.metrics.hits, 0);
    assert_eq!(sf.cache.metrics.misses, 0);
}

#[test]
fn uncoalesced_get_fetches_on_miss() {
    let mut sf: SingleFlight<u32> = SingleFlight::new(CacheAside::new(5));
    let mut store = MemStore::default();
    let (mut call, act) = Call::start_uncoalesced::<u32>("9");
    match drive(&mut sf, &mut store, &mut call, act) {
        Action::Done(r) => assert_eq!(fields(&r.unwrap()), (9, 1000, "John Doe".to_string())),
        _ => panic!("a plain read finishes"),
    }
    assert_eq!(store.ttls.get("acct:9"), Some(&5));
    assert_eq!(sf.cache.metrics.misses, 1);
    assert_eq!(sf.cache.metrics.origin_fetches, 1);
}

#[test]
fn account_key_has_namespace() {
    assert_eq!(CacheAside::account_key("42"), "acct:42");
}

#[test]
fn fetch_from_db_builds_record() {
    let mut c = CacheAside::new(30);
    let a = c.fetch_from_db("18446744073709551615").unwrap();
    assert_eq!(a.id, u64::MAX);
    assert!(matches!(c.fetch_from_db("18446744073709551616"), Err(CacheError::InvalidKey)));
    assert!(matches!(c.fetch_from_db("-1"), Err(CacheError::InvalidKey)));
    assert_eq!(c.metrics.origin_fetches, 3);
}

#[test]
fn key_with_plus_sign_is_accepted() {
    let mut c = CacheAside::new(30);
    let a = c.fetch_from_db("+42").unwrap();
    assert_eq!(fields(&a), (42, 1000, "John Doe".to_string()));
    assert!(matches!(c.fetch_from_db("+"), Err(CacheError::InvalidKey)));
    assert!(matches!(c.fetch_from_db(""), Err(CacheError::InvalidKey)));
    assert!(matches!(c.fetch_from_db("++1"), Err(CacheError::InvalidKey)));
    assert!(matches!(c.fetch_from_db("-"), Err(CacheError::InvalidKey)));
}

#[test]
fn flight_table_one_leader_per_key() {
    let mut t: FlightTable<u32> = FlightTable::new();
    assert!(matches!(t.arbitrate("a", 1), Role::Leader));
    assert!(matches!(t.arbitrate("a", 2), Role::Follower(1)));
    assert!(matches!(t.arbitrate("b", 3), Role::Leader));
    assert_eq!(t.finish("a"), Some(1));
    assert_eq!(t.finish("a"), None);
    assert!(!t.contains("a"));
    assert!(t.contains("b"));
    assert!(matches!(t.arbitrate("a", 4), Role::Leader));
}
