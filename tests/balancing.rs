use coalesce_cache::balance::{is_healthy, update_health, Backend, HealthTable, LoadBalancer};

fn backend(url: &str, conns: u32) -> Backend {
    Backend { url: url.to_string(), weight: 1, current_connections: conns }
}

fn urls() -> Vec<Backend> {
    vec![backend("http://a", 3), backend("http://b", 1), backend("http://c", 1)]
}

#[test]
fn unknown_url_is_healthy() {
    let h = HealthTable::new();
    assert!(is_healthy(&h, "http://x"));
}

#[test]
fn update_health_overwrites() {
    let mut h = HealthTable::new();
    update_health(&mut h, "http://x", false);
    assert!(!is_healthy(&h, "http://x"));
    update_health(&mut h, "http://x", true);
    assert!(is_healthy(&h, "http://x"));
    assert!(is_healthy(&h, "http://y"));
}

#[test]
fn round_robin_cycles_and_skips_unhealthy() {
    let mut h = HealthTable::new();
    update_health(&mut h, "http://b", false);
    let mut lb = LoadBalancer::new(urls());
    let picks: Vec<String> = (0..4).map(|_| lb.next_rr(&h).unwrap().url).collect();
    assert_eq!(picks, vec!["http://a", "http://c", "http://a", "http://c"]);
}

#[test]
fn round_robin_none_healthy() {
    let mut h = HealthTable::new();
    for b in urls() {
        update_health(&mut h, &b.url, false);
    }
    let mut lb = LoadBalancer::new(urls());
    assert!(lb.next_rr(&h).is_none());
    assert!(LoadBalancer::new(Vec::new()).next_rr(&h).is_none());
}

#[test]
fn least_connections_takes_first_minimum() {
    let mut h = HealthTable::new();
    let lb = LoadBalancer::new(urls());
    assert_eq!(lb.next_least_connections(&h).unwrap().url, "http://b");
    update_health(&mut h, "http://b", false);
    assert_eq!(lb.next_least_connections(&h).unwrap().url, "http://c");
}

#[test]
fn hash_pick_is_modulo_healthy() {
    let mut h = HealthTable::new();
    update_health(&mut h, "http://a", false);
    let lb = LoadBalancer::new(urls());
    assert_eq!(lb.pick_by_hash(&h, 0).unwrap().url, "http://b");
    assert_eq!(lb.pick_by_hash(&h, 5).unwrap().url, "http://c");
    update_health(&mut h, "http://b", false);
    update_health(&mut h, "http://c", false);
    assert!(lb.pick_by_hash(&h, 5).is_none());
}

#[test]
fn consistent_hash_uses_crc32_of_key() {
    let h = HealthTable::new();
    let lb = LoadBalancer::new(urls());
    let crc = crc32fast::hash(b"test");
    assert_eq!(crc, 0xD87F7E0C);
    let expected = &urls()[(crc as usize) % 3];
    assert_eq!(lb.next_consistent_hash(&h, "test").unwrap().url, expected.url);
    let other = &urls()[(crc32fast::hash(b"user-17") as usize) % 3];
    assert_eq!(lb.next_consistent_hash(&h, "user-17").unwrap().url, other.url);
}
