use keysweep::store::{FaultMode, KeyTtl, Store, StoreError};
use keysweep::sweep::{run_sweep, Rule};
use keysweep::MAX_ITERATIONS;

fn rule(pattern: &str, ttl_seconds: u64, batch: usize) -> Rule {
    Rule {
        name: "test-rule".to_string(),
        pattern: pattern.as_bytes().to_vec(),
        ttl_seconds,
        batch,
    }
}

fn key(s: &str) -> Vec<u8> {
    s.as_bytes().to_vec()
}

#[test]
fn no_matching_keys_processes_nothing() {
    let mut store = Store::new(FaultMode::Reliable);
    store.append(key("cache:1"), None);
    store.append(key("cache:2"), Some(50));
    let outcome = run_sweep(&mut store, rule("session:*", 3600, 10), false);
    assert_eq!(outcome.keys_processed, 0);
    assert!(outcome.iterations >= 1);
    assert!(outcome.error.is_none());
    assert_eq!(store.get_ttl(&key("cache:1")).unwrap(), KeyTtl::Persistent);
}

#[test]
fn empty_store_still_scans_one_page() {
    let mut store = Store::new(FaultMode::Reliable);
    let outcome = run_sweep(&mut store, rule("session:*", 3600, 10), false);
    assert_eq!(outcome.keys_processed, 0);
    assert_eq!(outcome.iterations, 1);
    assert!(outcome.error.is_none());
}

#[test]
fn keys_with_ttl_are_never_touched_or_counted() {
    let mut store = Store::new(FaultMode::Reliable);
    store.append(key("session:a"), Some(100));
    store.append(key("session:b"), None);
    store.append(key("session:c"), Some(7));
    let outcome = run_sweep(&mut store, rule("session:*", 3600, 10), false);
    assert_eq!(outcome.keys_processed, 1);
    assert!(outcome.error.is_none());
    assert_eq!(store.get_ttl(&key("session:a")).unwrap(), KeyTtl::Expires(100));
    assert_eq!(store.get_ttl(&key("session:b")).unwrap(), KeyTtl::Expires(3600));
    assert_eq!(store.get_ttl(&key("session:c")).unwrap(), KeyTtl::Expires(7));
}

#[test]
fn dry_run_counts_but_never_mutates() {
    let mut store = Store::new(FaultMode::Reliable);
    store.append(key("session:a"), None);
    store.append(key("session:b"), None);
    store.append(key("session:c"), Some(9));
    let dry = run_sweep(&mut store, rule("session:*", 3600, 2), true);
    assert_eq!(dry.keys_processed, 2);
    assert!(dry.error.is_none());
    assert_eq!(store.get_ttl(&key("session:a")).unwrap(), KeyTtl::Persistent);
    assert_eq!(store.get_ttl(&key("session:b")).unwrap(), KeyTtl::Persistent);
    assert_eq!(store.get_ttl(&key("session:c")).unwrap(), KeyTtl::Expires(9));
    let wet = run_sweep(&mut store, rule("session:*", 3600, 2), false);
    assert_eq!(wet.keys_processed, dry.keys_processed);
    assert_eq!(store.get_ttl(&key("session:a")).unwrap(), KeyTtl::Expires(3600));
    assert_eq!(store.get_ttl(&key("session:b")).unwrap(), KeyTtl::Expires(3600));
}

#[test]
fn second_sweep_processes_nothing() {
    let mut store = Store::new(FaultMode::Reliable);
    store.append(key("session:a"), None);
    store.append(key("session:b"), None);
    store.append(key("other:z"), None);
    let first = run_sweep(&mut store, rule("session:*", 60, 10), false);
    assert_eq!(first.keys_processed, 2);
    let second = run_sweep(&mut store, rule("session:*", 60, 10), false);
    assert_eq!(second.keys_processed, 0);
    assert!(second.error.is_none());
    assert_eq!(store.get_ttl(&key("other:z")).unwrap(), KeyTtl::Persistent);
}

#[test]
fn iteration_cap_stops_the_sweep_without_error() {
    let mut store = Store::new(FaultMode::Reliable);
    let n = MAX_ITERATIONS as usize + 1;
    for i in 0..n {
        store.append(format!("k{}", i).into_bytes(), Some(5));
    }
    let outcome = run_sweep(&mut store, rule("zzz*", 60, 1), false);
    assert_eq!(outcome.iterations, MAX_ITERATIONS);
    assert_eq!(outcome.keys_processed, 0);
    assert!(outcome.error.is_none());
}

#[test]
fn exact_page_count_for_small_store() {
    let mut store = Store::new(FaultMode::Reliable);
    for i in 0..5 {
        store.append(format!("session:{}", i).into_bytes(), None);
    }
    let outcome = run_sweep(&mut store, rule("session:*", 60, 2), false);
    assert_eq!(outcome.iterations, 3);
    assert_eq!(outcome.keys_processed, 5);
}

#[test]
fn scenario_session_sweep() {
    let mut store = Store::new(FaultMode::Reliable);
    for i in 0..250 {
        store.append(format!("session:{}", i).into_bytes(), None);
    }
    for i in 0..10 {
        store.append(format!("session:old{}", i).into_bytes(), Some(77));
    }
    let outcome = run_sweep(&mut store, rule("session:*", 3600, 100), false);
    assert_eq!(outcome.keys_processed, 250);
    assert!(outcome.error.is_none());
    for i in 0..250 {
        let t = store
            .get_ttl(&format!("session:{}", i).into_bytes())
            .unwrap();
        match t {
            KeyTtl::Expires(secs) => assert!(secs <= 3600),
            other => panic!("expected a TTL, got {:?}", other),
        }
    }
    for i in 0..10 {
        let t = store
            .get_ttl(&format!("session:old{}", i).into_bytes())
            .unwrap();
        assert_eq!(t, KeyTtl::Expires(77));
    }
}

#[test]
fn scan_failure_is_reported_with_empty_counts() {
    let mut store = Store::new(FaultMode::ScanFails);
    store.append(key("session:a"), None);
    let outcome = run_sweep(&mut store, rule("session:*", 60, 10), false);
    assert_eq!(outcome.error, Some(StoreError::Scan));
    assert_eq!(outcome.keys_processed, 0);
    assert_eq!(outcome.iterations, 0);
    assert_eq!(store.get_ttl(&key("session:a")).unwrap(), KeyTtl::Persistent);
}

#[test]
fn ttl_query_failure_aborts_at_first_matching_key() {
    let mut store = Store::new(FaultMode::TtlFails);
    store.append(key("other:x"), None);
    store.append(key("session:a"), None);
    let outcome = run_sweep(&mut store, rule("session:*", 60, 10), false);
    assert_eq!(outcome.error, Some(StoreError::TtlQuery));
    assert_eq!(outcome.keys_processed, 0);
    assert_eq!(outcome.iterations, 1);
}

#[test]
fn ttl_query_failure_unnoticed_without_matching_keys() {
    let mut store = Store::new(FaultMode::TtlFails);
    store.append(key("other:x"), None);
    let outcome = run_sweep(&mut store, rule("session:*", 60, 10), false);
    assert!(outcome.error.is_none());
    assert_eq!(outcome.keys_processed, 0);
    assert_eq!(outcome.iterations, 1);
}

#[test]
fn expire_failure_aborts_after_first_eligible_key() {
    let mut store = Store::new(FaultMode::ExpireFails);
    store.append(key("session:a"), Some(10));
    store.append(key("session:b"), None);
    let outcome = run_sweep(&mut store, rule("session:*", 60, 10), false);
    assert_eq!(outcome.error, Some(StoreError::Expire));
    assert_eq!(outcome.keys_processed, 1);
    assert_eq!(outcome.iterations, 1);
    assert_eq!(store.get_ttl(&key("session:b")).unwrap(), KeyTtl::Persistent);
}

#[test]
fn expire_failure_is_invisible_to_a_dry_run() {
    let mut store = Store::new(FaultMode::ExpireFails);
    store.append(key("session:a"), None);
    let outcome = run_sweep(&mut store, rule("session:*", 60, 10), true);
    assert!(outcome.error.is_none());
    assert_eq!(outcome.keys_processed, 1);
}

#[test]
fn rule_validation() {
    assert!(Rule::new("r".to_string(), key("p*"), 60, 10).is_some());
    assert!(Rule::new("r".to_string(), key("p*"), 0, 10).is_none());
    assert!(Rule::new("r".to_string(), key("p*"), 60, 0).is_none());
    assert!(Rule::new("r".to_string(), Vec::new(), 60, 10).is_none());
}
