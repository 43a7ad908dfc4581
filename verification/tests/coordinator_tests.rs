use keysweep::coordinator::run_all;
use keysweep::report::aggregate;
use keysweep::store::{FaultMode, KeyTtl, Store, StoreError};
use keysweep::sweep::Rule;

fn rule(name: &str, pattern: &str, ttl_seconds: u64, batch: usize) -> Rule {
    Rule {
        name: name.to_string(),
        pattern: pattern.as_bytes().to_vec(),
        ttl_seconds,
        batch,
    }
}

fn key(s: &str) -> Vec<u8> {
    s.as_bytes().to_vec()
}

#[test]
fn one_failing_rule_never_disturbs_the_others() {
    let mut s0 = Store::new(FaultMode::Reliable);
    s0.append(key("a:1"), None);
    s0.append(key("a:2"), None);
    let mut s1 = Store::new(FaultMode::ScanFails);
    s1.append(key("b:1"), None);
    let mut s2 = Store::new(FaultMode::Reliable);
    s2.append(key("c:1"), None);
    s2.append(key("c:2"), Some(4));

    let rules = vec![
        rule("a", "a:*", 60, 10),
        rule("b", "b:*", 60, 10),
        rule("c", "c:*", 60, 10),
    ];
    let (stores, outcomes) = run_all(vec![s0, s1, s2], rules, false);

    assert_eq!(outcomes.len(), 3);
    assert!(outcomes[0].error.is_none());
    assert_eq!(outcomes[0].keys_processed, 2);
    assert_eq!(outcomes[1].error, Some(StoreError::Scan));
    assert_eq!(outcomes[1].keys_processed, 0);
    assert!(outcomes[2].error.is_none());
    assert_eq!(outcomes[2].keys_processed, 1);
    assert_eq!(outcomes.iter().filter(|o| o.error.is_some()).count(), 1);

    assert_eq!(stores[0].get_ttl(&key("a:1")).unwrap(), KeyTtl::Expires(60));
    assert_eq!(stores[2].get_ttl(&key("c:1")).unwrap(), KeyTtl::Expires(60));
    assert_eq!(stores[2].get_ttl(&key("c:2")).unwrap(), KeyTtl::Expires(4));
}

#[test]
fn outcomes_preserve_rule_order() {
    let stores = vec![
        Store::new(FaultMode::Reliable),
        Store::new(FaultMode::Reliable),
    ];
    let rules = vec![rule("first", "x:*", 10, 5), rule("second", "y:*", 20, 5)];
    let (_, outcomes) = run_all(stores, rules, true);
    assert_eq!(outcomes.len(), 2);
    assert_eq!(outcomes[0].rule.name, "first");
    assert_eq!(outcomes[1].rule.name, "second");
}

#[test]
fn empty_report_is_healthy() {
    let report = aggregate(Vec::new());
    assert!(report.overall_ok);
    assert!(report.outcomes.is_empty());
}

#[test]
fn report_is_healthy_when_no_outcome_errs() {
    let mut store = Store::new(FaultMode::Reliable);
    store.append(key("a:1"), None);
    let (_, outcomes) = run_all(vec![store], vec![rule("a", "a:*", 60, 10)], false);
    let report = aggregate(outcomes);
    assert!(report.overall_ok);
    assert_eq!(report.outcomes.len(), 1);
}

#[test]
fn report_is_degraded_when_any_outcome_errs() {
    let stores = vec![
        Store::new(FaultMode::Reliable),
        Store::new(FaultMode::ScanFails),
    ];
    let rules = vec![rule("a", "a:*", 60, 10), rule("b", "b:*", 60, 10)];
    let (_, outcomes) = run_all(stores, rules, false);
    let report = aggregate(outcomes);
    assert!(!report.overall_ok);
}
