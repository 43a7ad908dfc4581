use keysweep::glob::glob_matches;

fn m(pattern: &str, key: &str) -> bool {
    glob_matches(&pattern.as_bytes().to_vec(), &key.as_bytes().to_vec())
}

#[test]
fn literal_pattern_matches_itself() {
    assert!(m("session:abc", "session:abc"));
    assert!(!m("session:abc", "session:abd"));
    assert!(!m("session:abc", "session:ab"));
    assert!(!m("session:ab", "session:abc"));
}

#[test]
fn star_matches_any_run() {
    assert!(m("session:*", "session:"));
    assert!(m("session:*", "session:123"));
    assert!(m("*", ""));
    assert!(m("*", "anything"));
    assert!(m("a*c", "abbbc"));
    assert!(m("a*c", "ac"));
    assert!(!m("a*c", "abd"));
    assert!(!m("session:*", "cache:123"));
}

#[test]
fn question_matches_exactly_one_byte() {
    assert!(m("a?c", "abc"));
    assert!(!m("a?c", "ac"));
    assert!(!m("a?c", "abbc"));
    assert!(m("??", "xy"));
    assert!(!m("??", "x"));
}

#[test]
fn empty_pattern_matches_only_empty_key() {
    assert!(m("", ""));
    assert!(!m("", "x"));
}

#[test]
fn star_combinations() {
    assert!(m("*:*", "session:1"));
    assert!(m("a*b*c", "aXbYc"));
    assert!(!m("a*b*c", "aXcYb"));
}
