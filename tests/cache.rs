use actividades_rust::cache::CacheManager;
use actividades_rust::record::Record;

const SEC: u128 = 1_000_000_000;

fn one(v: &str) -> Vec<Record> {
    let mut r = Record::new();
    r.insert("k".to_string(), v.to_string());
    vec![r]
}

fn value_of(rs: &Option<Vec<Record>>) -> Option<String> {
    rs.as_ref().map(|v| v[0].get("k").cloned().unwrap_or_default())
}

#[test]
fn fresh_entry_is_returned_until_ttl() {
    let mut c = CacheManager::new(5);
    c.set_at("a".to_string(), one("x"), 10 * SEC);
    assert_eq!(value_of(&c.get_at("a", 10 * SEC)), Some("x".to_string()));
    assert_eq!(value_of(&c.get_at("a", 14 * SEC + SEC - 1)), Some("x".to_string()));
    assert_eq!(value_of(&c.get_at("a", 15 * SEC)), None);
    assert_eq!(value_of(&c.get_at("b", 10 * SEC)), None);
}

#[test]
fn zero_ttl_is_never_fresh() {
    let mut c = CacheManager::new(0);
    c.set_at("a".to_string(), one("x"), 3);
    assert!(c.get_at("a", 3).is_none());
    c.set("b".to_string(), one("y"));
    assert!(c.get("b").is_none());
}

#[test]
fn set_then_get_with_clock() {
    let mut c = CacheManager::new(3600);
    c.set("a".to_string(), one("x"));
    assert_eq!(value_of(&c.get("a")), Some("x".to_string()));
    c.cleanup();
    assert_eq!(c.len(), 1);
}

#[test]
fn set_replaces_and_restamps() {
    let mut c = CacheManager::new(5);
    c.set_at("a".to_string(), one("x"), 0);
    c.set_at("a".to_string(), one("y"), 4 * SEC);
    assert_eq!(value_of(&c.get_at("a", 8 * SEC)), Some("y".to_string()));
    assert_eq!(c.len(), 1);
}

#[test]
fn cleanup_drops_expired_only() {
    let mut c = CacheManager::new(5);
    c.set_at("old".to_string(), one("x"), 0);
    c.set_at("new".to_string(), one("y"), 3 * SEC);
    c.cleanup_at(5 * SEC);
    assert_eq!(c.len(), 1);
    assert!(c.get_at("old", 5 * SEC).is_none());
    assert_eq!(value_of(&c.get_at("new", 5 * SEC)), Some("y".to_string()));
}

#[test]
fn clear_removes_everything() {
    let mut c = CacheManager::new(100);
    c.set_at("a".to_string(), one("x"), 0);
    c.set_at("b".to_string(), one("y"), 0);
    c.clear();
    assert_eq!(c.len(), 0);
    assert!(c.get_at("a", 0).is_none());
    assert!(c.get_at("b", 0).is_none());
}

#[test]
fn returned_records_are_copies() {
    let mut c = CacheManager::new(100);
    c.set_at("a".to_string(), one("x"), 0);
    let mut got = c.get_at("a", 0).unwrap();
    got[0].insert("k".to_string(), "changed".to_string());
    assert_eq!(value_of(&c.get_at("a", 0)), Some("x".to_string()));
}
