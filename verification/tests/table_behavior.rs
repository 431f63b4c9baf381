use import_resolver::binding::{HostBinding, ImportKey};
use import_resolver::table::{merge_providers, ImportTable, Provider};

fn key(ns: &str, name: &str) -> ImportKey {
    ImportKey::new(String::from(ns), String::from(name))
}

#[test]
fn insert_overwrites_instead_of_appending() {
    let mut t = ImportTable::new();
    t.insert(key("a", "x"), HostBinding::Function(1));
    t.insert(key("a", "x"), HostBinding::Function(2));
    assert_eq!(t.len(), 1);
    assert_eq!(t.lookup(&key("a", "x")), Some(HostBinding::Function(2)));
}

#[test]
fn lookup_of_absent_key_is_none() {
    let mut t = ImportTable::new();
    t.insert(key("a", "x"), HostBinding::Function(1));
    assert_eq!(t.lookup(&key("a", "y")), None);
    assert_eq!(t.lookup(&key("b", "x")), None);
}

#[test]
fn later_provider_wins_on_shared_key() {
    let mut p1 = Provider::new();
    p1.provide(key("env", "k"), HostBinding::Function(1));
    p1.provide(key("env", "only1"), HostBinding::Function(11));
    let mut p2 = Provider::new();
    p2.provide(key("env", "k"), HostBinding::Function(2));
    let t = merge_providers(&vec![p1, p2]);
    assert_eq!(t.lookup(&key("env", "k")), Some(HostBinding::Function(2)));
    assert_eq!(t.lookup(&key("env", "only1")), Some(HostBinding::Function(11)));
}

#[test]
fn later_offer_of_one_provider_wins() {
    let mut p = Provider::new();
    p.provide(key("env", "k"), HostBinding::Function(1));
    p.provide(key("env", "k"), HostBinding::Function(2));
    let t = merge_providers(&vec![p]);
    assert_eq!(t.len(), 1);
    assert_eq!(t.lookup(&key("env", "k")), Some(HostBinding::Function(2)));
}

#[test]
fn merged_snapshot_counts_overlap_once() {
    // Three offers and two offers with one shared key: 3 + 2 - 1 entries.
    let mut p1 = Provider::new();
    p1.provide(key("sys", "read"), HostBinding::Function(1));
    p1.provide(key("sys", "write"), HostBinding::Function(2));
    p1.provide(key("sys", "close"), HostBinding::Function(3));
    let mut p2 = Provider::new();
    p2.provide(key("sys", "write"), HostBinding::Function(20));
    p2.provide(key("gpu", "alloc"), HostBinding::Function(30));
    let t = merge_providers(&vec![p1, p2]);
    let v = t.snapshot();
    assert_eq!(v.len(), 4);
    assert_eq!(t.len(), 4);
    assert!(v.contains(&(String::from("sys"), String::from("read"), HostBinding::Function(1))));
    assert!(v.contains(&(String::from("sys"), String::from("write"), HostBinding::Function(20))));
    assert!(v.contains(&(String::from("sys"), String::from("close"), HostBinding::Function(3))));
    assert!(v.contains(&(String::from("gpu"), String::from("alloc"), HostBinding::Function(30))));
}

#[test]
fn merge_of_no_providers_is_empty() {
    let t = merge_providers(&Vec::new());
    assert_eq!(t.len(), 0);
    assert!(t.snapshot().is_empty());
}

#[test]
fn key_equality_is_component_wise() {
    assert!(key("a", "x").key_eq(&key("a", "x")));
    assert!(!key("a", "x").key_eq(&key("a", "y")));
    assert!(!key("a", "x").key_eq(&key("b", "x")));
    let k = key("a", "x");
    assert!(k.key_eq(&k.dup()));
}
