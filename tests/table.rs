use host_webhook_provider::hosts::HostTable;

fn s(x: &str) -> String {
    x.to_string()
}

fn strings(xs: &[&str]) -> Vec<String> {
    xs.iter().map(|x| x.to_string()).collect()
}

fn sorted_addresses(t: &HostTable, name: &str) -> Vec<String> {
    let mut v = t.addresses_of(&s(name));
    v.sort();
    v
}

#[test]
fn insert_reports_a_repeated_address() {
    let mut t = HostTable::new();
    assert!(t.insert(&s("a.local"), &s("10.0.0.1")));
    assert!(!t.insert(&s("a.local"), &s("10.0.0.1")));
    assert!(t.contains(&s("a.local"), &s("10.0.0.1")));
    assert!(!t.contains(&s("a.local"), &s("10.0.0.2")));
    assert_eq!(t.pairs().len(), 1);
}

#[test]
fn insert_targets_with_no_address_creates_nothing() {
    let mut t = HostTable::new();
    t.insert_targets(&s("a.local"), &Vec::new());
    assert!(!t.contains_name(&s("a.local")));
    t.insert_targets(&s("a.local"), &strings(&["10.0.0.1", "10.0.0.1", "10.0.0.2"]));
    assert_eq!(sorted_addresses(&t, "a.local"), vec!["10.0.0.1", "10.0.0.2"]);
}

#[test]
fn remove_targets_prunes_an_emptied_name() {
    let mut t = HostTable::new();
    t.insert_targets(&s("a.local"), &strings(&["10.0.0.1", "10.0.0.2"]));
    t.insert_targets(&s("b.local"), &strings(&["10.0.0.1"]));
    t.remove_targets(&s("a.local"), &strings(&["10.0.0.1"]));
    assert_eq!(sorted_addresses(&t, "a.local"), vec!["10.0.0.2"]);
    assert_eq!(sorted_addresses(&t, "b.local"), vec!["10.0.0.1"]);
    t.remove_targets(&s("a.local"), &strings(&["10.0.0.2"]));
    assert!(!t.contains_name(&s("a.local")));
    assert!(t.addresses_of(&s("a.local")).is_empty());
}

#[test]
fn remove_name_drops_all_its_addresses() {
    let mut t = HostTable::new();
    t.insert_targets(&s("a.local"), &strings(&["10.0.0.1", "10.0.0.2"]));
    t.insert_targets(&s("b.local"), &strings(&["10.0.0.3"]));
    t.remove_name(&s("a.local"));
    assert!(!t.contains_name(&s("a.local")));
    assert!(t.contains_name(&s("b.local")));
    t.remove_name(&s("missing.local"));
    assert_eq!(t.pairs().len(), 1);
}

#[test]
fn same_as_ignores_order() {
    let mut a = HostTable::new();
    a.insert(&s("a.local"), &s("10.0.0.1"));
    a.insert(&s("b.local"), &s("10.0.0.2"));
    let mut b = HostTable::new();
    b.insert(&s("b.local"), &s("10.0.0.2"));
    b.insert(&s("a.local"), &s("10.0.0.1"));
    assert!(a.same_as(&b));
    b.insert(&s("a.local"), &s("10.0.0.3"));
    assert!(!a.same_as(&b));
    assert!(!b.same_as(&a));
    assert!(a.copy().same_as(&a));
    assert_eq!(a.copy().pairs(), a.pairs());
}
