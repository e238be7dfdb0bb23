use host_webhook_provider::codec::parse_hosts;
use host_webhook_provider::hosts::HostTable;
use host_webhook_provider::records::{
    adjust_endpoints, reconcile, to_endpoints, Anomaly, Changes, Endpoint, ProviderSpecificProperty,
    RecordType,
};
use std::collections::HashMap;

fn endpoint(name: &str, targets: &[&str]) -> Endpoint {
    Endpoint {
        dns_name: name.to_string(),
        targets: targets.iter().map(|t| t.to_string()).collect(),
        record_type: RecordType::A,
        set_identifier: None,
        record_t_t_l: None,
        labels: None,
        provider_specific: None,
    }
}

fn no_changes() -> Changes {
    Changes { create: None, update_old: None, update_new: None, delete: None }
}

fn sorted_addresses(t: &HostTable, name: &str) -> Vec<String> {
    let mut v = t.addresses_of(&name.to_string());
    v.sort();
    v
}

#[test]
fn empty_change_set_changes_nothing() {
    let t = parse_hosts("10.0.0.1 a.local\n10.0.0.2 b.local\n");
    let r = reconcile(&t, &no_changes());
    assert!(!r.changed);
    assert!(r.table.same_as(&t));
    assert!(!r.needs_save(false));
    let empty_lists = Changes { create: Some(vec![]), update_old: Some(vec![]), update_new: Some(vec![]), delete: Some(vec![]) };
    let r = reconcile(&t, &empty_lists);
    assert!(!r.changed);
    assert!(!r.needs_save(false));
}

#[test]
fn create_unions_with_existing_addresses() {
    let t = parse_hosts("10.0.0.2 a.local\n");
    let c = Changes { create: Some(vec![endpoint("a.local", &["10.0.0.1"])]), ..no_changes() };
    let r = reconcile(&t, &c);
    assert!(r.changed);
    assert_eq!(sorted_addresses(&r.table, "a.local"), vec!["10.0.0.1", "10.0.0.2"]);
}

#[test]
fn create_of_a_new_name() {
    let t = HostTable::new();
    let c = Changes { create: Some(vec![endpoint("n.local", &["10.0.0.9", "10.0.0.9"])]), ..no_changes() };
    let r = reconcile(&t, &c);
    assert_eq!(sorted_addresses(&r.table, "n.local"), vec!["10.0.0.9"]);
    assert!(r.needs_save(false));
    assert!(!r.needs_save(true));
}

#[test]
fn delete_removes_the_whole_name() {
    let t = parse_hosts("10.0.0.1 a.local\n10.0.0.2 a.local\n10.0.0.3 b.local\n");
    let c = Changes { delete: Some(vec![endpoint("a.local", &["10.0.0.1"])]), ..no_changes() };
    let r = reconcile(&t, &c);
    assert!(r.changed);
    assert!(!r.table.contains_name(&"a.local".to_string()));
    assert_eq!(sorted_addresses(&r.table, "b.local"), vec!["10.0.0.3"]);
}

#[test]
fn delete_of_an_absent_name_is_no_change() {
    let t = parse_hosts("10.0.0.1 a.local\n");
    let c = Changes { delete: Some(vec![endpoint("z.local", &[])]), ..no_changes() };
    let r = reconcile(&t, &c);
    assert!(!r.changed);
}

#[test]
fn update_replaces_only_the_listed_address() {
    let t = parse_hosts("10.0.0.1 a.local\n10.0.0.2 a.local\n");
    let c = Changes {
        update_old: Some(vec![endpoint("a.local", &["10.0.0.1"])]),
        update_new: Some(vec![endpoint("a.local", &["10.0.0.3"])]),
        ..no_changes()
    };
    let r = reconcile(&t, &c);
    assert!(r.changed);
    assert_eq!(sorted_addresses(&r.table, "a.local"), vec!["10.0.0.2", "10.0.0.3"]);
}

#[test]
fn update_that_empties_a_name_removes_it() {
    let t = parse_hosts("10.0.0.1 a.local\n10.0.0.5 b.local\n");
    let c = Changes {
        update_old: Some(vec![endpoint("a.local", &["10.0.0.1"])]),
        update_new: Some(vec![endpoint("a.local", &[])]),
        ..no_changes()
    };
    let r = reconcile(&t, &c);
    assert!(!r.table.contains_name(&"a.local".to_string()));
    assert!(r.table.addresses_of(&"a.local".to_string()).is_empty());
    assert_eq!(r.table.pairs().len(), 1);
}

#[test]
fn update_of_an_absent_name_creates_it() {
    let t = HostTable::new();
    let c = Changes {
        update_old: Some(vec![endpoint("a.local", &["10.0.0.1"])]),
        update_new: Some(vec![endpoint("a.local", &["10.0.0.4", "10.0.0.5"])]),
        ..no_changes()
    };
    let r = reconcile(&t, &c);
    assert_eq!(sorted_addresses(&r.table, "a.local"), vec!["10.0.0.4", "10.0.0.5"]);
}

#[test]
fn update_pair_with_different_names_is_skipped() {
    let t = parse_hosts("10.0.0.1 a.local\n");
    let c = Changes {
        update_old: Some(vec![endpoint("a.local", &["10.0.0.1"])]),
        update_new: Some(vec![endpoint("b.local", &["10.0.0.2"])]),
        ..no_changes()
    };
    let r = reconcile(&t, &c);
    assert!(!r.changed);
    assert!(!r.table.contains_name(&"b.local".to_string()));
}

#[test]
fn update_lists_of_different_lengths_use_the_shorter() {
    let t = parse_hosts("10.0.0.1 a.local\n10.0.0.2 b.local\n");
    let c = Changes {
        update_old: Some(vec![endpoint("a.local", &["10.0.0.1"])]),
        update_new: Some(vec![endpoint("a.local", &["10.0.0.7"]), endpoint("b.local", &["10.0.0.8"])]),
        ..no_changes()
    };
    let r = reconcile(&t, &c);
    assert_eq!(sorted_addresses(&r.table, "a.local"), vec!["10.0.0.7"]);
    assert_eq!(sorted_addresses(&r.table, "b.local"), vec!["10.0.0.2"]);
    let only_old = Changes { update_old: Some(vec![endpoint("a.local", &["10.0.0.1"])]), ..no_changes() };
    assert!(!reconcile(&t, &only_old).changed);
}

#[test]
fn steps_apply_in_order_create_delete_update() {
    let t = parse_hosts("10.0.0.1 a.local\n");
    let c = Changes {
        create: Some(vec![endpoint("a.local", &["10.0.0.2"])]),
        delete: Some(vec![endpoint("a.local", &[])]),
        update_old: Some(vec![endpoint("a.local", &["10.0.0.1"])]),
        update_new: Some(vec![endpoint("a.local", &["10.0.0.3"])]),
    };
    let r = reconcile(&t, &c);
    assert_eq!(sorted_addresses(&r.table, "a.local"), vec!["10.0.0.3"]);
}

#[test]
fn changes_that_cancel_out_report_no_change() {
    let t = parse_hosts("10.0.0.1 a.local\n");
    let c = Changes {
        create: Some(vec![endpoint("b.local", &["10.0.0.2"])]),
        delete: Some(vec![endpoint("b.local", &[])]),
        ..no_changes()
    };
    let r = reconcile(&t, &c);
    assert!(!r.changed);
    assert!(!r.needs_save(false));
}

#[test]
fn endpoints_list_each_name_once() {
    let t = parse_hosts("10.0.0.1 a.local\n10.0.0.3 b.local\n10.0.0.2 a.local\n");
    let eps = to_endpoints(&t);
    assert_eq!(eps.len(), 2);
    assert_eq!(eps[0].dns_name, "a.local");
    assert_eq!(eps[0].targets, vec!["10.0.0.1", "10.0.0.2"]);
    assert_eq!(eps[1].dns_name, "b.local");
    assert_eq!(eps[1].targets, vec!["10.0.0.3"]);
    assert!(eps.iter().all(|e| e.record_type == RecordType::A && e.set_identifier.is_none()));
    assert!(to_endpoints(&HostTable::new()).is_empty());
}

#[test]
fn adjust_strips_metadata() {
    let mut labels = HashMap::new();
    labels.insert("owner".to_string(), "x".to_string());
    let e = Endpoint {
        dns_name: "a.local".to_string(),
        targets: vec!["10.0.0.1".to_string()],
        record_type: RecordType::CNAME,
        set_identifier: Some("id".to_string()),
        record_t_t_l: Some(300),
        labels: Some(labels),
        provider_specific: Some(vec![ProviderSpecificProperty { name: "k".to_string(), value: "v".to_string() }]),
    };
    let out = adjust_endpoints(vec![e, endpoint("b.local", &[])]);
    assert_eq!(out.len(), 2);
    assert_eq!(out[0].dns_name, "a.local");
    assert_eq!(out[0].targets, vec!["10.0.0.1"]);
    assert_eq!(out[0].record_type, RecordType::CNAME);
    assert!(out[0].set_identifier.is_none());
    assert!(out[0].record_t_t_l.is_none());
    assert!(out[0].labels.is_none());
    assert!(out[0].provider_specific.is_none());
    assert_eq!(out[1].dns_name, "b.local");
}

fn describe(a: &Anomaly) -> String {
    match a {
        Anomaly::DeleteAbsent { name } => format!("delete-absent {name}"),
        Anomaly::NameMismatch { old_name, new_name } => format!("mismatch {old_name} {new_name}"),
        Anomaly::UpdateAbsent { name } => format!("update-absent {name}"),
        Anomaly::AddressPresent { name, address } => format!("present {name} {address}"),
        Anomaly::Unpaired { count } => format!("unpaired {count}"),
    }
}

#[test]
fn anomalies_are_reported_in_order() {
    let t = parse_hosts("10.0.0.1 a.local\n10.0.0.2 a.local\n10.0.0.5 c.local\n");
    let c = Changes {
        create: None,
        delete: Some(vec![endpoint("z.local", &[])]),
        update_old: Some(vec![
            endpoint("a.local", &["10.0.0.1"]),
            endpoint("b.local", &[]),
            endpoint("c.local", &["10.0.0.5"]),
        ]),
        update_new: Some(vec![
            endpoint("a.local", &["10.0.0.2", "10.0.0.3", "10.0.0.3"]),
            endpoint("b.local", &["10.0.0.4"]),
            endpoint("x.local", &["10.0.0.6"]),
            endpoint("d.local", &["10.0.0.7"]),
            endpoint("e.local", &["10.0.0.8"]),
        ]),
    };
    let r = reconcile(&t, &c);
    let seen: Vec<String> = r.anomalies.iter().map(describe).collect();
    assert_eq!(
        seen,
        vec![
            "delete-absent z.local",
            "present a.local 10.0.0.2",
            "present a.local 10.0.0.3",
            "update-absent b.local",
            "mismatch c.local x.local",
            "unpaired 2",
        ]
    );
    assert_eq!(sorted_addresses(&r.table, "a.local"), vec!["10.0.0.2", "10.0.0.3"]);
    assert_eq!(sorted_addresses(&r.table, "b.local"), vec!["10.0.0.4"]);
    assert_eq!(sorted_addresses(&r.table, "c.local"), vec!["10.0.0.5"]);
}

#[test]
fn a_clean_change_set_reports_nothing() {
    let t = parse_hosts("10.0.0.1 a.local\n");
    assert!(reconcile(&t, &no_changes()).anomalies.is_empty());
    let c = Changes { create: Some(vec![endpoint("a.local", &["10.0.0.1"])]), ..no_changes() };
    assert!(reconcile(&t, &c).anomalies.is_empty());
    let only_old = Changes { update_old: Some(vec![endpoint("a.local", &["10.0.0.1"])]), ..no_changes() };
    let seen: Vec<String> = reconcile(&t, &only_old).anomalies.iter().map(describe).collect();
    assert_eq!(seen, vec!["unpaired 1"]);
}
