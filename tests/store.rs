use host_webhook_provider::codec::parse_hosts;
use host_webhook_provider::config::{Config, DomainFilter};
use host_webhook_provider::store::{object_exists, plan_write, table_from_store, StoreWrite};
use host_webhook_provider::webhook::normalize_content_type;

#[test]
fn missing_store_is_an_empty_table() {
    let t = table_from_store(None);
    assert!(t.pairs().is_empty());
    let t = table_from_store(Some("10.0.0.1 a.local\n".to_string()));
    assert!(t.contains(&"a.local".to_string(), &"10.0.0.1".to_string()));
}

#[test]
fn object_existence_by_name() {
    let names = vec![None, Some("other".to_string()), Some("external-mdns".to_string())];
    assert!(object_exists(&names, &"external-mdns".to_string()));
    assert!(!object_exists(&names, &"missing".to_string()));
    assert!(!object_exists(&Vec::new(), &"external-mdns".to_string()));
}

#[test]
fn write_plan_creates_or_patches() {
    let t = parse_hosts("10.0.0.1 a.local\n");
    match plan_write(true, &"hosts".to_string(), &t) {
        StoreWrite::Patch { key, content } => {
            assert_eq!(key, "hosts");
            assert_eq!(content, "10.0.0.1 a.local\n");
        }
        StoreWrite::Create { .. } => panic!("an existing object is patched"),
    }
    match plan_write(false, &"hosts".to_string(), &t) {
        StoreWrite::Create { key, content } => {
            assert_eq!(key, "hosts");
            assert_eq!(content, "10.0.0.1 a.local\n");
        }
        StoreWrite::Patch { .. } => panic!("a missing object is created"),
    }
}

#[test]
fn versioned_media_type_becomes_plain_json() {
    assert_eq!(
        normalize_content_type("application/external.dns.webhook+json;version=1"),
        Some("application/json;version=1".to_string())
    );
    assert_eq!(normalize_content_type("application/json"), None);
    assert_eq!(normalize_content_type(""), None);
}

#[test]
fn domain_filter_snapshot_copies_fields() {
    let c = Config {
        dry_run: false,
        debug: false,
        host_configmap_name: "external-mdns".to_string(),
        host_configmap_namespace: None,
        host_configmap_key: "hosts".to_string(),
        listen_addr: "127.0.0.1:8888".to_string(),
        health_listen_addr: "0.0.0.0:8080".to_string(),
        domain_filter: DomainFilter {
            filters: vec![".local".to_string()],
            exclude: vec![],
            regex: String::new(),
            regex_exclusion: "^x".to_string(),
        },
    };
    let f = c.domain_filter();
    assert_eq!(f.filters, vec![".local"]);
    assert!(f.exclude.is_empty());
    assert_eq!(f.regex, "");
    assert_eq!(f.regex_exclusion, "^x");
}
