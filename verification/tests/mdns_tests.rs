use nascraft::discovery::DiscoveredServer;
use nascraft::mdns::MdnsTypePass;
use nascraft::mdns::merge_discoveries;
use nascraft::mdns::strip_service_suffix;
use nascraft::textorder::sort_dedup_strings;
use nascraft::textorder::str_lex_lt;

fn strings(items: &[&str]) -> Vec<String> {
    items.iter().map(|s| s.to_string()).collect()
}

#[test]
fn suffix_stripped() {
    assert_eq!(
        strip_service_suffix("box1._nascraft._tcp.local.", "_nascraft._tcp.local."),
        "box1"
    );
}

#[test]
fn absent_suffix_left_unmodified() {
    assert_eq!(
        strip_service_suffix("box1._other._tcp.local.", "_nascraft._tcp.local."),
        "box1._other._tcp.local."
    );
    assert_eq!(strip_service_suffix("short", "much_longer_type"), "short");
}

#[test]
fn suffix_alone_leaves_empty_instance() {
    assert_eq!(
        strip_service_suffix("._nascraft._tcp.local.", "_nascraft._tcp.local."),
        ""
    );
}

#[test]
fn empty_address_list_stays_empty() {
    let out = sort_dedup_strings(Vec::new());
    assert!(out.is_empty());
}

#[test]
fn lex_order() {
    assert!(str_lex_lt("10.0.0.1", "10.0.0.2"));
    assert!(!str_lex_lt("10.0.0.2", "10.0.0.1"));
    assert!(str_lex_lt("10.0.0", "10.0.0.1"));
    assert!(!str_lex_lt("abc", "abc"));
}

#[test]
fn addresses_sorted_and_deduplicated() {
    let out = sort_dedup_strings(strings(&["10.0.0.2", "10.0.0.1", "10.0.0.2", "10.0.0.10"]));
    assert_eq!(out, strings(&["10.0.0.1", "10.0.0.10", "10.0.0.2"]));
}

#[test]
fn resolution_collected_once_per_fullname() {
    let mut pass = MdnsTypePass::begin("_nascraft._tcp.local.".to_string());
    pass.on_resolved(
        "box1._nascraft._tcp.local.".to_string(),
        "box1.local.".to_string(),
        8080,
        strings(&["192.168.1.9", "192.168.1.2"]),
    );
    pass.on_resolved(
        "box1._nascraft._tcp.local.".to_string(),
        "elsewhere.local.".to_string(),
        9999,
        strings(&[]),
    );
    let found = pass.finish();
    assert_eq!(found.len(), 1);
    assert_eq!(found[0].instance_name, "box1");
    assert_eq!(found[0].service_type, "_nascraft._tcp.local.");
    assert_eq!(found[0].hostname, "box1.local.");
    assert_eq!(found[0].ip_v4, strings(&["192.168.1.2", "192.168.1.9"]));
    assert_eq!(found[0].port, 8080);
}

#[test]
fn hostname_stands_in_for_missing_addresses() {
    let mut pass = MdnsTypePass::begin("_nascraft._tcp.local.".to_string());
    pass.on_resolved(
        "box2._nascraft._tcp.local.".to_string(),
        "box2.local.".to_string(),
        8080,
        strings(&[]),
    );
    let found = pass.finish();
    assert_eq!(found.len(), 1);
    assert_eq!(found[0].ip_v4, strings(&["box2.local."]));
}

fn server(name: &str, ty: &str, host: &str, port: u16) -> DiscoveredServer {
    DiscoveredServer {
        instance_name: name.to_string(),
        service_type: ty.to_string(),
        hostname: host.to_string(),
        ip_v4: vec![host.to_string()],
        port,
    }
}

#[test]
fn merge_deduplicates_across_types() {
    let primary = vec![
        server("box1", "_nascraft._tcp.local.", "box1.local.", 8080),
        server("box2", "_nascraft._tcp.local.", "box2.local.", 8080),
    ];
    let fallback = vec![
        server("box1-http", "_http._tcp.local.", "box1.local.", 8080),
        server("box3", "_http._tcp.local.", "box3.local.", 80),
    ];
    let merged = merge_discoveries(vec![primary, fallback]);
    assert_eq!(merged.len(), 3);
    assert_eq!(merged[0].instance_name, "box1");
    assert_eq!(merged[0].service_type, "_nascraft._tcp.local.");
    assert_eq!(merged[1].instance_name, "box2");
    assert_eq!(merged[2].instance_name, "box3");
}
