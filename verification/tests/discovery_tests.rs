use nascraft::discovery::BroadcastSession;
use nascraft::discovery::DiscoveredServer;
use nascraft::discovery::dedup_servers;
use nascraft::discovery::probe_payload;
use nascraft::discovery::primary_service_type;
use nascraft::discovery::DISCOVERY_PORT;
use nascraft::discovery::DEFAULT_SERVICE_PORT;

fn server(name: &str, host: &str, port: u16) -> DiscoveredServer {
    DiscoveredServer {
        instance_name: name.to_string(),
        service_type: primary_service_type().to_string(),
        hostname: host.to_string(),
        ip_v4: vec![host.to_string()],
        port,
    }
}

#[test]
fn probe_payload_is_exact() {
    assert_eq!(probe_payload(), "{\"t\":\"nascraft_discover\",\"v\":1}");
}

#[test]
fn discovery_constants() {
    assert_eq!(DISCOVERY_PORT, 53530);
    assert_eq!(DEFAULT_SERVICE_PORT, 8080);
}

#[test]
fn responder_yields_one_server() {
    let mut s = BroadcastSession::begin(0, Some(200));
    s.on_datagram(
        "nascraft_here",
        1,
        Some("box1".to_string()),
        Some(9090),
        "192.0.2.5".to_string(),
    );
    let found = s.finish();
    assert_eq!(found.len(), 1);
    assert_eq!(found[0].instance_name, "box1");
    assert_eq!(found[0].hostname, "192.0.2.5");
    assert_eq!(found[0].ip_v4, vec!["192.0.2.5".to_string()]);
    assert_eq!(found[0].port, 9090);
}

#[test]
fn same_key_deduplicated_first_kept() {
    let mut s = BroadcastSession::begin(0, Some(200));
    s.on_datagram(
        "nascraft_here",
        1,
        Some("first".to_string()),
        Some(9090),
        "192.0.2.5".to_string(),
    );
    s.on_datagram(
        "nascraft_here",
        1,
        Some("second".to_string()),
        Some(9090),
        "192.0.2.5".to_string(),
    );
    let found = s.finish();
    assert_eq!(found.len(), 1);
    assert_eq!(found[0].instance_name, "first");
}

#[test]
fn mismatched_datagrams_ignored() {
    let mut s = BroadcastSession::begin(0, Some(200));
    s.on_datagram("nascraft_hi", 1, None, None, "192.0.2.1".to_string());
    s.on_datagram("nascraft_here", 2, None, None, "192.0.2.2".to_string());
    s.on_datagram("", 1, None, None, "192.0.2.3".to_string());
    let found = s.finish();
    assert!(found.is_empty());
}

#[test]
fn missing_fields_get_defaults() {
    let mut s = BroadcastSession::begin(0, Some(200));
    s.on_datagram("nascraft_here", 1, None, None, "192.0.2.9".to_string());
    let found = s.finish();
    assert_eq!(found.len(), 1);
    assert_eq!(found[0].instance_name, "192.0.2.9");
    assert_eq!(found[0].port, DEFAULT_SERVICE_PORT);
}

#[test]
fn no_responder_is_empty_not_error() {
    let s = BroadcastSession::begin(1000, Some(200));
    assert_eq!(s.poll_wait(1000), Some(200));
    assert_eq!(s.poll_wait(1100), Some(100));
    assert_eq!(s.poll_wait(1199), Some(1));
    assert_eq!(s.poll_wait(1200), None);
    assert_eq!(s.poll_wait(5000), None);
    let found = s.finish();
    assert!(found.is_empty());
}

#[test]
fn poll_wait_capped_by_slice() {
    let s = BroadcastSession::begin(0, Some(10_000));
    assert_eq!(s.poll_wait(0), Some(250));
    assert_eq!(s.poll_wait(9_900), Some(100));
}

#[test]
fn deadline_saturates() {
    let s = BroadcastSession::begin(u64::MAX - 10, Some(100));
    assert_eq!(s.poll_wait(u64::MAX - 1), Some(1));
    assert_eq!(s.poll_wait(u64::MAX), None);
}

#[test]
fn default_timeout_applied() {
    let s = BroadcastSession::begin(0, None);
    assert!(s.poll_wait(1499).is_some());
    assert_eq!(s.poll_wait(1500), None);
}

#[test]
fn explicit_and_default_port_share_a_key() {
    let mut s = BroadcastSession::begin(0, Some(200));
    s.on_datagram("nascraft_here", 1, None, None, "192.0.2.7".to_string());
    s.on_datagram(
        "nascraft_here",
        1,
        Some("late".to_string()),
        Some(DEFAULT_SERVICE_PORT),
        "192.0.2.7".to_string(),
    );
    let found = s.finish();
    assert_eq!(found.len(), 1);
    assert_eq!(found[0].instance_name, "192.0.2.7");
}

#[test]
fn bounded_wait_helper() {
    assert_eq!(nascraft::discovery::deadline_after(100, Some(50)), 150);
    assert_eq!(nascraft::discovery::deadline_after(u64::MAX, Some(1)), u64::MAX);
    assert_eq!(nascraft::discovery::bounded_wait(150, 100), Some(50));
    assert_eq!(nascraft::discovery::bounded_wait(1000, 100), Some(250));
    assert_eq!(nascraft::discovery::bounded_wait(100, 100), None);
}

#[test]
fn dedup_keeps_first_in_order() {
    let list = vec![
        server("a", "10.0.0.1", 80),
        server("b", "10.0.0.2", 80),
        server("c", "10.0.0.1", 80),
        server("d", "10.0.0.1", 81),
    ];
    let out = dedup_servers(list);
    assert_eq!(out.len(), 3);
    assert_eq!(out[0].instance_name, "a");
    assert_eq!(out[1].instance_name, "b");
    assert_eq!(out[2].instance_name, "d");
}
