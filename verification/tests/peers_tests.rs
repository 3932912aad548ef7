use just_voip::discovery::hello_packet;
use just_voip::net::Endpoint;
use just_voip::net::IpAddress;
use just_voip::peers::endpoint_label;
use just_voip::peers::status_at;
use just_voip::peers::PeerStatus;
use just_voip::peers::PeerTable;

fn v4(a: u8, b: u8, c: u8, d: u8) -> IpAddress {
    IpAddress::V4(u32::from_be_bytes([a, b, c, d]))
}

fn me() -> String {
    "0001".to_string()
}

#[test]
fn statuses_follow_whole_seconds() {
    assert_eq!(status_at(10_000, 10_000), PeerStatus::Fresh);
    assert_eq!(status_at(11_999, 10_000), PeerStatus::Fresh);
    assert_eq!(status_at(12_000, 10_000), PeerStatus::Stale);
    assert_eq!(status_at(14_999, 10_000), PeerStatus::Stale);
    assert_eq!(status_at(15_000, 10_000), PeerStatus::Expired);
    assert_eq!(status_at(9_000, 10_000), PeerStatus::Fresh);
}

#[test]
fn label_is_ip_colon_port() {
    assert_eq!(endpoint_label(v4(10, 0, 0, 2), 5000), "10.0.0.2:5000");
    assert_eq!(endpoint_label(IpAddress::V6(1), 7), "::1:7");
}

#[test]
fn hello_from_another_node_adds_it() {
    let mut t = PeerTable::new();
    t.receive_hello(&me(), &hello_packet("beef", 6000), v4(10, 0, 0, 2), 100);
    assert_eq!(t.len(), 1);
    let rows = t.listing(100);
    assert_eq!(rows[0].id, "beef");
    assert_eq!(rows[0].label, "10.0.0.2:6000");
    assert_eq!(rows[0].status, PeerStatus::Fresh);
    assert_eq!(t.send_targets(false), vec![Endpoint::new(v4(10, 0, 0, 2), 6000)]);
}

#[test]
fn repeated_hello_refreshes_address_and_time_but_keeps_label() {
    let mut t = PeerTable::new();
    t.receive_hello(&me(), &hello_packet("beef", 6000), v4(10, 0, 0, 2), 100);
    t.receive_hello(&me(), &hello_packet("beef", 7000), v4(10, 0, 0, 3), 4_000);
    assert_eq!(t.len(), 1);
    let rows = t.listing(4_000);
    assert_eq!(rows[0].label, "10.0.0.2:6000");
    assert_eq!(rows[0].status, PeerStatus::Fresh);
    assert_eq!(t.send_targets(false), vec![Endpoint::new(v4(10, 0, 0, 3), 7000)]);
}

#[test]
fn own_hello_and_garbage_are_ignored() {
    let mut t = PeerTable::new();
    t.receive_hello(&me(), &hello_packet(&me(), 5000), v4(10, 0, 0, 9), 1);
    t.receive_hello(&me(), b"HI there", v4(10, 0, 0, 9), 1);
    t.receive_hello(&me(), &[0xff, 0xfe], v4(10, 0, 0, 9), 1);
    assert!(t.is_empty());
}

#[test]
fn manual_add_uses_ip_port_key_and_default_port() {
    let mut t = PeerTable::new();
    t.add_manual(v4(192, 168, 1, 5), "", 0);
    t.add_manual(v4(192, 168, 1, 5), "", 50);
    t.add_manual(v4(192, 168, 1, 5), "6001", 0);
    assert_eq!(t.len(), 2);
    let rows = t.listing(0);
    assert_eq!(rows[0].id, "192.168.1.5:5000");
    assert_eq!(rows[0].label, "192.168.1.5:5000");
    assert_eq!(rows[1].id, "192.168.1.5:6001");
}

#[test]
fn remove_forgets_one_peer() {
    let mut t = PeerTable::new();
    t.add_manual(v4(1, 1, 1, 1), "1", 0);
    t.add_manual(v4(2, 2, 2, 2), "2", 0);
    t.remove(&"1.1.1.1:1".to_string());
    t.remove(&"nobody".to_string());
    assert_eq!(t.len(), 1);
    assert_eq!(t.listing(0)[0].id, "2.2.2.2:2");
    assert!(t.find(&"1.1.1.1:1".to_string()).is_none());
    assert_eq!(t.find(&"2.2.2.2:2".to_string()), Some(0));
}

#[test]
fn prune_drops_discovered_peers_silent_for_five_seconds() {
    let mut t = PeerTable::new();
    t.receive_hello(&me(), &hello_packet("aaaa", 5000), v4(1, 1, 1, 1), 0);
    t.receive_hello(&me(), &hello_packet("bbbb", 5000), v4(2, 2, 2, 2), 1_000);
    t.receive_hello(&me(), &hello_packet("cccc", 5000), v4(3, 3, 3, 3), 3_000);
    t.prune(5_999);
    let ids: Vec<String> = t.listing(5_999).into_iter().map(|r| r.id).collect();
    assert_eq!(ids, vec!["bbbb".to_string(), "cccc".to_string()]);
    t.prune(6_000);
    assert_eq!(t.len(), 1);
    assert_eq!(t.listing(6_000)[0].status, PeerStatus::Stale);
}

#[test]
fn hand_added_peers_stay_until_removed() {
    let mut t = PeerTable::new();
    t.add_manual(v4(8, 8, 8, 8), "5000", 0);
    t.receive_hello(&me(), &hello_packet("aaaa", 5000), v4(1, 1, 1, 1), 0);
    t.prune(5_000);
    t.prune(1_000_000);
    assert_eq!(t.len(), 1);
    let rows = t.listing(1_000_000);
    assert_eq!(rows[0].id, "8.8.8.8:5000");
    assert_eq!(rows[0].status, PeerStatus::Expired);
    t.remove(&"8.8.8.8:5000".to_string());
    assert!(t.is_empty());
}

#[test]
fn announcing_peer_stays_listed() {
    let mut t = PeerTable::new();
    let mut now = 0u64;
    for _ in 0..10 {
        t.receive_hello(&me(), &hello_packet("beef", 5000), v4(10, 0, 0, 2), now);
        now += 4_000;
        t.prune(now);
        assert_eq!(t.len(), 1);
    }
}

#[test]
fn muted_or_alone_sends_nothing() {
    let mut t = PeerTable::new();
    assert!(t.send_targets(false).is_empty());
    t.add_manual(v4(1, 1, 1, 1), "9", 0);
    assert!(t.send_targets(true).is_empty());
    assert_eq!(t.send_targets(false).len(), 1);
}

#[test]
fn route_prefers_known_peer_then_address_text() {
    let mut t = PeerTable::new();
    let src = Endpoint::new(v4(10, 0, 0, 2), 5000);
    assert_eq!(t.route(src), None);
    t.receive_hello(&me(), &hello_packet("beef", 5000), v4(10, 0, 0, 2), 0);
    assert_eq!(t.route(src), Some("beef".to_string()));
    let other = Endpoint::new(v4(10, 0, 0, 7), 5000);
    assert_eq!(t.route(other), Some("10.0.0.7:5000".to_string()));
}

#[test]
fn v6_endpoints_compare_with_flow_and_scope() {
    let a = Endpoint::new(IpAddress::V6(1), 5000);
    let b = Endpoint::V6 { ip6: 1, port: 5000, flowinfo: 0, scope_id: 3 };
    assert_ne!(a, b);
    assert_eq!(b.ip(), IpAddress::V6(1));
    assert_eq!(b.port(), 5000);
    assert_eq!(Endpoint::new(b.ip(), b.port()), a);
}

#[test]
fn own_id_never_enters_the_table() {
    let mut t = PeerTable::new();
    let my_id = "abcd".to_string();
    t.receive_hello(&my_id, &hello_packet(&my_id, 5000), v4(10, 0, 0, 1), 0);
    t.add_manual(v4(10, 0, 0, 1), "5000", 1);
    t.receive_hello(&my_id, &hello_packet("beef", 5000), v4(10, 0, 0, 2), 2);
    t.prune(3);
    t.remove(&"beef".to_string());
    t.receive_hello(&my_id, &hello_packet(&my_id, 6000), v4(10, 0, 0, 1), 4);
    assert!(t.find(&my_id).is_none());
    assert_eq!(t.len(), 1);
}
