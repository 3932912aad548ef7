use just_voip::net::endpoint_text;
use just_voip::net::ip_text;
use just_voip::net::Endpoint;
use just_voip::net::IpAddress;

fn v6(groups: [u16; 8]) -> IpAddress {
    let mut x: u128 = 0;
    for g in groups {
        x = (x << 16) | g as u128;
    }
    IpAddress::V6(x)
}

#[test]
fn ipv4_text_is_dotted_decimal() {
    assert_eq!(ip_text(IpAddress::V4(0)), "0.0.0.0");
    assert_eq!(ip_text(IpAddress::V4(0xc0a8_0105)), "192.168.1.5");
    assert_eq!(ip_text(IpAddress::V4(0xffff_ffff)), "255.255.255.255");
    assert_eq!(ip_text(IpAddress::V4(0x0a00_0002)), "10.0.0.2");
}

#[test]
fn ipv6_text_compresses_the_first_longest_zero_run() {
    assert_eq!(ip_text(v6([0; 8])), "::");
    assert_eq!(ip_text(v6([0, 0, 0, 0, 0, 0, 0, 1])), "::1");
    assert_eq!(ip_text(v6([0xfe80, 0, 0, 0, 0x1, 0x2, 0x3, 0x4])), "fe80::1:2:3:4");
    assert_eq!(ip_text(v6([0x2001, 0xdb8, 0, 0, 1, 0, 0, 1])), "2001:db8::1:0:0:1");
    assert_eq!(ip_text(v6([0x2001, 0xdb8, 0, 1, 0, 0, 0, 1])), "2001:db8:0:1::1");
    assert_eq!(ip_text(v6([1, 0, 2, 0, 3, 0, 4, 0])), "1:0:2:0:3:0:4:0");
    assert_eq!(ip_text(v6([1, 2, 3, 4, 5, 6, 7, 0])), "1:2:3:4:5:6:7:0");
    assert_eq!(ip_text(v6([1, 0, 0, 2, 3, 4, 5, 6])), "1::2:3:4:5:6");
    assert_eq!(ip_text(v6([0xabcd, 0xef, 0, 0, 0, 0, 0, 0])), "abcd:ef::");
}

#[test]
fn ipv4_mapped_addresses_show_their_v4_text() {
    assert_eq!(ip_text(v6([0, 0, 0, 0, 0, 0xffff, 0xc0a8, 0x0105])), "::ffff:192.168.1.5");
    assert_eq!(ip_text(v6([0, 0, 0, 0, 0, 0, 0xc0a8, 0x0105])), "::c0a8:105");
}

#[test]
fn endpoint_text_matches_socket_addr_display() {
    assert_eq!(endpoint_text(Endpoint::V4 { ip4: 0x0a00_0002, port: 5000 }), "10.0.0.2:5000");
    assert_eq!(
        endpoint_text(Endpoint::V6 { ip6: 1, port: 80, flowinfo: 7, scope_id: 0 }),
        "[::1]:80"
    );
    assert_eq!(
        endpoint_text(Endpoint::V6 { ip6: 0xfe80 << 112 | 1, port: 5000, flowinfo: 0, scope_id: 3 }),
        "[fe80::1%3]:5000"
    );
}
