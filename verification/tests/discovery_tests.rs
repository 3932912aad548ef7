use just_voip::discovery::announce_if_due;
use just_voip::discovery::decode_hello;
use just_voip::discovery::hello_due;
use just_voip::discovery::hello_packet;
use just_voip::discovery::hello_text;
use just_voip::discovery::new_peer_id;
use just_voip::discovery::parse_hello;
use just_voip::discovery::peer_id_from;
use just_voip::discovery::port_or_default;
use just_voip::discovery::AUDIO_PORT;
use just_voip::discovery::DISCOVERY_PORT;

#[test]
fn ports_are_the_documented_ones() {
    assert_eq!(AUDIO_PORT, 5000);
    assert_eq!(DISCOVERY_PORT, 49999);
}

#[test]
fn hello_text_has_the_documented_shape() {
    assert_eq!(hello_text("ab12", 5000), "HELLO ab12 5000");
    assert_eq!(hello_packet("ab12", 5000), b"HELLO ab12 5000".to_vec());
    assert_eq!(hello_text("é", 7), "HELLO é 7");
    assert_eq!(hello_packet("é", 7), "HELLO é 7".as_bytes().to_vec());
}

#[test]
fn parse_hello_reads_id_and_port() {
    let a = parse_hello("HELLO x 1234").unwrap();
    assert_eq!(a.id, "x");
    assert_eq!(a.port, 1234);
    let a = parse_hello("HELLO   peer-1 \t 77  ").unwrap();
    assert_eq!(a.id, "peer-1");
    assert_eq!(a.port, 77);
}

#[test]
fn parse_hello_falls_back_to_audio_port() {
    let a = parse_hello("HELLO x notaport").unwrap();
    assert_eq!(a.id, "x");
    assert_eq!(a.port, AUDIO_PORT);
    assert_eq!(parse_hello("HELLO x 70000").unwrap().port, AUDIO_PORT);
}

#[test]
fn parse_hello_rejects_other_shapes() {
    for bad in ["", "HELLO", "HELLO ", "HELLO x", "HELLO a b c", "hello x 1", "HELLOx 1 2", " HELLO x 1", "HELLO\tx 1"] {
        assert!(parse_hello(bad).is_none(), "{:?}", bad);
    }
}

#[test]
fn parse_hello_splits_on_unicode_whitespace() {
    let a = parse_hello("HELLO id\u{3000}42").unwrap();
    assert_eq!(a.id, "id");
    assert_eq!(a.port, 42);
}

#[test]
fn decode_hello_needs_utf8() {
    assert!(decode_hello(&[0x48, 0xff, 0x20]).is_none());
    assert!(decode_hello(b"HELLO a\xff 5").is_none());
    let a = decode_hello(&hello_packet("beef", 5000)).unwrap();
    assert_eq!(a.id, "beef");
    assert_eq!(a.port, 5000);
}

#[test]
fn hello_roundtrip_for_generated_ids() {
    for r in [0u16, 1, 0xabcd, 0xffff] {
        let id = peer_id_from(r);
        let a = decode_hello(&hello_packet(&id, 12345)).unwrap();
        assert_eq!(a.id, id);
        assert_eq!(a.port, 12345);
    }
}

#[test]
fn peer_ids_are_four_lower_hex_digits() {
    assert_eq!(peer_id_from(0x00af), "00af");
    assert_eq!(peer_id_from(0xbeef), "beef");
    assert_eq!(peer_id_from(0), "0000");
    for r in [1u16, 0x1234, 0xffff, 0x0f0f] {
        assert_eq!(peer_id_from(r), format!("{:04x}", r));
    }
    let id = new_peer_id().unwrap();
    assert_eq!(id.len(), 4);
    assert!(!id.contains(':'));
    assert!(id.chars().all(|c| c.is_ascii_hexdigit() && !c.is_ascii_uppercase()));
}

#[test]
fn port_or_default_uses_audio_port() {
    assert_eq!(port_or_default("6000"), 6000);
    assert_eq!(port_or_default(""), AUDIO_PORT);
    assert_eq!(port_or_default("x"), AUDIO_PORT);
}

#[test]
fn announcements_every_two_seconds() {
    assert!(!hello_due(1000, 2999));
    assert!(hello_due(1000, 3000));
    assert!(!hello_due(5000, 1000));
    let mut last = 0u64;
    assert!(!announce_if_due(&mut last, 1999));
    assert_eq!(last, 0);
    assert!(announce_if_due(&mut last, 2000));
    assert_eq!(last, 2000);
    assert!(!announce_if_due(&mut last, 3999));
    assert!(announce_if_due(&mut last, 4100));
    assert_eq!(last, 4100);
}

#[test]
fn announcements_keep_their_cadence_when_checked_often() {
    let mut last = 0u64;
    let mut sent = Vec::new();
    let mut now = 0u64;
    while now < 20_000 {
        now += 450;
        if announce_if_due(&mut last, now) {
            sent.push(now);
        }
    }
    assert!(sent[0] >= 2000 && sent[0] < 2000 + 450);
    for w in sent.windows(2) {
        assert!(w[1] - w[0] >= 2000 && w[1] - w[0] < 2000 + 450);
    }
}
