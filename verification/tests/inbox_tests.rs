use just_voip::discovery::hello_packet;
use just_voip::inbox::Inbox;
use just_voip::inbox::MAX_QUEUED_CHUNKS;
use just_voip::net::Endpoint;
use just_voip::net::IpAddress;
use just_voip::peers::PeerTable;

#[test]
fn frames_read_each_stream_two_bytes_at_a_time() {
    let mut inbox = Inbox::new();
    inbox.deliver("a".to_string(), vec![1, 0, 2, 0]);
    inbox.deliver("b".to_string(), vec![10, 0]);
    inbox.deliver("a".to_string(), vec![3, 0]);
    assert_eq!(inbox.len(), 2);
    assert_eq!(inbox.take_frame(), vec![1, 10]);
    assert_eq!(inbox.take_frame(), vec![2]);
    assert_eq!(inbox.take_frame(), vec![3]);
    assert_eq!(inbox.take_frame(), Vec::<i16>::new());
}

#[test]
fn an_odd_or_empty_front_chunk_blocks_its_stream() {
    let mut inbox = Inbox::new();
    inbox.deliver("odd".to_string(), vec![5]);
    inbox.deliver("odd".to_string(), vec![6, 0]);
    inbox.deliver("empty".to_string(), vec![]);
    inbox.deliver("empty".to_string(), vec![7, 0]);
    assert_eq!(inbox.take_frame(), Vec::<i16>::new());
    assert_eq!(inbox.take_frame(), Vec::<i16>::new());
}

#[test]
fn trim_keeps_the_newest_chunks() {
    let mut inbox = Inbox::new();
    for k in 0..25u8 {
        inbox.deliver("a".to_string(), vec![k, 0]);
    }
    inbox.trim(MAX_QUEUED_CHUNKS);
    let mut got = Vec::new();
    loop {
        let f = inbox.take_frame();
        if f.is_empty() {
            break;
        }
        got.push(f[0]);
    }
    assert_eq!(got, (5..25).collect::<Vec<i16>>());
}

#[test]
fn packets_are_queued_by_sender() {
    let mut peers = PeerTable::new();
    let mut inbox = Inbox::new();
    let src = Endpoint::new(IpAddress::V4(0x0a000002), 5000);
    inbox.accept_packet(&peers, src, vec![1, 0]);
    assert_eq!(inbox.len(), 0);
    peers.receive_hello(&"me".to_string(), &hello_packet("beef", 5000), IpAddress::V4(0x0a000002), 0);
    inbox.accept_packet(&peers, src, vec![1, 0]);
    let stranger = Endpoint::new(IpAddress::V4(0x0a000009), 4000);
    inbox.accept_packet(&peers, stranger, vec![2, 0]);
    inbox.accept_packet(&peers, src, vec![3, 0]);
    assert_eq!(inbox.len(), 2);
    assert_eq!(inbox.take_frame(), vec![1, 2]);
    assert_eq!(inbox.take_frame(), vec![3]);
}
