use iroh_streaming::codec::{hex_decode, hex_encode};
use iroh_streaming::feed::RawItem;
use iroh_streaming::{
    StreamError, StreamEvent, StreamingNode, Ticket, TicketOpts, WasmStreamEvent,
};

const KEY_A: &str = "d75a980182b10ab7d54bfed3c964073a0ee172f3daa62325af021a68f707511a";
const KEY_B: &str = "3d4017c3e843895a92b70aa74d1b7ebc9c982ccf2ec4968cc0cd55f12af4660c";
const KEY_C: &str = "fc51cd8e6218a1a38da47ed00230f0580816ed13ba3303ac5deb911548908025";

fn bytes_of(hex: &str) -> Vec<u8> {
    let cs: Vec<char> = hex.chars().collect();
    hex_decode(&cs).expect("test data is hex")
}

fn sorted_keys(t: &Ticket) -> Vec<Vec<u8>> {
    let mut v = t.bootstrap.clone();
    v.sort();
    v
}

fn up(id: &str) -> RawItem {
    Ok(StreamEvent::NeighborUp { endpoint_id: id.to_string() })
}

fn down(id: &str) -> RawItem {
    Ok(StreamEvent::NeighborDown { endpoint_id: id.to_string() })
}

fn node() -> StreamingNode {
    StreamingNode::new(KEY_C.to_string())
}

fn opts(myself: bool, bootstrap: bool, neighbors: bool) -> TicketOpts {
    TicketOpts { include_myself: myself, include_bootstrap: bootstrap, include_neighbors: neighbors }
}

#[test]
fn hex_encode_writes_two_lowercase_digits_per_byte() {
    let cs = hex_encode(&vec![0x00, 0x0f, 0xa5, 0xff]);
    let s: String = cs.iter().collect();
    assert_eq!(s, "000fa5ff");
}

#[test]
fn hex_decode_rejects_odd_length_and_stray_characters() {
    assert_eq!(hex_decode(&"abc".chars().collect()), None);
    assert_eq!(hex_decode(&"zz".chars().collect()), None);
    assert_eq!(hex_decode(&"AB".chars().collect()), None);
    assert_eq!(hex_decode(&"a5ff".chars().collect()), Some(vec![0xa5, 0xff]));
}

#[test]
fn empty_ticket_has_exact_text() {
    let t = Ticket::new(vec![7u8; 32]);
    let expected = format!("01{}00000000", "07".repeat(32));
    assert_eq!(t.serialize_ticket(), expected);
}

#[test]
fn ticket_round_trip_keeps_topic_and_bootstrap() {
    let mut t = Ticket::new(vec![9u8; 32]);
    t.insert(bytes_of(KEY_A));
    t.insert(bytes_of(KEY_B));
    t.insert(bytes_of(KEY_A));
    assert_eq!(t.bootstrap.len(), 2);
    let text = t.serialize_ticket();
    let back = Ticket::deserialize_ticket(&text).expect("round trip");
    assert_eq!(back.topic, t.topic);
    assert_eq!(sorted_keys(&back), sorted_keys(&t));
}

#[test]
fn truncated_ticket_is_invalid() {
    let mut t = Ticket::new(vec![3u8; 32]);
    t.insert(bytes_of(KEY_A));
    t.insert(bytes_of(KEY_B));
    let text = t.serialize_ticket();
    for n in [0, 1, 2, 73, 74, text.len() - 64, text.len() - 2, text.len() - 1] {
        let r = Ticket::deserialize_ticket(&text[..n]);
        assert_eq!(r.err(), Some(StreamError::InvalidTicket), "prefix of length {}", n);
    }
}

#[test]
fn garbled_ticket_is_invalid() {
    let t = Ticket::new(vec![3u8; 32]);
    let text = t.serialize_ticket();
    let wrong_version = format!("02{}", &text[2..]);
    let bad_char = format!("{}g{}", &text[..10], &text[11..]);
    let wrong_count = format!("{}00000001", &text[..text.len() - 8]);
    for s in [wrong_version, bad_char, wrong_count, "not a ticket".to_string(), String::new()] {
        assert_eq!(Ticket::deserialize_ticket(&s).err(), Some(StreamError::InvalidTicket));
    }
}

#[test]
fn repeated_bootstrap_key_is_invalid() {
    let t = Ticket::new(vec![3u8; 32]);
    let text = t.serialize_ticket();
    let dup = format!("{}00000002{}{}", &text[..text.len() - 8], KEY_A, KEY_A);
    assert_eq!(Ticket::deserialize_ticket(&dup).err(), Some(StreamError::InvalidTicket));
    let one = format!("{}00000001{}", &text[..text.len() - 8], KEY_A);
    assert!(Ticket::deserialize_ticket(&one).is_ok());
}

#[test]
fn feed_skips_delivery_errors_and_keeps_order() {
    let n = node();
    let mut s = n.create_stream(vec![1u8; 32], "me".to_string()).unwrap();
    let items: Vec<RawItem> = vec![
        Ok(StreamEvent::Presence { from: KEY_A.to_string(), name: "a".to_string(), sent_timestamp: 5 }),
        Err("undeliverable".to_string()),
        Ok(StreamEvent::MediaChunk { from: KEY_A.to_string(), data: vec![1, 2, 3], sequence: 7, timestamp: 9 }),
        Ok(StreamEvent::Lagged),
        up(KEY_B),
    ];
    let out = s.observe_all(items);
    assert_eq!(out.len(), 4);
    assert!(matches!(&out[0], WasmStreamEvent::Presence { from, name, sent_timestamp: 5 } if from == KEY_A && name == "a"));
    assert!(matches!(&out[1], WasmStreamEvent::MediaChunk { data, sequence: 7, timestamp: 9, .. } if data == &vec![1, 2, 3]));
    assert!(matches!(&out[2], WasmStreamEvent::Lagged));
    assert!(matches!(&out[3], WasmStreamEvent::NeighborUp { endpoint_id } if endpoint_id == KEY_B));
    assert_eq!(s.neighbors(), vec![KEY_B.to_string()]);
}

#[test]
fn signal_passes_through_unchanged() {
    let mut s = node().create_stream(vec![1u8; 32], "me".to_string()).unwrap();
    let e = s.observe(Ok(StreamEvent::Signal { from: KEY_A.to_string(), data: vec![4, 5], timestamp: 11 }));
    assert!(matches!(e, Some(WasmStreamEvent::Signal { from, data, timestamp: 11 }) if from == KEY_A && data == vec![4, 5]));
    assert!(s.observe(Err("broken".to_string())).is_none());
}

#[test]
fn neighbor_up_then_down() {
    let mut s = node().create_stream(vec![1u8; 32], "me".to_string()).unwrap();
    let e = s.observe(up(KEY_A));
    assert!(matches!(e, Some(WasmStreamEvent::NeighborUp { .. })));
    assert_eq!(s.neighbors(), vec![KEY_A.to_string()]);
    s.observe(up(KEY_A));
    assert_eq!(s.neighbors(), vec![KEY_A.to_string()]);
    let e = s.observe(down(KEY_A));
    assert!(matches!(e, Some(WasmStreamEvent::NeighborDown { endpoint_id }) if endpoint_id == KEY_A));
    assert!(s.neighbors().is_empty());
    s.observe(down(KEY_B));
    assert!(s.neighbors().is_empty());
}

#[test]
fn plain_derived_ticket_has_no_bootstrap() {
    let n = node();
    let mut t = Ticket::new(vec![4u8; 32]);
    t.insert(bytes_of(KEY_A));
    let mut s = n.join(t, "me".to_string()).unwrap();
    s.observe(up(KEY_B));
    let d = s.derive_ticket(opts(false, false, false)).unwrap();
    assert_eq!(d.topic, vec![4u8; 32]);
    assert!(d.bootstrap.is_empty());
}

#[test]
fn derived_ticket_with_live_neighbors() {
    let mut s = node().create_stream(vec![2u8; 32], "me".to_string()).unwrap();
    s.observe_all(vec![up(KEY_A), up(KEY_B), down(KEY_A)]);
    let d = s.derive_ticket(opts(false, false, true)).unwrap();
    assert_eq!(d.bootstrap, vec![bytes_of(KEY_B)]);
}

#[test]
fn derived_ticket_skips_neighbors_that_do_not_parse() {
    let mut s = node().create_stream(vec![2u8; 32], "me".to_string()).unwrap();
    s.observe_all(vec![up("not-an-endpoint"), up(KEY_A)]);
    let d = s.derive_ticket(opts(false, false, true)).unwrap();
    assert_eq!(d.bootstrap, vec![bytes_of(KEY_A)]);
}

#[test]
fn derived_ticket_with_self_and_original_bootstrap() {
    let mut t = Ticket::new(vec![5u8; 32]);
    t.insert(bytes_of(KEY_A));
    let mut s = node().join(t, "me".to_string()).unwrap();
    s.observe(up(KEY_B));
    let d = s.derive_ticket(opts(true, true, false)).unwrap();
    let mut expected = vec![bytes_of(KEY_C), bytes_of(KEY_A)];
    expected.sort();
    assert_eq!(sorted_keys(&d), expected);
    let all = s.derive_ticket(opts(true, true, true)).unwrap();
    assert_eq!(all.bootstrap.len(), 3);
    let text = s.ticket(opts(true, true, true)).unwrap();
    let back = Ticket::deserialize_ticket(&text).unwrap();
    assert_eq!(sorted_keys(&back), sorted_keys(&all));
    assert_eq!(back.topic, vec![5u8; 32]);
}

#[test]
fn derived_ticket_with_unparsable_self_is_invariant_violation() {
    let n = StreamingNode::new("not-an-endpoint".to_string());
    let s = n.create_stream(vec![2u8; 32], "me".to_string()).unwrap();
    assert_eq!(s.derive_ticket(opts(true, false, false)).err(), Some(StreamError::InvariantViolation));
    assert_eq!(s.ticket(opts(true, true, true)).err(), Some(StreamError::InvariantViolation));
    assert!(s.derive_ticket(opts(false, true, true)).is_ok());
}

#[test]
fn shutdown_twice_reports_node_closed() {
    let mut n = node();
    assert_eq!(n.shutdown(), Ok(()));
    assert!(n.is_closed());
    assert_eq!(n.shutdown(), Err(StreamError::NodeClosed));
    assert_eq!(n.create_stream(vec![1u8; 32], "me".to_string()).err(), Some(StreamError::NodeClosed));
    let text = Ticket::new(vec![1u8; 32]).serialize_ticket();
    assert_eq!(n.join_stream(&text, "me".to_string()).err(), Some(StreamError::NodeClosed));
}

#[test]
fn sessions_on_one_topic_track_neighbors_apart() {
    let n = node();
    let text = Ticket::new(vec![8u8; 32]).serialize_ticket();
    let mut first = n.join_stream(&text, "one".to_string()).unwrap();
    let mut second = n.join_stream(&text, "two".to_string()).unwrap();
    first.observe(up(KEY_A));
    second.observe(up(KEY_B));
    second.observe(down(KEY_B));
    assert_eq!(first.neighbors(), vec![KEY_A.to_string()]);
    assert!(second.neighbors().is_empty());
    assert_eq!(first.id(), second.id());
}

#[test]
fn join_stream_rejects_bad_ticket() {
    let n = node();
    assert_eq!(n.join_stream("zz", "me".to_string()).err(), Some(StreamError::InvalidTicket));
}

#[test]
fn stream_id_is_hex_topic() {
    let s = node().create_stream(vec![0xabu8; 32], "me".to_string()).unwrap();
    assert_eq!(s.id(), "ab".repeat(32));
}

#[test]
fn endpoint_id_is_the_node_identity() {
    assert_eq!(node().endpoint_id(), KEY_C);
}

#[test]
fn set_name_changes_the_sender_name() {
    let mut s = node().create_stream(vec![1u8; 32], "first".to_string()).unwrap();
    assert_eq!(s.sender().name(), "first");
    s.sender.set_name("second".to_string());
    assert_eq!(s.sender().name(), "second");
}

#[test]
fn sender_builds_outbound_messages() {
    let mut s = node().create_stream(vec![1u8; 32], "cam".to_string()).unwrap();
    let sender = s.sender();
    assert!(matches!(sender.broadcast_chunk(vec![9, 8], 4, 100), iroh_streaming::OutboundMessage::MediaChunk { data, sequence: 4, timestamp: 100 } if data == vec![9, 8]));
    assert!(matches!(sender.send_signal(vec![1], 7), iroh_streaming::OutboundMessage::Signal { data, timestamp: 7 } if data == vec![1]));
    s.sender.set_name("mic".to_string());
    assert!(matches!(s.sender.send_presence(12), iroh_streaming::OutboundMessage::Presence { name, sent_timestamp: 12 } if name == "mic"));
}
