use netforensics::flow::{FlowBuffer, FlowKey, Reassembler};

fn key(n: u16) -> FlowKey {
    FlowKey { src_addr: 0x0A00_0001, dst_addr: 0x0A00_0002, src_port: n, dst_port: 80 }
}

fn stream_after(segments: &[(u32, &str)]) -> Vec<u8> {
    let mut r = Reassembler::new();
    for (seq, data) in segments {
        r.ingest(key(1), Some(*seq), data.as_bytes().to_vec());
    }
    r.stream(key(1)).unwrap()
}

#[test]
fn segments_come_out_in_sequence_order() {
    assert_eq!(stream_after(&[(30, "CC"), (10, "AA"), (20, "BB")]), b"AABBCC".to_vec());
}

#[test]
fn every_arrival_order_gives_the_same_stream() {
    let a = (1u32, "AA");
    let b = (5u32, "BB");
    let c = (3u32, "CC");
    let orders = [[a, b, c], [a, c, b], [b, a, c], [b, c, a], [c, a, b], [c, b, a]];
    for order in orders.iter() {
        assert_eq!(stream_after(order), b"AACCBB".to_vec());
    }
}

#[test]
fn sequence_zero_first_keeps_order_independence() {
    assert_eq!(stream_after(&[(0, "AA"), (7, "BB"), (4, "CC")]), b"AACCBB".to_vec());
    assert_eq!(stream_after(&[(0, "AA"), (4, "CC"), (7, "BB")]), b"AACCBB".to_vec());
}

#[test]
fn sequence_zero_later_discards_what_came_before() {
    assert_eq!(stream_after(&[(2, "BB"), (0, "AA")]), b"AA".to_vec());
}

#[test]
fn sequence_zero_reset() {
    assert_eq!(stream_after(&[(0, "AA"), (2, "BB"), (0, "CC")]), b"CC".to_vec());
}

#[test]
fn duplicate_sequence_number_keeps_the_last_payload() {
    assert_eq!(stream_after(&[(1, "old"), (2, "tail"), (1, "new")]), b"newtail".to_vec());
}

#[test]
fn highest_sequence_number_comes_last() {
    assert_eq!(stream_after(&[(u32::MAX, "Z"), (1, "A")]), b"AZ".to_vec());
}

#[test]
fn datagrams_are_kept_in_arrival_order() {
    let mut r = Reassembler::new();
    r.ingest(key(9), None, b"second-first ".to_vec());
    r.ingest(key(9), None, b"first-second".to_vec());
    assert_eq!(r.stream(key(9)).unwrap(), b"second-first first-second".to_vec());
}

#[test]
fn datagrams_follow_the_segments_of_the_same_key() {
    let mut r = Reassembler::new();
    r.ingest(key(9), None, b"D".to_vec());
    r.ingest(key(9), Some(5), b"S".to_vec());
    assert_eq!(r.stream(key(9)).unwrap(), b"SD".to_vec());
}

#[test]
fn flows_do_not_mix() {
    let mut r = Reassembler::new();
    r.ingest(key(1), Some(1), b"one".to_vec());
    r.ingest(key(2), Some(1), b"two".to_vec());
    r.ingest(key(1), Some(2), b"-more".to_vec());
    assert_eq!(r.flow_count(), 2);
    assert_eq!(r.stream(key(1)).unwrap(), b"one-more".to_vec());
    assert_eq!(r.stream(key(2)).unwrap(), b"two".to_vec());
}

#[test]
fn the_two_directions_are_separate_flows() {
    let there = FlowKey { src_addr: 1, dst_addr: 2, src_port: 1000, dst_port: 80 };
    let back = FlowKey { src_addr: 2, dst_addr: 1, src_port: 80, dst_port: 1000 };
    let mut r = Reassembler::new();
    r.ingest(there, Some(1), b"request".to_vec());
    r.ingest(back, Some(1), b"response".to_vec());
    assert_eq!(r.stream(there).unwrap(), b"request".to_vec());
    assert_eq!(r.stream(back).unwrap(), b"response".to_vec());
}

#[test]
fn unknown_key_has_no_stream() {
    let r = Reassembler::new();
    assert!(!r.knows(key(1)));
    assert!(r.stream(key(1)).is_none());
}

#[test]
fn clear_empties_the_buffer_and_keeps_the_key() {
    let mut r = Reassembler::new();
    r.ingest(key(1), Some(4), b"data".to_vec());
    r.clear(key(1));
    assert!(r.knows(key(1)));
    assert_eq!(r.stream(key(1)).unwrap(), Vec::<u8>::new());
    r.ingest(key(1), Some(9), b"next".to_vec());
    assert_eq!(r.stream(key(1)).unwrap(), b"next".to_vec());
}

#[test]
fn clear_of_an_unknown_key_changes_nothing() {
    let mut r = Reassembler::new();
    r.ingest(key(1), Some(4), b"data".to_vec());
    r.clear(key(2));
    assert_eq!(r.flow_count(), 1);
    assert_eq!(r.stream(key(1)).unwrap(), b"data".to_vec());
}

#[test]
fn drain_hands_out_flows_in_first_seen_order() {
    let mut r = Reassembler::new();
    r.ingest(key(7), Some(2), b"b".to_vec());
    r.ingest(key(3), Some(1), b"x".to_vec());
    r.ingest(key(7), Some(1), b"a".to_vec());
    let streams = r.drain();
    assert_eq!(streams, vec![(key(7), b"ab".to_vec()), (key(3), b"x".to_vec())]);
    assert_eq!(r.flow_count(), 0);
    assert!(r.drain().is_empty());
}

#[test]
fn flow_buffer_accepts_and_streams() {
    let mut b = FlowBuffer::new();
    assert_eq!(b.stream(), Vec::<u8>::new());
    b.accept(Some(8), b"8".to_vec());
    b.accept(Some(2), b"2".to_vec());
    b.accept(Some(5), b"5".to_vec());
    b.accept(None, b"!".to_vec());
    assert_eq!(b.stream(), b"258!".to_vec());
    b.accept(Some(0), b"0".to_vec());
    assert_eq!(b.stream(), b"0".to_vec());
}

#[test]
fn segments_without_bytes_may_come_before_sequence_zero() {
    assert_eq!(stream_after(&[(0, "AA"), (2, ""), (9, "")]), b"AA".to_vec());
    assert_eq!(stream_after(&[(2, ""), (0, "AA"), (9, "")]), b"AA".to_vec());
    assert_eq!(stream_after(&[(9, ""), (2, ""), (0, "AA")]), b"AA".to_vec());
}

#[test]
fn head_is_the_start_of_the_stream() {
    let mut r = Reassembler::new();
    assert!(r.head(key(1), 4).is_none());
    r.ingest(key(1), Some(3), b"cd".to_vec());
    r.ingest(key(1), Some(1), b"ab".to_vec());
    r.ingest(key(1), Some(2), b"".to_vec());
    r.ingest(key(1), None, b"ef".to_vec());
    assert_eq!(r.head(key(1), 0).unwrap(), b"".to_vec());
    assert_eq!(r.head(key(1), 1).unwrap(), b"a".to_vec());
    assert_eq!(r.head(key(1), 3).unwrap(), b"abc".to_vec());
    assert_eq!(r.head(key(1), 4).unwrap(), b"abcd".to_vec());
    assert_eq!(r.head(key(1), 5).unwrap(), b"abcde".to_vec());
    assert_eq!(r.head(key(1), 6).unwrap(), b"abcdef".to_vec());
    assert_eq!(r.head(key(1), 100).unwrap(), b"abcdef".to_vec());
    let mut b = FlowBuffer::new();
    assert_eq!(b.head(8), Vec::<u8>::new());
    b.accept(None, b"datagram".to_vec());
    assert_eq!(b.head(4), b"data".to_vec());
}
