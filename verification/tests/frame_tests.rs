use relay::frame::{encode_frame, take_frame, FrameStep, MAX_PAYLOAD};

#[test]
fn encodes_length_prefix_big_endian() {
    let out = encode_frame(b"hello");
    assert_eq!(out, vec![0, 0, 0, 5, b'h', b'e', b'l', b'l', b'o']);
}

#[test]
fn encodes_empty_payload() {
    assert_eq!(encode_frame(b""), vec![0, 0, 0, 0]);
}

#[test]
fn encodes_max_payload_length() {
    let payload = vec![7u8; MAX_PAYLOAD];
    let out = encode_frame(&payload);
    assert_eq!(&out[..4], &[0, 1, 0, 0]);
    assert_eq!(out.len(), 4 + MAX_PAYLOAD);
}

#[test]
fn take_frame_round_trips() {
    let mut buf = encode_frame(b"hello");
    buf.extend_from_slice(&encode_frame(b"world"));
    match take_frame(&mut buf) {
        FrameStep::Got(p) => assert_eq!(p, b"hello"),
        _ => panic!("expected a complete frame"),
    }
    match take_frame(&mut buf) {
        FrameStep::Got(p) => assert_eq!(p, b"world"),
        _ => panic!("expected a second complete frame"),
    }
    assert!(matches!(take_frame(&mut buf), FrameStep::NeedMore));
    assert!(buf.is_empty());
}

#[test]
fn take_frame_waits_for_more_bytes() {
    let mut buf = vec![0, 0, 0, 5, b'h', b'e'];
    assert!(matches!(take_frame(&mut buf), FrameStep::NeedMore));
    assert_eq!(buf, vec![0, 0, 0, 5, b'h', b'e']);
    let mut short = vec![0, 0];
    assert!(matches!(take_frame(&mut short), FrameStep::NeedMore));
}

#[test]
fn oversized_length_prefix_is_a_violation() {
    // A client sending FF FF FF FF as a length prefix is cut off.
    let mut buf = vec![0xff, 0xff, 0xff, 0xff];
    assert!(matches!(take_frame(&mut buf), FrameStep::Violation));
    let mut just_over = vec![0, 1, 0, 1];
    assert!(matches!(take_frame(&mut just_over), FrameStep::Violation));
}

#[test]
fn max_payload_is_not_a_violation() {
    let mut buf = vec![0, 1, 0, 0];
    buf.extend_from_slice(&vec![3u8; MAX_PAYLOAD]);
    match take_frame(&mut buf) {
        FrameStep::Got(p) => assert_eq!(p.len(), MAX_PAYLOAD),
        _ => panic!("expected a complete frame of the maximum size"),
    }
}
