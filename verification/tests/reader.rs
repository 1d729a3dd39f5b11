//! The framed reader: one message out however the bytes were chunked.

use rqueue::frame_reader::FrameReader;
use rqueue::protocol::{notify_message, subscribe_message, FrameError, SubscriberId, NOTIFICATION};

fn sid(n: u64) -> SubscriberId {
    SubscriberId { id: n }
}

#[test]
fn whole_frame_at_once() {
    let frame = notify_message(b"orders", &[1, 2, 3]);
    let mut r = FrameReader::new(sid(7));
    r.push_chunk(&frame);
    let m = r.poll_frame().unwrap().unwrap();
    assert_eq!(m.m_type, NOTIFICATION);
    assert_eq!(m.bytes, frame);
    assert_eq!(m.origin, sid(7));
    assert!(r.poll_frame().unwrap().is_none());
    assert!(!r.has_partial_frame());
}

#[test]
fn one_byte_at_a_time_yields_the_same_message() {
    let frame = notify_message(b"orders", &[1, 2, 3]);
    let mut whole = FrameReader::new(sid(1));
    whole.push_chunk(&frame);
    let expected = whole.poll_frame().unwrap().unwrap();

    let mut drip = FrameReader::new(sid(1));
    for (i, b) in frame.iter().enumerate() {
        drip.push_chunk(&[*b]);
        if i + 1 < frame.len() {
            // no complete frame yet, and pending bytes are not a shutdown
            assert!(drip.poll_frame().unwrap().is_none());
            assert!(drip.has_partial_frame());
        }
    }
    let m = drip.poll_frame().unwrap().unwrap();
    assert_eq!(m.bytes, expected.bytes);
    assert_eq!(m.m_type, expected.m_type);
}

#[test]
fn arbitrary_split_yields_the_same_message() {
    let frame = subscribe_message(b"topic-x");
    for split in 0..=frame.len() {
        let mut r = FrameReader::new(sid(2));
        r.push_chunk(&frame[..split]);
        r.push_chunk(&frame[split..]);
        let m = r.poll_frame().unwrap().unwrap();
        assert_eq!(m.bytes, frame);
    }
}

#[test]
fn two_frames_in_one_chunk() {
    let f1 = subscribe_message(b"a");
    let f2 = notify_message(b"a", &[42]);
    let mut both = f1.clone();
    both.extend_from_slice(&f2);
    let mut r = FrameReader::new(sid(3));
    r.push_chunk(&both);
    let m1 = r.poll_frame().unwrap().unwrap();
    let m2 = r.poll_frame().unwrap().unwrap();
    assert_eq!(m1.bytes, f1);
    assert_eq!(m2.bytes, f2);
    assert!(r.poll_frame().unwrap().is_none());
}

#[test]
fn zero_declared_length_is_a_framing_error() {
    let mut r = FrameReader::new(sid(4));
    r.push_chunk(&[0, 0, 1]);
    assert!(matches!(r.poll_frame(), Err(FrameError::BadLength)));
}

#[test]
fn oversize_declared_length_is_a_framing_error() {
    let mut r = FrameReader::new(sid(5));
    r.push_chunk(&[0xFF, 0xFF]);
    assert!(matches!(r.poll_frame(), Err(FrameError::BadLength)));
}

#[test]
fn empty_reader_reports_no_partial_frame() {
    let mut r = FrameReader::new(sid(6));
    assert!(!r.has_partial_frame());
    assert!(r.poll_frame().unwrap().is_none());
    r.push_chunk(&[0]);
    assert!(r.has_partial_frame());
}
