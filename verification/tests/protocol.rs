//! The wire codec: exact encodings, decode round trips, and framing errors.

use rqueue::protocol::{
    decode_frame, deregister_message, notify_message, subscribe_message, u8_2_to_usize,
    u8_4_to_u32, unsubscribe_message, FrameError, DEREGISTER, NOTIFICATION, REMOVE, SUBSCRIBE,
};

#[test]
fn it_works() {
}

#[test]
fn be16_exact() {
    assert_eq!(u8_2_to_usize(&[0x01, 0x02]), 258);
    assert_eq!(u8_2_to_usize(&[0x00, 0x00]), 0);
    assert_eq!(u8_2_to_usize(&[0xFF, 0xFF]), 65535);
}

#[test]
fn be32_exact() {
    assert_eq!(u8_4_to_u32(&[0, 0, 7, 213]), 2005);
    assert_eq!(u8_4_to_u32(&[1, 2, 3, 4]), 0x01020304);
    assert_eq!(u8_4_to_u32(&[0xFF, 0xFF, 0xFF, 0xFF]), 0xFFFFFFFF);
}

#[test]
fn notify_encoding_exact() {
    let frame = notify_message(&[3, 3, 3, 3], &[9]);
    assert_eq!(frame, vec![0, 7, NOTIFICATION, 4, 3, 3, 3, 3, 9]);
}

#[test]
fn subscribe_encoding_exact() {
    let frame = subscribe_message(&[3, 3, 3, 3]);
    assert_eq!(frame, vec![0, 6, SUBSCRIBE, 4, 3, 3, 3, 3]);
}

#[test]
fn unsubscribe_encoding_exact() {
    let frame = unsubscribe_message(b"x");
    assert_eq!(frame, vec![0, 3, REMOVE, 1, b'x']);
}

#[test]
fn deregister_encoding_exact() {
    assert_eq!(deregister_message(), vec![0, 1, DEREGISTER]);
}

#[test]
fn round_trip_notify() {
    let topic = b"orders";
    let body = [1u8, 2, 3];
    let frame = notify_message(topic, &body);
    let f = decode_frame(&frame).unwrap();
    assert_eq!(f.m_type, NOTIFICATION);
    assert_eq!(f.topic, topic);
    assert_eq!(f.body, &body);
}

#[test]
fn round_trip_subscribe() {
    let topic = [7u8; 255];
    let frame = subscribe_message(&topic);
    let f = decode_frame(&frame).unwrap();
    assert_eq!(f.m_type, SUBSCRIBE);
    assert_eq!(f.topic, &topic[..]);
    assert_eq!(f.body, &[]);
}

#[test]
fn round_trip_empty_topic() {
    let frame = subscribe_message(&[]);
    assert_eq!(frame, vec![0, 2, SUBSCRIBE, 0]);
    let f = decode_frame(&frame).unwrap();
    assert_eq!(f.m_type, SUBSCRIBE);
    assert_eq!(f.topic, &[]);
    assert_eq!(f.body, &[]);
}

#[test]
fn round_trip_largest_frame() {
    let topic = [0xABu8; 255];
    let body = vec![0xCDu8; 2046 - 2 - 255];
    let frame = notify_message(&topic, &body);
    assert_eq!(frame.len(), 2048);
    let f = decode_frame(&frame).unwrap();
    assert_eq!(f.m_type, NOTIFICATION);
    assert_eq!(f.topic, &topic[..]);
    assert_eq!(f.body, &body[..]);
}

#[test]
fn round_trip_deregister() {
    let frame = deregister_message();
    let f = decode_frame(&frame).unwrap();
    assert_eq!(f.m_type, DEREGISTER);
    assert_eq!(f.topic, &[]);
    assert_eq!(f.body, &[]);
}

#[test]
fn decode_rejects_short_frame() {
    assert!(matches!(decode_frame(&[0, 1]), Err(FrameError::BadLength)));
    assert!(matches!(decode_frame(&[]), Err(FrameError::BadLength)));
}

#[test]
fn decode_rejects_wrong_declared_length() {
    // declares 5 bytes after the length field but carries 2
    assert!(matches!(decode_frame(&[0, 5, NOTIFICATION, 0]), Err(FrameError::BadLength)));
}

#[test]
fn decode_rejects_unknown_type() {
    assert!(matches!(decode_frame(&[0, 1, 99]), Err(FrameError::UnknownType)));
}

#[test]
fn decode_rejects_overlong_topic() {
    // payload holds one byte after the type, but the topic claims 5
    assert!(matches!(decode_frame(&[0, 2, SUBSCRIBE, 5]), Err(FrameError::BadTopicLength)));
}
