//! Subscription state and the dispatch interpreter: idempotence, mutual
//! consistency, empty-entry cleanup, fan-out, and cross-shard propagation.

use rqueue::protocol::{
    decode_frame, deregister_message, notify_message, subscribe_message, unsubscribe_message,
    FrameError, RawMessage, SubscriberId, DEREGISTER, DEREGISTER_ONCE, NOTIFICATION, REMOVE,
    REMOVE_ONCE, SUBSCRIBE_ONCE,
};
use rqueue::rpc::{parse, Effects};
use rqueue::subscription::SubscriptionState;

fn sid(n: u64) -> SubscriberId {
    SubscriberId { id: n }
}

fn msg(bytes: Vec<u8>, origin: SubscriberId) -> RawMessage {
    let m_type = bytes[2];
    RawMessage { m_type, bytes, origin }
}

#[test]
fn subscribe_twice_keeps_one_occurrence() {
    let mut st = SubscriptionState::new();
    st.subscribe(b"orders", sid(1));
    st.subscribe(b"orders", sid(1));
    let rcpts = st.publish(b"orders");
    assert_eq!(rcpts.len(), 1);
    assert_eq!(rcpts[0], sid(1));
}

#[test]
fn unsubscribe_twice_is_safe() {
    let mut st = SubscriptionState::new();
    st.subscribe(b"orders", sid(1));
    st.subscribe(b"orders", sid(2));
    st.unsubscribe(b"orders", sid(1));
    st.unsubscribe(b"orders", sid(1));
    let rcpts = st.publish(b"orders");
    assert_eq!(rcpts.len(), 1);
    assert_eq!(rcpts[0], sid(2));
}

#[test]
fn last_unsubscribe_deletes_the_entry() {
    let mut st = SubscriptionState::new();
    st.subscribe(b"t", sid(1));
    assert!(st.has_topic_entry(b"t"));
    st.unsubscribe(b"t", sid(1));
    assert!(!st.has_topic_entry(b"t"));
    assert!(st.publish(b"t").is_empty());
}

#[test]
fn deregister_purges_all_topics() {
    let mut st = SubscriptionState::new();
    st.subscribe(b"a", sid(1));
    st.subscribe(b"b", sid(1));
    st.subscribe(b"b", sid(2));
    st.subscribe(b"c", sid(1));
    st.deregister(sid(1));
    assert!(!st.has_topic_entry(b"a"));
    assert!(!st.has_topic_entry(b"c"));
    assert!(st.has_topic_entry(b"b"));
    let rcpts = st.publish(b"b");
    assert_eq!(rcpts.len(), 1);
    assert_eq!(rcpts[0], sid(2));
    // a second deregister of the same subscriber is a no-op
    st.deregister(sid(1));
    assert!(st.has_topic_entry(b"b"));
}

#[test]
fn indices_stay_mutually_consistent() {
    let mut st = SubscriptionState::new();
    st.subscribe(b"x", sid(1));
    st.subscribe(b"y", sid(1));
    st.subscribe(b"x", sid(2));
    assert!(st.is_subscribed(b"x", sid(1)));
    assert!(st.is_subscribed(b"y", sid(1)));
    assert!(st.is_subscribed(b"x", sid(2)));
    assert!(!st.is_subscribed(b"y", sid(2)));
    st.unsubscribe(b"x", sid(1));
    assert!(!st.is_subscribed(b"x", sid(1)));
    assert!(st.is_subscribed(b"y", sid(1)));
    assert!(st.is_subscribed(b"x", sid(2)));
    st.deregister(sid(2));
    assert!(!st.is_subscribed(b"x", sid(2)));
    assert!(!st.has_topic_entry(b"x"));
}

#[test]
fn notification_fans_out_to_both_subscribers() {
    let mut st = SubscriptionState::new();
    let s1 = sid(1);
    let s2 = sid(2);
    let _s3 = sid(3);
    parse(msg(subscribe_message(b"orders"), s1), &mut st).unwrap();
    parse(msg(subscribe_message(b"orders"), s2), &mut st).unwrap();
    let eff = parse(msg(notify_message(b"orders", &[1, 2, 3]), s1), &mut st).unwrap();
    assert_eq!(eff.recipients.len(), 2);
    assert!(eff.recipients.contains(&s1));
    assert!(eff.recipients.contains(&s2));
    assert!(!eff.recipients.contains(&sid(3)));
    assert!(eff.broadcast.is_none());
    // each recipient gets exactly the notification frame back
    let f = decode_frame(&eff.frame).unwrap();
    assert_eq!(f.m_type, NOTIFICATION);
    assert_eq!(f.topic, b"orders");
    assert_eq!(f.body, &[1, 2, 3]);
}

#[test]
fn subscribe_broadcasts_a_retagged_copy() {
    let mut st = SubscriptionState::new();
    let eff = parse(msg(subscribe_message(b"x"), sid(1)), &mut st).unwrap();
    let b = eff.broadcast.expect("a SUBSCRIBE must broadcast");
    assert_eq!(b.m_type, SUBSCRIBE_ONCE);
    assert_eq!(b.origin, sid(1));
    let f = decode_frame(&b.bytes).unwrap();
    assert_eq!(f.m_type, SUBSCRIBE_ONCE);
    assert_eq!(f.topic, b"x");
}

#[test]
fn subscribe_once_does_not_rebroadcast() {
    let mut st = SubscriptionState::new();
    let mut frame = subscribe_message(b"x");
    frame[2] = SUBSCRIBE_ONCE;
    let eff = parse(msg(frame, sid(1)), &mut st).unwrap();
    assert!(eff.broadcast.is_none());
    assert!(st.is_subscribed(b"x", sid(1)));
}

#[test]
fn remove_broadcasts_and_remove_once_does_not() {
    let mut st = SubscriptionState::new();
    parse(msg(subscribe_message(b"x"), sid(1)), &mut st).unwrap();
    let eff = parse(msg(unsubscribe_message(b"x"), sid(1)), &mut st).unwrap();
    let b = eff.broadcast.expect("a REMOVE must broadcast");
    assert_eq!(b.m_type, REMOVE_ONCE);
    assert!(!st.is_subscribed(b"x", sid(1)));

    parse(msg(subscribe_message(b"x"), sid(1)), &mut st).unwrap();
    let mut frame = unsubscribe_message(b"x");
    frame[2] = REMOVE_ONCE;
    let eff2 = parse(msg(frame, sid(1)), &mut st).unwrap();
    assert!(eff2.broadcast.is_none());
    assert!(!st.is_subscribed(b"x", sid(1)));
}

#[test]
fn deregister_broadcasts_and_once_does_not() {
    let mut st = SubscriptionState::new();
    parse(msg(subscribe_message(b"x"), sid(1)), &mut st).unwrap();
    let eff = parse(msg(deregister_message(), sid(1)), &mut st).unwrap();
    let b = eff.broadcast.expect("a DEREGISTER must broadcast");
    assert_eq!(b.m_type, DEREGISTER_ONCE);
    assert_eq!(b.bytes, vec![0, 1, DEREGISTER_ONCE]);
    assert!(!st.is_subscribed(b"x", sid(1)));

    parse(msg(subscribe_message(b"x"), sid(1)), &mut st).unwrap();
    let eff2 = parse(msg(vec![0, 1, DEREGISTER_ONCE], sid(1)), &mut st).unwrap();
    assert!(eff2.broadcast.is_none());
    assert!(!st.is_subscribed(b"x", sid(1)));
}

// A SUBSCRIBE accepted on worker A propagates: applying its broadcast copy
// on worker B makes a publish on B reach the subscriber A accepted.
#[test]
fn cross_shard_propagation() {
    let mut worker_a = SubscriptionState::new();
    let mut worker_b = SubscriptionState::new();
    let s = sid(42);
    let eff = parse(msg(subscribe_message(b"x"), s), &mut worker_a).unwrap();
    let copy = eff.broadcast.expect("a SUBSCRIBE must broadcast");
    let eff_b = parse(copy, &mut worker_b).unwrap();
    assert!(eff_b.broadcast.is_none());
    // publish lands on worker B, which never saw the original SUBSCRIBE
    let eff_pub = parse(msg(notify_message(b"x", &[9]), sid(7)), &mut worker_b).unwrap();
    assert_eq!(eff_pub.recipients.len(), 1);
    assert_eq!(eff_pub.recipients[0], s);
}

#[test]
fn unknown_type_is_a_no_op() {
    let mut st = SubscriptionState::new();
    parse(msg(subscribe_message(b"x"), sid(1)), &mut st).unwrap();
    let eff: Effects = parse(msg(vec![0, 1, 200], sid(1)), &mut st).unwrap();
    assert!(eff.recipients.is_empty());
    assert!(eff.broadcast.is_none());
    assert!(st.is_subscribed(b"x", sid(1)));
}

#[test]
fn malformed_topic_is_a_framing_error() {
    let mut st = SubscriptionState::new();
    // the payload holds no topic bytes although the topic claims five
    let r = parse(msg(vec![0, 2, 1, 5], sid(1)), &mut st);
    assert!(matches!(r, Err(FrameError::BadTopicLength)));
}

#[test]
fn publish_on_unknown_topic_reaches_nobody() {
    let mut st = SubscriptionState::new();
    let eff = parse(msg(notify_message(b"nobody", &[1]), sid(1)), &mut st).unwrap();
    assert!(eff.recipients.is_empty());
    assert!(eff.broadcast.is_none());
}
