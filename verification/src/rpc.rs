//! The dispatch interpreter: turns one complete inbound message into its
//! effect on the worker's subscription state, plus the transport work the
//! caller must perform — forwarding a notification frame to subscribers,
//! and re-broadcasting subscription changes to sibling workers.
//!
//! No transport is touched here.  The caller owns the sockets and the
//! channels: it writes `frame` to every connection in `recipients`, and
//! sends `broadcast` to every sibling worker's inbox.  Broadcast copies are
//! retagged to the non-rebroadcast form of their type, so a sibling applies
//! them locally and the propagation terminates.

use vstd::prelude::*;
use crate::protocol::{
    decode_frame, is_topic_type, spec_decode, FrameError, RawMessage, SubscriberId, DEREGISTER,
    DEREGISTER_ONCE, NOTIFICATION, REMOVE, REMOVE_ONCE, SUBSCRIBE, SUBSCRIBE_ONCE,
};
use crate::subscription::{
    dereg_topics, sub_interests, sub_topics, unsub_interests, unsub_topics, SubscriptionState,
};

verus! {

/// The transport work one message leaves behind.
pub struct Effects {
    /// The connections the frame must be forwarded to.
    pub recipients: Vec<SubscriberId>,
    /// The frame to forward to each recipient, verbatim; empty when there
    /// are no recipients.
    pub frame: Vec<u8>,
    /// A retagged copy of the message for every sibling worker, when the
    /// operation must propagate across shards.
    pub broadcast: Option<RawMessage>,
}

/// The broadcast slot holds a copy of `work` whose type byte, cached and
/// in the frame, was rewritten to `t` — a fresh owned message, never an
/// alias into the original's buffer.
pub open spec fn is_retag(b: Option<RawMessage>, work: RawMessage, t: u8) -> bool {
    match b {
        Some(m) => {
            &&& m.wf()
            &&& m.m_type == t
            &&& m.origin == work.origin
            &&& m.bytes@ == work.bytes@.update(2, t)
        },
        None => false,
    }
}

/// What dispatching one message does, case by case over its decoded form.
pub open spec fn parse_spec_ok(
    work: RawMessage,
    pre: SubscriptionState,
    post: SubscriptionState,
    eff: Effects,
) -> bool {
    match spec_decode(work.bytes@) {
        Ok((t, topic, body)) => {
            if t == NOTIFICATION {
                &&& post == pre
                &&& eff.frame@ == work.bytes@
                &&& (forall|s: SubscriberId|
                    eff.recipients@.contains(s) == pre.topic_has(topic, s))
                &&& (forall|i: int, j: int|
                    0 <= i < j < eff.recipients@.len() ==> eff.recipients@[i]
                        != eff.recipients@[j])
                &&& eff.broadcast is None
            } else if t == SUBSCRIBE || t == SUBSCRIBE_ONCE {
                &&& post.topics() == sub_topics(pre.topics(), topic, work.origin)
                &&& post.interests() == sub_interests(pre.interests(), work.origin, topic)
                &&& eff.recipients@ == Seq::<SubscriberId>::empty()
                &&& eff.frame@ == Seq::<u8>::empty()
                &&& (t == SUBSCRIBE ==> is_retag(eff.broadcast, work, SUBSCRIBE_ONCE))
                &&& (t == SUBSCRIBE_ONCE ==> eff.broadcast is None)
            } else if t == REMOVE || t == REMOVE_ONCE {
                &&& post.topics() == unsub_topics(pre.topics(), topic, work.origin)
                &&& post.interests() == unsub_interests(pre.interests(), work.origin, topic)
                &&& eff.recipients@ == Seq::<SubscriberId>::empty()
                &&& eff.frame@ == Seq::<u8>::empty()
                &&& (t == REMOVE ==> is_retag(eff.broadcast, work, REMOVE_ONCE))
                &&& (t == REMOVE_ONCE ==> eff.broadcast is None)
            } else if t == DEREGISTER || t == DEREGISTER_ONCE {
                &&& post.topics() == dereg_topics(pre.topics(), work.origin)
                &&& post.interests() == pre.interests().remove(work.origin)
                &&& eff.recipients@ == Seq::<SubscriberId>::empty()
                &&& eff.frame@ == Seq::<u8>::empty()
                &&& (t == DEREGISTER ==> is_retag(eff.broadcast, work, DEREGISTER_ONCE))
                &&& (t == DEREGISTER_ONCE ==> eff.broadcast is None)
            } else {
                false
            }
        },
        Err(e) => {
            &&& e == FrameError::UnknownType
            &&& post == pre
            &&& eff.recipients@ == Seq::<SubscriberId>::empty()
            &&& eff.frame@ == Seq::<u8>::empty()
            &&& eff.broadcast is None
        },
    }
}

fn retag(work: &RawMessage, t: u8) -> (r: RawMessage)
    requires
        work.wf(),
    ensures
        r.wf(),
        r.m_type == t,
        r.origin == work.origin,
        r.bytes@ == work.bytes@.update(2, t),
{
    let mut bytes: Vec<u8> = Vec::new();
    crate::protocol::push_bytes(&mut bytes, work.bytes.as_slice());
    bytes[2] = t;
    proof {
        assert(bytes@ =~= work.bytes@.update(2, t));
        assert(bytes@.subrange(0, 2) =~= work.bytes@.subrange(0, 2));
        assert(crate::protocol::be_u16(bytes@) == crate::protocol::be_u16(work.bytes@));
    }
    RawMessage { m_type: t, bytes, origin: work.origin }
}

/// Dispatches one message against this worker's subscription state.
///
/// An `Err` is a framing error: the caller drops the connection the
/// message arrived on and deregisters it, without crashing the worker.  An
/// unrecognized type byte is a no-op, not an error.
pub fn parse(work: RawMessage, state: &mut SubscriptionState) -> (r: Result<Effects, FrameError>)
    requires
        work.wf(),
        old(state).wf(),
    ensures
        final(state).wf(),
        match r {
            Ok(eff) => parse_spec_ok(work, *old(state), *final(state), eff),
            Err(e) => ({
                &&& spec_decode(work.bytes@) == Err::<(u8, Seq<u8>, Seq<u8>), FrameError>(e)
                &&& e != FrameError::UnknownType
                &&& *final(state) == *old(state)
            }),
        },
{
    let decoded = decode_frame(work.bytes.as_slice());
    match decoded {
        Ok(f) => {
            if f.m_type == NOTIFICATION {
                let recipients = state.publish(f.topic);
                Ok(Effects { recipients, frame: work.bytes, broadcast: None })
            } else if f.m_type == SUBSCRIBE || f.m_type == SUBSCRIBE_ONCE {
                state.subscribe(f.topic, work.origin);
                let broadcast = if f.m_type == SUBSCRIBE {
                    Some(retag(&work, SUBSCRIBE_ONCE))
                } else {
                    None
                };
                Ok(Effects { recipients: Vec::new(), frame: Vec::new(), broadcast })
            } else if f.m_type == REMOVE || f.m_type == REMOVE_ONCE {
                state.unsubscribe(f.topic, work.origin);
                let broadcast = if f.m_type == REMOVE {
                    Some(retag(&work, REMOVE_ONCE))
                } else {
                    None
                };
                Ok(Effects { recipients: Vec::new(), frame: Vec::new(), broadcast })
            } else if f.m_type == DEREGISTER || f.m_type == DEREGISTER_ONCE {
                state.deregister(work.origin);
                let broadcast = if f.m_type == DEREGISTER {
                    Some(retag(&work, DEREGISTER_ONCE))
                } else {
                    None
                };
                Ok(Effects { recipients: Vec::new(), frame: Vec::new(), broadcast })
            } else {
                proof {
                    assert(false);
                }
                Err(FrameError::UnknownType)
            }
        },
        Err(e) => {
            match e {
                FrameError::UnknownType => Ok(
                    Effects { recipients: Vec::new(), frame: Vec::new(), broadcast: None },
                ),
                _ => Err(e),
            }
        },
    }
}

/// Rewriting a topic-bearing frame's type byte rewrites exactly the type
/// of what it decodes to; the topic and the body come out unchanged.
pub proof fn lemma_retag_decode(b: Seq<u8>, t0: u8, topic: Seq<u8>, body: Seq<u8>, t: u8)
    requires
        spec_decode(b) == Ok::<(u8, Seq<u8>, Seq<u8>), FrameError>((t0, topic, body)),
        is_topic_type(t0),
        is_topic_type(t),
    ensures
        spec_decode(b.update(2, t)) == Ok::<(u8, Seq<u8>, Seq<u8>), FrameError>((t, topic, body)),
{
    let b2 = b.update(2, t);
    assert(crate::protocol::be_u16(b2) == crate::protocol::be_u16(b));
    assert(b2[2] == t);
    assert(b2[3] == b[3]);
    let tl = b[3] as int;
    assert(b2.subrange(4, 4 + tl) =~= b.subrange(4, 4 + tl));
    assert(b2.subrange(4 + tl, b2.len() as int) =~= b.subrange(4 + tl, b.len() as int));
}

/// Cross-shard propagation: when worker A accepts a `SUBSCRIBE` and its
/// broadcast copy is later dispatched on worker B, B records exactly the
/// same subscription A did — on both shards the origin connection now
/// receives the topic.
pub proof fn lemma_cross_shard_propagation(
    work: RawMessage,
    topic: Seq<u8>,
    body: Seq<u8>,
    a0: SubscriptionState,
    a1: SubscriptionState,
    ea: Effects,
    b0: SubscriptionState,
    b1: SubscriptionState,
    eb: Effects,
)
    requires
        spec_decode(work.bytes@) == Ok::<(u8, Seq<u8>, Seq<u8>), FrameError>(
            (SUBSCRIBE, topic, body),
        ),
        parse_spec_ok(work, a0, a1, ea),
        ea.broadcast matches Some(m) && parse_spec_ok(m, b0, b1, eb),
    ensures
        a1.topics() == sub_topics(a0.topics(), topic, work.origin),
        b1.topics() == sub_topics(b0.topics(), topic, work.origin),
        a1.topic_has(topic, work.origin),
        b1.topic_has(topic, work.origin),
{
    let m = ea.broadcast.unwrap();
    lemma_retag_decode(work.bytes@, SUBSCRIBE, topic, body, SUBSCRIBE_ONCE);
    assert(spec_decode(m.bytes@) == Ok::<(u8, Seq<u8>, Seq<u8>), FrameError>(
        (SUBSCRIBE_ONCE, topic, body),
    ));
    assert(a1.topics()[topic].contains(work.origin));
    assert(b1.topics()[topic].contains(work.origin));
}

} // verus!

