//! The wire protocol: frame layout constants, byte-order helpers, the frame
//! codec, and the `RawMessage` unit that the rest of the broker consumes.
//!
//! One frame on the wire is
//! `[ length: 2 bytes, big-endian ][ type: 1 byte ][ payload: length - 1 bytes ]`
//! where `length` counts the type byte plus the payload, and the payload of
//! every topic-bearing type is `[ topic_len: 1 byte ][ topic ][ body ]`.

use vstd::prelude::*;
use vstd::slice::slice_subrange;

verus! {

/// Fixed capacity of a frame buffer: no frame, length prefix included, is
/// ever longer than this many bytes.
pub const MAX_STATIC_SZ: usize = 2048;

/// A fixed-size preamble precedes every payload: the length field plus the
/// type byte.
pub const PREAMBLE_SZ: usize = 3;

/// Width in bytes of the big-endian length field.
pub const PREAMBLE_LEN_SZ: usize = 2;

/// Largest value the length field may declare: the type byte plus payload
/// must fit in the frame buffer after the length field itself.
pub const MAX_FRAME_LEN: usize = 2046;

// The message type bytes.
/// Subscribes a client to a topic; broadcast to sibling workers.
pub const SUBSCRIBE: u8 = 1;
/// Removes one topic from a client's subscriptions; broadcast to siblings.
pub const REMOVE: u8 = 2;
/// Same as `SUBSCRIBE`, but never re-broadcast.
pub const SUBSCRIBE_ONCE: u8 = 3;
/// Same as `REMOVE`, but never re-broadcast.
pub const REMOVE_ONCE: u8 = 4;
/// Purges all subscriptions of a client; broadcast to siblings.
pub const DEREGISTER: u8 = 5;
/// Same as `DEREGISTER`, but never re-broadcast.
pub const DEREGISTER_ONCE: u8 = 6;
/// A message for a topic, forwarded verbatim to every interested client.
pub const NOTIFICATION: u8 = 7;

/// The stable identity of one client connection, as the broker sees it.
///
/// The transport layer assigns each accepted connection a number that stays
/// fixed for the connection's lifetime and hands it to the library together
/// with every frame read from that connection.
#[derive(Clone, Copy, PartialEq, Eq, Structural, Hash, Debug)]
pub struct SubscriberId {
    pub id: u64,
}

/// The value of a 2-byte big-endian field.
pub open spec fn be_u16(b: Seq<u8>) -> int
    recommends
        b.len() >= 2,
{
    256 * (b[0] as int) + (b[1] as int)
}

/// The value of a 4-byte big-endian field.
pub open spec fn be_u32(b: Seq<u8>) -> int
    recommends
        b.len() >= 4,
{
    0x1000000 * (b[0] as int) + 0x10000 * (b[1] as int) + 0x100 * (b[2] as int) + (b[3] as int)
}

/// Reads a 2-byte big-endian field from the front of a byte slice.
pub fn u8_2_to_usize(bytes: &[u8]) -> (r: usize)
    requires
        bytes@.len() >= 2,
    ensures
        r == be_u16(bytes@),
        r <= 0xFFFF,
{
    (bytes[0] as usize) * 256 + (bytes[1] as usize)
}

/// Reads a 4-byte big-endian field from the front of a byte slice.
pub fn u8_4_to_u32(bytes: &[u8]) -> (r: usize)
    requires
        bytes@.len() >= 4,
    ensures
        r == be_u32(bytes@),
        r <= 0xFFFFFFFF,
{
    let v: u32 = (bytes[0] as u32) * 0x1000000 + (bytes[1] as u32) * 0x10000 + (bytes[2] as u32)
        * 0x100 + (bytes[3] as u32);
    v as usize
}

/// The value the length field of a topic-bearing frame declares: the type
/// byte, the topic length byte, the topic, and the body.
pub open spec fn frame_len(topic: Seq<u8>, body: Seq<u8>) -> int {
    2 + topic.len() as int + body.len() as int
}

/// The encoded bytes of a topic-bearing frame.
pub open spec fn spec_topic_frame(t: u8, topic: Seq<u8>, body: Seq<u8>) -> Seq<u8> {
    let l = frame_len(topic, body);
    seq![(l / 256) as u8, (l % 256) as u8, t, topic.len() as u8] + topic + body
}

/// The encoded bytes of a deregister frame: its payload is empty, so the
/// length field declares the type byte alone.
pub open spec fn spec_deregister_frame() -> Seq<u8> {
    seq![0u8, 1u8, DEREGISTER]
}

/// True of the type bytes whose payload carries `[topic_len][topic][body]`.
pub open spec fn is_topic_type(t: u8) -> bool {
    t == NOTIFICATION || t == SUBSCRIBE || t == SUBSCRIBE_ONCE || t == REMOVE || t == REMOVE_ONCE
}

/// True of every type byte the protocol knows.
pub open spec fn is_known_type(t: u8) -> bool {
    is_topic_type(t) || t == DEREGISTER || t == DEREGISTER_ONCE
}

pub(crate) fn push_bytes(v: &mut Vec<u8>, b: &[u8])
    ensures
        final(v)@ == old(v)@ + b@,
{
    let mut i: usize = 0;
    while i < b.len()
        invariant
            i <= b@.len(),
            v@ == old(v)@ + b@.take(i as int),
        decreases b@.len() - i,
    {
        v.push(b[i]);
        proof {
            assert(v@ =~= old(v)@ + b@.take(i + 1));
        }
        i = i + 1;
    }
    proof {
        assert(v@ =~= old(v)@ + b@);
    }
}

fn encode_topic_frame(t: u8, topic: &[u8], body: &[u8]) -> (r: Vec<u8>)
    requires
        topic@.len() <= 255,
        topic@.len() + body@.len() + 2 <= MAX_FRAME_LEN,
    ensures
        r@ == spec_topic_frame(t, topic@, body@),
{
    let l: usize = 2 + topic.len() + body.len();
    let mut v: Vec<u8> = Vec::new();
    v.push((l / 256) as u8);
    v.push((l % 256) as u8);
    v.push(t);
    v.push(topic.len() as u8);
    push_bytes(&mut v, topic);
    push_bytes(&mut v, body);
    proof {
        assert(v@ =~= spec_topic_frame(t, topic@, body@));
    }
    v
}

/// Encodes a `NOTIFICATION` frame carrying a topic and a body.
pub fn notify_message(topic: &[u8], content: &[u8]) -> (r: Vec<u8>)
    requires
        topic@.len() <= 255,
        topic@.len() + content@.len() + 2 <= MAX_FRAME_LEN,
    ensures
        r@ == spec_topic_frame(NOTIFICATION, topic@, content@),
{
    encode_topic_frame(NOTIFICATION, topic, content)
}

/// Encodes a `SUBSCRIBE` frame for a topic.
pub fn subscribe_message(topic: &[u8]) -> (r: Vec<u8>)
    requires
        topic@.len() <= 255,
    ensures
        r@ == spec_topic_frame(SUBSCRIBE, topic@, Seq::<u8>::empty()),
{
    let empty: [u8; 0] = [];
    encode_topic_frame(SUBSCRIBE, topic, &empty)
}

/// Encodes a `REMOVE` frame for a topic.
pub fn unsubscribe_message(topic: &[u8]) -> (r: Vec<u8>)
    requires
        topic@.len() <= 255,
    ensures
        r@ == spec_topic_frame(REMOVE, topic@, Seq::<u8>::empty()),
{
    let empty: [u8; 0] = [];
    encode_topic_frame(REMOVE, topic, &empty)
}

/// Encodes a `DEREGISTER` frame; it carries no payload.
pub fn deregister_message() -> (r: Vec<u8>)
    ensures
        r@ == spec_deregister_frame(),
{
    let mut v: Vec<u8> = Vec::new();
    v.push(0u8);
    v.push(1u8);
    v.push(DEREGISTER);
    proof {
        assert(v@ =~= spec_deregister_frame());
    }
    v
}

/// Why a frame was rejected.
#[derive(Clone, Copy, PartialEq, Eq, Structural, Debug)]
pub enum FrameError {
    /// The declared length is zero, exceeds the frame buffer, or does not
    /// match the number of bytes handed to the decoder.
    BadLength,
    /// The declared topic length does not fit in the declared payload.
    BadTopicLength,
    /// The type byte is none of the protocol's message types.
    UnknownType,
}

/// What decoding one complete frame yields: the type byte, the topic and the
/// body, or the reason the frame is rejected.
pub open spec fn spec_decode(b: Seq<u8>) -> Result<(u8, Seq<u8>, Seq<u8>), FrameError> {
    if b.len() < PREAMBLE_SZ || b.len() > MAX_STATIC_SZ || be_u16(b) + PREAMBLE_LEN_SZ != b.len() {
        Err(FrameError::BadLength)
    } else {
        let t = b[2];
        if !is_known_type(t) {
            Err(FrameError::UnknownType)
        } else if t == DEREGISTER || t == DEREGISTER_ONCE {
            Ok((t, Seq::<u8>::empty(), Seq::<u8>::empty()))
        } else {
            if b.len() < 4 {
                Err(FrameError::BadTopicLength)
            } else {
                let tl = b[3] as int;
                if 4 + tl > b.len() {
                    Err(FrameError::BadTopicLength)
                } else {
                    Ok((t, b.subrange(4, 4 + tl), b.subrange(4 + tl, b.len() as int)))
                }
            }
        }
    }
}

/// One decoded frame; the topic and body borrow from the frame buffer.
pub struct Frame<'a> {
    pub m_type: u8,
    pub topic: &'a [u8],
    pub body: &'a [u8],
}

/// Decodes one complete frame, length field included, from a borrowed slice.
pub fn decode_frame<'a>(frame: &'a [u8]) -> (r: Result<Frame<'a>, FrameError>)
    ensures
        match r {
            Ok(f) => spec_decode(frame@) == Ok::<(u8, Seq<u8>, Seq<u8>), FrameError>(
                (f.m_type, f.topic@, f.body@),
            ),
            Err(e) => spec_decode(frame@) == Err::<(u8, Seq<u8>, Seq<u8>), FrameError>(e),
        },
{
    if frame.len() < PREAMBLE_SZ || frame.len() > MAX_STATIC_SZ {
        return Err(FrameError::BadLength);
    }
    let l = u8_2_to_usize(frame);
    if l + PREAMBLE_LEN_SZ != frame.len() {
        return Err(FrameError::BadLength);
    }
    let t = frame[2];
    if t == DEREGISTER || t == DEREGISTER_ONCE {
        let empty = slice_subrange(frame, 0, 0);
        proof {
            assert(empty@ =~= Seq::<u8>::empty());
        }
        return Ok(Frame { m_type: t, topic: empty, body: empty });
    }
    if t == NOTIFICATION || t == SUBSCRIBE || t == SUBSCRIBE_ONCE || t == REMOVE || t
        == REMOVE_ONCE {
        if frame.len() < 4 {
            return Err(FrameError::BadTopicLength);
        }
        let tl = frame[3] as usize;
        if tl + 4 > frame.len() {
            return Err(FrameError::BadTopicLength);
        }
        let topic = slice_subrange(frame, 4, 4 + tl);
        let body = slice_subrange(frame, 4 + tl, frame.len());
        return Ok(Frame { m_type: t, topic, body });
    }
    Err(FrameError::UnknownType)
}

/// One complete inbound frame, together with the identity of the connection
/// it arrived on.  The dispatcher consumes it exactly once.
pub struct RawMessage {
    /// The frame's type byte, as captured by the reader.
    pub m_type: u8,
    /// The complete frame, length field included.
    pub bytes: Vec<u8>,
    /// The connection the frame arrived on.
    pub origin: SubscriberId,
}

impl RawMessage {
    /// A frame as the reader hands it over: the length field matches the
    /// byte count and the cached type byte matches the frame.
    pub open spec fn wf(self) -> bool {
        &&& PREAMBLE_SZ <= self.bytes@.len() <= MAX_STATIC_SZ
        &&& be_u16(self.bytes@) + PREAMBLE_LEN_SZ == self.bytes@.len()
        &&& self.m_type == self.bytes@[2]
    }
}

/// Round trip: decoding the encoding of any topic-bearing frame yields the
/// type, the topic and the body that were encoded.
pub proof fn lemma_round_trip_topic(t: u8, topic: Seq<u8>, body: Seq<u8>)
    requires
        is_topic_type(t),
        topic.len() <= 255,
        topic.len() + body.len() + 2 <= MAX_FRAME_LEN,
    ensures
        spec_decode(spec_topic_frame(t, topic, body)) == Ok::<(u8, Seq<u8>, Seq<u8>), FrameError>(
            (t, topic, body),
        ),
{
    let f = spec_topic_frame(t, topic, body);
    let l = frame_len(topic, body);
    assert(f.len() == 4 + topic.len() + body.len());
    vstd::arithmetic::div_mod::lemma_fundamental_div_mod(l, 256);
    assert(0 <= l / 256 < 256) by {
        vstd::arithmetic::div_mod::lemma_div_nonincreasing(l, 256);
        vstd::arithmetic::div_mod::lemma_div_pos_is_pos(l, 256);
    }
    assert(be_u16(f) == l);
    assert(f[2] == t);
    assert(f[3] == topic.len() as u8);
    assert(f.subrange(4, 4 + topic.len() as int) =~= topic);
    assert(f.subrange(4 + topic.len() as int, f.len() as int) =~= body);
}

/// Round trip for the payload-free deregister frame.
pub proof fn lemma_round_trip_deregister()
    ensures
        spec_decode(spec_deregister_frame()) == Ok::<(u8, Seq<u8>, Seq<u8>), FrameError>(
            (DEREGISTER, Seq::<u8>::empty(), Seq::<u8>::empty()),
        ),
{
}

} // verus!
