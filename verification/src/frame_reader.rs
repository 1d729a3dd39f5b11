//! The framed reader: assembles complete protocol frames from the byte
//! chunks a non-blocking stream delivers, however the stream happens to
//! split them.
//!
//! The caller owns the socket.  On every readiness notification it reads
//! whatever bytes are available, hands them to [`FrameReader::push_chunk`],
//! and then drains completed frames with [`FrameReader::poll_frame`].  A read
//! of zero bytes means the peer closed only when
//! [`FrameReader::has_partial_frame`] is false; mid-frame it means the rest
//! of the frame has not arrived yet and the caller must retry on the next
//! readiness notification.

use vstd::prelude::*;
use crate::protocol::{
    FrameError, RawMessage, SubscriberId, be_u16, frame_len, is_topic_type, spec_topic_frame,
    MAX_FRAME_LEN, PREAMBLE_LEN_SZ,
};

verus! {

/// True of the values the length field may declare: at least the type byte,
/// and the whole frame fits in the frame buffer.
pub open spec fn len_ok(l: int) -> bool {
    1 <= l && l <= MAX_FRAME_LEN
}

/// The pending bytes begin with a complete frame.
pub open spec fn frame_complete(b: Seq<u8>) -> bool {
    &&& b.len() >= PREAMBLE_LEN_SZ
    &&& len_ok(be_u16(b))
    &&& b.len() >= PREAMBLE_LEN_SZ + be_u16(b)
}

/// The pending bytes declare a length no frame may have; the connection is
/// the unit of failure and the caller drops it.
pub open spec fn frame_bad(b: Seq<u8>) -> bool {
    &&& b.len() >= PREAMBLE_LEN_SZ
    &&& !len_ok(be_u16(b))
}

/// Accumulates the bytes of one connection until they form complete frames.
///
/// Its abstract state is exactly the sequence of bytes received and not yet
/// consumed, so what the reader produces depends only on the bytes the
/// stream delivered, never on how they were chunked.
pub struct FrameReader {
    buf: Vec<u8>,
    origin: SubscriberId,
}

impl View for FrameReader {
    type V = Seq<u8>;

    closed spec fn view(&self) -> Seq<u8> {
        self.buf@
    }
}

impl FrameReader {
    /// The connection every frame this reader completes is attributed to.
    pub closed spec fn origin_id(self) -> SubscriberId {
        self.origin
    }

    /// A fresh reader for one connection: no bytes pending.
    pub fn new(origin: SubscriberId) -> (r: FrameReader)
        ensures
            r@ == Seq::<u8>::empty(),
            r.origin_id() == origin,
    {
        FrameReader { buf: Vec::new(), origin }
    }

    /// Accepts the bytes of one read, in order, after everything received
    /// before.
    pub fn push_chunk(&mut self, chunk: &[u8])
        ensures
            final(self)@ == old(self)@ + chunk@,
            final(self).origin_id() == old(self).origin_id(),
    {
        crate::protocol::push_bytes(&mut self.buf, chunk);
    }

    /// True while bytes of a partly delivered frame are pending.  A read of
    /// zero bytes must then be treated as "retry on the next readiness
    /// notification", not as the peer closing.
    pub fn has_partial_frame(&self) -> (r: bool)
        ensures
            r == (self@.len() > 0),
    {
        self.buf.len() > 0
    }

    /// Produces at most one complete frame from the pending bytes.
    ///
    /// `Ok(None)` means no complete frame is available yet; `Err` means the
    /// pending bytes declare a length no frame may have, and the caller
    /// drops the connection.  On `Ok(Some(m))`, `m` owns its buffer and the
    /// reader retains no part of it.
    pub fn poll_frame(&mut self) -> (r: Result<Option<RawMessage>, FrameError>)
        ensures
            final(self).origin_id() == old(self).origin_id(),
            frame_bad(old(self)@) ==> r == Err::<Option<RawMessage>, FrameError>(
                FrameError::BadLength,
            ) && final(self)@ == old(self)@,
            !frame_bad(old(self)@) && !frame_complete(old(self)@) ==> r == Ok::<
                Option<RawMessage>,
                FrameError,
            >(None) && final(self)@ == old(self)@,
            frame_complete(old(self)@) ==> (match r {
                Ok(Some(m)) => {
                    &&& m.wf()
                    &&& m.bytes@ == old(self)@.take(PREAMBLE_LEN_SZ + be_u16(old(self)@))
                    &&& m.m_type == old(self)@[2]
                    &&& m.origin == old(self).origin_id()
                    &&& final(self)@ == old(self)@.skip(PREAMBLE_LEN_SZ + be_u16(old(self)@))
                },
                _ => false,
            }),
    {
        if self.buf.len() < PREAMBLE_LEN_SZ {
            return Ok(None);
        }
        let l = u8_2_to_usize_of(&self.buf);
        if l == 0 || l > MAX_FRAME_LEN {
            return Err(FrameError::BadLength);
        }
        if self.buf.len() < l + PREAMBLE_LEN_SZ {
            return Ok(None);
        }
        let total: usize = l + PREAMBLE_LEN_SZ;
        let mut rest = self.buf.split_off(total);
        core::mem::swap(&mut self.buf, &mut rest);
        let frame = rest;
        let m_type = frame[2];
        proof {
            assert(frame@.subrange(0, 2) =~= old(self)@.subrange(0, 2));
            assert(be_u16(frame@) == be_u16(old(self)@));
        }
        Ok(Some(RawMessage { m_type, bytes: frame, origin: self.origin }))
    }
}

fn u8_2_to_usize_of(v: &Vec<u8>) -> (r: usize)
    requires
        v@.len() >= 2,
    ensures
        r == be_u16(v@),
        r <= 0xFFFF,
{
    crate::protocol::u8_2_to_usize(v.as_slice())
}

/// Framing is split-insensitive: a delivery that arrives in two chunks
/// leaves the reader with the same pending bytes as the whole delivery at
/// once, whatever was pending before.  Since every contract of
/// [`FrameReader`] speaks only of those pending bytes, the frames produced
/// are identical as well.
pub proof fn lemma_chunked_feed(pending: Seq<u8>, b: Seq<u8>, i: int)
    requires
        0 <= i <= b.len(),
    ensures
        (pending + b.take(i)) + b.skip(i) == pending + b,
{
    assert((pending + b.take(i)) + b.skip(i) =~= pending + b);
}

/// A reader whose pending bytes are exactly one encoded frame completes:
/// with [`FrameReader::poll_frame`]'s contract, polling yields a message
/// whose buffer is that whole frame and leaves the reader empty — so one
/// delivery produces exactly one message, identical however it was split.
pub proof fn lemma_one_frame_completes(t: u8, topic: Seq<u8>, body: Seq<u8>)
    requires
        is_topic_type(t),
        topic.len() <= 255,
        topic.len() + body.len() + 2 <= MAX_FRAME_LEN,
    ensures
        frame_complete(spec_topic_frame(t, topic, body)),
        !frame_bad(spec_topic_frame(t, topic, body)),
        spec_topic_frame(t, topic, body).take(
            PREAMBLE_LEN_SZ + be_u16(spec_topic_frame(t, topic, body)),
        ) == spec_topic_frame(t, topic, body),
        spec_topic_frame(t, topic, body).skip(
            PREAMBLE_LEN_SZ + be_u16(spec_topic_frame(t, topic, body)),
        ) == Seq::<u8>::empty(),
{
    let f = spec_topic_frame(t, topic, body);
    let l = frame_len(topic, body);
    vstd::arithmetic::div_mod::lemma_fundamental_div_mod(l, 256);
    assert(0 <= l / 256 < 256) by {
        vstd::arithmetic::div_mod::lemma_div_nonincreasing(l, 256);
        vstd::arithmetic::div_mod::lemma_div_pos_is_pos(l, 256);
    }
    assert(be_u16(f) == l);
    assert(f.len() == PREAMBLE_LEN_SZ + l);
    assert(f.take(PREAMBLE_LEN_SZ + l) =~= f);
    assert(f.skip(PREAMBLE_LEN_SZ + l) =~= Seq::<u8>::empty());
}

} // verus!
