//! Whole frames as byte sequences: what the encoder writes and what the
//! decoder accepts, with the round-trip laws that tie the two together.
use super::message::{
    checksum_of, fresh_header, header_bytes, lemma_header_round_trip, parse_header, MessageHeader, MessageType,
    HEADER_SIZE, MAX_PAYLOAD_SIZE,
};
use vstd::prelude::*;

verus! {

/// A header followed by its payload.
pub open spec fn frame_bytes(h: MessageHeader, payload: Seq<u8>) -> Seq<u8> {
    header_bytes(h) + payload
}

/// The header the encoder writes for a payload: checksum filled in.
pub open spec fn header_for(msg_type: u8, sequence: u64, timestamp_ns: u64, payload: Seq<u8>) -> MessageHeader {
    fresh_header(msg_type, sequence, timestamp_ns, payload.len() as u32, checksum_of(payload))
}

/// The bytes of one encoded frame.
pub open spec fn encoded_frame(msg_type: u8, sequence: u64, timestamp_ns: u64, payload: Seq<u8>) -> Seq<u8> {
    frame_bytes(header_for(msg_type, sequence, timestamp_ns, payload), payload)
}

/// The frame starting at `pos` in `s`, if `s` holds a complete, valid one
/// there: enough bytes for the header, a valid header, enough bytes for the
/// payload, and a matching checksum unless the checksum is zero.
pub open spec fn frame_at(s: Seq<u8>, pos: int) -> Option<(MessageHeader, Seq<u8>)> {
    if pos < 0 || pos + HEADER_SIZE > s.len() {
        None
    } else {
        let h = parse_header(s.subrange(pos, pos + HEADER_SIZE));
        let end = pos + HEADER_SIZE + h.payload_len;
        if !h.valid() || end > s.len() {
            None
        } else {
            let p = s.subrange(pos + HEADER_SIZE, end);
            if h.checksum != 0 && checksum_of(p) != h.checksum {
                None
            } else {
                Some((h, p))
            }
        }
    }
}

/// Every frame that successive decoding from `pos` yields, in order, up to
/// the first position that does not hold a complete, valid frame.
pub open spec fn frames_from(s: Seq<u8>, pos: int) -> Seq<(MessageHeader, Seq<u8>)>
    decreases s.len() - pos,
{
    match frame_at(s, pos) {
        Some(f) => if pos + HEADER_SIZE + f.1.len() <= s.len() {
            seq![f] + frames_from(s, pos + HEADER_SIZE + f.1.len())
        } else {
            seq![f]
        },
        None => Seq::empty(),
    }
}

/// The inner frames of a batch: each `(payload, sequence)` as a Publish
/// frame, one after the other.
pub open spec fn batch_inner(msgs: Seq<(Seq<u8>, u64)>, timestamp_ns: u64) -> Seq<u8>
    decreases msgs.len(),
{
    if msgs.len() == 0 {
        Seq::empty()
    } else {
        encoded_frame(MessageType::Publish.code(), msgs[0].1, timestamp_ns, msgs[0].0) + batch_inner(
            msgs.drop_first(),
            timestamp_ns,
        )
    }
}

/// Total length of the inner frames of a batch: a header and the payload
/// for each message.
pub open spec fn batch_inner_len(msgs: Seq<(Seq<u8>, u64)>) -> nat
    decreases msgs.len(),
{
    if msgs.len() == 0 {
        0
    } else {
        (HEADER_SIZE + msgs[0].0.len() + batch_inner_len(msgs.drop_first())) as nat
    }
}

/// An encoded frame is a header and the payload.
pub(crate) proof fn lemma_encoded_len(msg_type: u8, sequence: u64, timestamp_ns: u64, payload: Seq<u8>)
    ensures
        encoded_frame(msg_type, sequence, timestamp_ns, payload).len() == HEADER_SIZE + payload.len(),
{
    lemma_header_round_trip(header_for(msg_type, sequence, timestamp_ns, payload));
}

/// The inner bytes of a batch have the length `batch_inner_len` gives.
pub(crate) proof fn lemma_batch_inner_len(msgs: Seq<(Seq<u8>, u64)>, timestamp_ns: u64)
    ensures
        batch_inner(msgs, timestamp_ns).len() == batch_inner_len(msgs),
    decreases msgs.len(),
{
    if msgs.len() > 0 {
        lemma_encoded_len(MessageType::Publish.code(), msgs[0].1, timestamp_ns, msgs[0].0);
        lemma_batch_inner_len(msgs.drop_first(), timestamp_ns);
    }
}

/// The bytes of an encoded batch: an outer Batch header carrying the first
/// sequence and no checksum, then the inner frames.
pub open spec fn batch_frame(msgs: Seq<(Seq<u8>, u64)>, timestamp_ns: u64) -> Seq<u8> {
    let inner = batch_inner(msgs, timestamp_ns);
    frame_bytes(fresh_header(MessageType::Batch.code(), msgs[0].1, timestamp_ns, inner.len() as u32, 0), inner)
}

/// What decoding the inner frames of a batch yields for each message.
pub open spec fn decoded_batch(msgs: Seq<(Seq<u8>, u64)>, timestamp_ns: u64) -> Seq<(MessageHeader, Seq<u8>)> {
    msgs.map_values(
        |m: (Seq<u8>, u64)| (header_for(MessageType::Publish.code(), m.1, timestamp_ns, m.0), m.0),
    )
}

/// Appending one message to a batch appends its frame to the inner bytes.
pub(crate) proof fn lemma_batch_inner_push(msgs: Seq<(Seq<u8>, u64)>, m: (Seq<u8>, u64), timestamp_ns: u64)
    ensures
        batch_inner(msgs.push(m), timestamp_ns) == batch_inner(msgs, timestamp_ns) + encoded_frame(
            MessageType::Publish.code(),
            m.1,
            timestamp_ns,
            m.0,
        ),
    decreases msgs.len(),
{
    let e = encoded_frame(MessageType::Publish.code(), m.1, timestamp_ns, m.0);
    if msgs.len() == 0 {
        assert(msgs.push(m).drop_first() =~= Seq::<(Seq<u8>, u64)>::empty());
        assert(msgs.push(m)[0] == m);
        assert(batch_inner(msgs.push(m).drop_first(), timestamp_ns) == Seq::<u8>::empty());
        assert(e + Seq::<u8>::empty() =~= e);
        assert(batch_inner(msgs, timestamp_ns) + e =~= e);
    } else {
        lemma_batch_inner_push(msgs.drop_first(), m, timestamp_ns);
        assert(msgs.push(m).drop_first() =~= msgs.drop_first().push(m));
        let e0 = encoded_frame(MessageType::Publish.code(), msgs[0].1, timestamp_ns, msgs[0].0);
        assert(e0 + (batch_inner(msgs.drop_first(), timestamp_ns) + e) =~= (e0 + batch_inner(
            msgs.drop_first(),
            timestamp_ns,
        )) + e);
    }
}

/// The inner bytes of a prefix of a batch are no longer than those of the batch.
pub(crate) proof fn lemma_batch_inner_prefix_len(msgs: Seq<(Seq<u8>, u64)>, i: int, timestamp_ns: u64)
    requires
        0 <= i <= msgs.len(),
    ensures
        batch_inner(msgs.take(i), timestamp_ns).len() <= batch_inner(msgs, timestamp_ns).len(),
    decreases msgs.len(),
{
    if i == msgs.len() {
        assert(msgs.take(i) =~= msgs);
    } else {
        lemma_batch_inner_prefix_len(msgs.drop_last(), i, timestamp_ns);
        assert(msgs.drop_last().take(i) =~= msgs.take(i));
        lemma_batch_inner_push(msgs.drop_last(), msgs.last(), timestamp_ns);
        assert(msgs.drop_last().push(msgs.last()) =~= msgs);
    }
}

/// An encoded frame is found again wherever it sits in a longer sequence.
proof fn lemma_frame_at_encoded(
    pre: Seq<u8>,
    post: Seq<u8>,
    msg_type: u8,
    sequence: u64,
    timestamp_ns: u64,
    payload: Seq<u8>,
)
    requires
        payload.len() <= MAX_PAYLOAD_SIZE,
    ensures
        frame_at(pre + encoded_frame(msg_type, sequence, timestamp_ns, payload) + post, pre.len() as int)
            == Some((header_for(msg_type, sequence, timestamp_ns, payload), payload)),
{
    let h = header_for(msg_type, sequence, timestamp_ns, payload);
    let s = pre + encoded_frame(msg_type, sequence, timestamp_ns, payload) + post;
    lemma_header_round_trip(h);
    let p = pre.len() as int;
    assert(s.subrange(p, p + HEADER_SIZE) =~= header_bytes(h));
    assert(s.subrange(p + HEADER_SIZE, p + HEADER_SIZE + payload.len()) =~= payload);
}

/// Round trip of one frame: decoding, at its start, the bytes that encoding
/// `(msg_type, sequence, payload)` produced gives back the same type,
/// sequence and payload, whatever bytes come before or after it.
pub proof fn lemma_encode_decode(
    pre: Seq<u8>,
    post: Seq<u8>,
    msg_type: MessageType,
    sequence: u64,
    timestamp_ns: u64,
    payload: Seq<u8>,
)
    requires
        payload.len() <= MAX_PAYLOAD_SIZE,
    ensures
        frame_at(pre + encoded_frame(msg_type.code(), sequence, timestamp_ns, payload) + post, pre.len() as int)
            matches Some((h, p)) && h.msg_type == msg_type.code() && h.sequence == sequence && p == payload,
{
    lemma_frame_at_encoded(pre, post, msg_type.code(), sequence, timestamp_ns, payload);
}

/// Decoding depends only on the bytes from the decoding position on.
proof fn lemma_frame_at_shift(pre: Seq<u8>, s: Seq<u8>, pos: int)
    requires
        0 <= pos,
    ensures
        frame_at(pre + s, pre.len() + pos) == frame_at(s, pos),
{
    let t = pre + s;
    let q = pre.len() + pos;
    if pos + HEADER_SIZE <= s.len() {
        assert(t.subrange(q, q + HEADER_SIZE) =~= s.subrange(pos, pos + HEADER_SIZE));
        let h = parse_header(s.subrange(pos, pos + HEADER_SIZE));
        let end = pos + HEADER_SIZE + h.payload_len;
        if end <= s.len() {
            assert(t.subrange(q + HEADER_SIZE, q + HEADER_SIZE + h.payload_len) =~= s.subrange(
                pos + HEADER_SIZE,
                end,
            ));
        }
    }
}

/// Framing depends only on the bytes from the framing position on.
pub(crate) proof fn lemma_frames_from_shift(pre: Seq<u8>, s: Seq<u8>, pos: int)
    requires
        0 <= pos,
    ensures
        frames_from(pre + s, pre.len() + pos) == frames_from(s, pos),
    decreases s.len() - pos,
{
    lemma_frame_at_shift(pre, s, pos);
    if let Some(f) = frame_at(s, pos) {
        if pos + HEADER_SIZE + f.1.len() <= s.len() {
            lemma_frames_from_shift(pre, s, pos + HEADER_SIZE + f.1.len());
        }
    }
}

/// Decoding the inner bytes of a batch from its start yields every message,
/// in order, each as a Publish frame with its own sequence and payload.
pub proof fn lemma_batch_inner_decodes(msgs: Seq<(Seq<u8>, u64)>, timestamp_ns: u64)
    requires
        batch_inner(msgs, timestamp_ns).len() <= MAX_PAYLOAD_SIZE,
    ensures
        frames_from(batch_inner(msgs, timestamp_ns), 0) == decoded_batch(msgs, timestamp_ns),
    decreases msgs.len(),
{
    let inner = batch_inner(msgs, timestamp_ns);
    if msgs.len() == 0 {
        assert(frames_from(inner, 0) =~= decoded_batch(msgs, timestamp_ns));
    } else {
        let m = msgs[0];
        let e = encoded_frame(MessageType::Publish.code(), m.1, timestamp_ns, m.0);
        let rest = batch_inner(msgs.drop_first(), timestamp_ns);
        assert(inner == e + rest);
        assert(m.0.len() <= MAX_PAYLOAD_SIZE) by {
            lemma_header_round_trip(header_for(MessageType::Publish.code(), m.1, timestamp_ns, m.0));
        }
        lemma_frame_at_encoded(Seq::empty(), rest, MessageType::Publish.code(), m.1, timestamp_ns, m.0);
        assert(Seq::<u8>::empty() + e + rest =~= inner);
        lemma_header_round_trip(header_for(MessageType::Publish.code(), m.1, timestamp_ns, m.0));
        lemma_batch_inner_decodes(msgs.drop_first(), timestamp_ns);
        lemma_frames_from_shift(e, rest, 0);
        assert(frames_from(inner, 0) =~= decoded_batch(msgs, timestamp_ns));
    }
}

/// Round trip of a batch: the encoded batch decodes, at its start, as one
/// Batch frame whose sequence is the first message's, and decoding its
/// payload yields exactly the messages in order.
pub proof fn lemma_batch_round_trip(
    pre: Seq<u8>,
    post: Seq<u8>,
    msgs: Seq<(Seq<u8>, u64)>,
    timestamp_ns: u64,
)
    requires
        msgs.len() > 0,
        batch_inner(msgs, timestamp_ns).len() <= MAX_PAYLOAD_SIZE,
    ensures
        frame_at(pre + batch_frame(msgs, timestamp_ns) + post, pre.len() as int) matches Some((h, p)) && h.msg_type
            == MessageType::Batch.code() && h.sequence == msgs[0].1 && p == batch_inner(msgs, timestamp_ns)
            && frames_from(p, 0) == decoded_batch(msgs, timestamp_ns),
{
    let inner = batch_inner(msgs, timestamp_ns);
    let h = fresh_header(MessageType::Batch.code(), msgs[0].1, timestamp_ns, inner.len() as u32, 0);
    let s = pre + batch_frame(msgs, timestamp_ns) + post;
    lemma_header_round_trip(h);
    let q = pre.len() as int;
    assert(s.subrange(q, q + HEADER_SIZE) =~= header_bytes(h));
    assert(s.subrange(q + HEADER_SIZE, q + HEADER_SIZE + inner.len()) =~= inner);
    lemma_batch_inner_decodes(msgs, timestamp_ns);
}

} // verus!
