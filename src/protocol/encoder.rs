//! Encoder into a pre-allocated buffer and a decoder over a borrowed one.
use super::frame::{
    batch_frame, batch_inner, batch_inner_len, encoded_frame, frame_at, lemma_batch_inner_len,
    lemma_batch_inner_prefix_len, lemma_batch_inner_push, lemma_encoded_len,
};
use super::message::{
    crc32_fast, header_bytes, now_ns, read_header, MessageHeader, MessageType, HEADER_SIZE,
    MAX_PAYLOAD_SIZE,
};
use vstd::prelude::*;

verus! {

/// Writes frames one after another into a buffer allocated once.
pub struct Encoder {
    buffer: Vec<u8>,
    write_pos: usize,
}

/// The `(payload, sequence)` pairs of a batch as plain values.
pub open spec fn batch_view(messages: Seq<(&[u8], u64)>) -> Seq<(Seq<u8>, u64)> {
    messages.map_values(|m: (&[u8], u64)| (m.0@, m.1))
}

impl Encoder {
    /// The cursor lies within the buffer.
    pub closed spec fn wf(&self) -> bool {
        self.write_pos <= self.buffer@.len()
    }

    /// The bytes encoded since creation or the last reset.
    pub closed spec fn written(&self) -> Seq<u8> {
        self.buffer@.subrange(0, self.write_pos as int)
    }

    /// Size of the buffer.
    pub closed spec fn capacity(&self) -> nat {
        self.buffer@.len()
    }

    /// An encoder whose buffer holds `capacity` bytes.
    pub fn new(capacity: usize) -> (r: Self)
        ensures
            r.wf(),
            r.written() == Seq::<u8>::empty(),
            r.capacity() == capacity,
    {
        let buffer = vec![0u8; capacity];
        let r = Encoder { buffer, write_pos: 0 };
        assert(r.written() =~= Seq::<u8>::empty());
        r
    }

    /// Forgets what was encoded; the buffer is reused from its start.
    pub fn reset(&mut self)
        requires
            old(self).wf(),
        ensures
            final(self).wf(),
            final(self).written() == Seq::<u8>::empty(),
            final(self).capacity() == old(self).capacity(),
    {
        self.write_pos = 0;
        assert(self.written() =~= Seq::<u8>::empty());
    }

    /// The bytes encoded so far.
    pub fn as_bytes(&self) -> (r: &[u8])
        requires
            self.wf(),
        ensures
            r@ == self.written(),
    {
        vstd::slice::slice_subrange(self.buffer.as_slice(), 0, self.write_pos)
    }

    /// Room left in the buffer.
    pub fn available(&self) -> (r: usize)
        requires
            self.wf(),
        ensures
            r == self.capacity() - self.written().len(),
    {
        self.buffer.len() - self.write_pos
    }

    /// Appends `bytes` after what was written.
    fn put(&mut self, bytes: &[u8])
        requires
            old(self).wf(),
            old(self).written().len() + bytes@.len() <= old(self).capacity(),
        ensures
            final(self).wf(),
            final(self).written() == old(self).written() + bytes@,
            final(self).capacity() == old(self).capacity(),
    {
        let ghost start = self.written();
        let ghost w0 = self.write_pos as int;
        let cap = self.buffer.len();
        let mut i: usize = 0;
        while i < bytes.len()
            invariant
                self.wf(),
                i <= bytes@.len(),
                0 <= w0,
                self.write_pos == w0 + i,
                w0 + bytes@.len() <= cap,
                self.buffer@.len() == cap,
                cap == old(self).capacity(),
                self.buffer@.subrange(0, w0) == start,
                forall|k: int| 0 <= k < i ==> self.buffer@[w0 + k] == bytes@[k],
            decreases bytes@.len() - i,
        {
            let pos = self.write_pos;
            let ghost b0 = self.buffer@;
            let x = bytes[i];
            self.buffer.set(pos, x);
            assert(self.buffer@.subrange(0, w0) =~= b0.subrange(0, w0));
            self.write_pos = pos + 1;
            i = i + 1;
        }
        assert(self.written() =~= start + bytes@);
    }

    /// Encodes one frame stamped with `timestamp_ns`. Absent, and nothing
    /// written, when the payload exceeds `MAX_PAYLOAD_SIZE` or the frame
    /// does not fit in the room left; otherwise the frame is appended and
    /// returned.
    pub fn encode_at(&mut self, msg_type: MessageType, sequence: u64, payload: &[u8], timestamp_ns: u64) -> (r: Option<
        &[u8],
    >)
        requires
            old(self).wf(),
        ensures
            final(self).wf(),
            final(self).capacity() == old(self).capacity(),
            ({
                let fits = payload@.len() <= MAX_PAYLOAD_SIZE && old(self).written().len() + HEADER_SIZE
                    + payload@.len() <= old(self).capacity();
                let f = encoded_frame(msg_type.code(), sequence, timestamp_ns, payload@);
                &&& fits ==> (r matches Some(s) && s@ == f && final(self).written() == old(self).written() + f)
                &&& !fits ==> r is None && final(self).written() == old(self).written()
            }),
    {
        if payload.len() > MAX_PAYLOAD_SIZE {
            return None;
        }
        let total_size = HEADER_SIZE + payload.len();
        if total_size > self.buffer.len() - self.write_pos {
            return None;
        }
        let start = self.write_pos;
        let mut header = MessageHeader::new_at(msg_type, sequence, payload.len() as u32, timestamp_ns);
        header.checksum = crc32_fast(payload);
        let hb = header.as_bytes();
        let ghost w_old = self.written();
        assert(w_old.len() == start);
        self.put(hb.as_slice());
        self.put(payload);
        let ghost f = encoded_frame(msg_type.code(), sequence, timestamp_ns, payload@);
        assert(hb@ + payload@ =~= f);
        assert(self.written() =~= w_old + f);
        assert(self.written().len() == self.write_pos);
        assert(self.written().subrange(start as int, self.write_pos as int) =~= f);
        assert(self.buffer@.subrange(start as int, self.write_pos as int) =~= f);
        Some(vstd::slice::slice_subrange(self.buffer.as_slice(), start, self.write_pos))
    }

    /// Encodes one frame stamped with the current time; see `encode_at`.
    pub fn encode(&mut self, msg_type: MessageType, sequence: u64, payload: &[u8]) -> (r: Option<&[u8]>)
        requires
            old(self).wf(),
        ensures
            final(self).wf(),
            final(self).capacity() == old(self).capacity(),
            ({
                let fits = payload@.len() <= MAX_PAYLOAD_SIZE && old(self).written().len() + HEADER_SIZE
                    + payload@.len() <= old(self).capacity();
                &&& fits ==> (r matches Some(s) && exists|ts: u64|
                    s@ == encoded_frame(msg_type.code(), sequence, ts, payload@) && final(self).written()
                        == old(self).written() + s@)
                &&& !fits ==> r is None && final(self).written() == old(self).written()
            }),
    {
        let ts = now_ns();
        self.encode_at(msg_type, sequence, payload, ts)
    }

    /// Encodes a batch stamped with `timestamp_ns`: one Batch header whose
    /// sequence is the first message's, then each `(payload, sequence)` as
    /// a Publish frame. Absent, and nothing written, when the list is empty,
    /// when the inner frames together exceed `MAX_PAYLOAD_SIZE`, or when the
    /// batch does not fit in the room left.
    pub fn encode_batch_at(&mut self, messages: &[(&[u8], u64)], timestamp_ns: u64) -> (r: Option<&[u8]>)
        requires
            old(self).wf(),
        ensures
            final(self).wf(),
            final(self).capacity() == old(self).capacity(),
            ({
                let msgs = batch_view(messages@);
                let fits = msgs.len() > 0 && batch_inner_len(msgs) <= MAX_PAYLOAD_SIZE && old(self).written().len()
                    + HEADER_SIZE + batch_inner_len(msgs) <= old(self).capacity();
                &&& fits ==> (r matches Some(s) && s@ == batch_frame(msgs, timestamp_ns) && final(self).written()
                    == old(self).written() + s@)
                &&& !fits ==> r is None && final(self).written() == old(self).written()
            }),
    {
        let ghost msgs = batch_view(messages@);
        proof {
            lemma_batch_inner_len(msgs, timestamp_ns);
        }
        if messages.len() == 0 {
            return None;
        }
        let mut total: usize = 0;
        let mut i: usize = 0;
        while i < messages.len()
            invariant
                old(self).wf(),
                *self == *old(self),
                i <= messages@.len(),
                msgs == batch_view(messages@),
                batch_inner(msgs, timestamp_ns).len() == batch_inner_len(msgs),
                total == batch_inner(msgs.take(i as int), timestamp_ns).len(),
                total <= MAX_PAYLOAD_SIZE,
            decreases messages@.len() - i,
        {
            let len = messages[i].0.len();
            assert(len == msgs[i as int].0.len());
            proof {
                lemma_batch_inner_push(msgs.take(i as int), msgs[i as int], timestamp_ns);
                assert(msgs.take(i as int).push(msgs[i as int]) =~= msgs.take(i + 1));
                lemma_batch_inner_prefix_len(msgs, i + 1, timestamp_ns);
            }
            if len > MAX_PAYLOAD_SIZE - total {
                proof {
                    lemma_encoded_len(MessageType::Publish.code(), msgs[i as int].1, timestamp_ns, msgs[i as int].0);
                }
                return None;
            }
            proof {
                lemma_encoded_len(MessageType::Publish.code(), msgs[i as int].1, timestamp_ns, msgs[i as int].0);
            }
            if HEADER_SIZE > MAX_PAYLOAD_SIZE - total - len {
                return None;
            }
            total = total + HEADER_SIZE + len;
            i = i + 1;
        }
        assert(msgs.take(i as int) =~= msgs);
        if HEADER_SIZE + total > self.buffer.len() - self.write_pos {
            return None;
        }
        let start = self.write_pos;
        let ghost before = self.written();
        let batch_header = MessageHeader::new_at(MessageType::Batch, messages[0].1, total as u32, timestamp_ns);
        let hb = batch_header.as_bytes();
        self.put(hb.as_slice());
        let mut j: usize = 0;
        while j < messages.len()
            invariant
                j <= messages@.len(),
                msgs == batch_view(messages@),
                total == batch_inner(msgs, timestamp_ns).len(),
                self.capacity() == old(self).capacity(),
                before == old(self).written(),
                self.wf(),
                before.len() + HEADER_SIZE + total <= self.capacity(),
                self.written() == before + header_bytes(batch_header) + batch_inner(msgs.take(j as int), timestamp_ns),
            decreases messages@.len() - j,
        {
            let payload = messages[j].0;
            let sequence = messages[j].1;
            proof {
                lemma_batch_inner_push(msgs.take(j as int), msgs[j as int], timestamp_ns);
                assert(msgs.take(j as int).push(msgs[j as int]) =~= msgs.take(j + 1));
                lemma_batch_inner_prefix_len(msgs, j + 1, timestamp_ns);
                lemma_encoded_len(MessageType::Publish.code(), sequence, timestamp_ns, payload@);
                super::message::lemma_header_round_trip(batch_header);
            }
            let mut header = MessageHeader::new_at(MessageType::Publish, sequence, payload.len() as u32, timestamp_ns);
            header.checksum = crc32_fast(payload);
            let hb = header.as_bytes();
            self.put(hb.as_slice());
            self.put(payload);
            j = j + 1;
            assert(self.written() =~= before + header_bytes(batch_header) + batch_inner(
                msgs.take(j as int),
                timestamp_ns,
            ));
        }
        assert(msgs.take(j as int) =~= msgs);
        proof {
            let bf = batch_frame(msgs, timestamp_ns);
            assert(header_bytes(batch_header) + batch_inner(msgs, timestamp_ns) =~= bf);
            assert(self.written() =~= before + bf);
            assert(self.written().subrange(start as int, self.write_pos as int) =~= bf);
            assert(self.buffer@.subrange(start as int, self.write_pos as int) =~= bf);
        }
        Some(vstd::slice::slice_subrange(self.buffer.as_slice(), start, self.write_pos))
    }

    /// Encodes a batch stamped with the current time; see `encode_batch_at`.
    pub fn encode_batch(&mut self, messages: &[(&[u8], u64)]) -> (r: Option<&[u8]>)
        requires
            old(self).wf(),
        ensures
            final(self).wf(),
            final(self).capacity() == old(self).capacity(),
            ({
                let msgs = batch_view(messages@);
                let fits = msgs.len() > 0 && batch_inner_len(msgs) <= MAX_PAYLOAD_SIZE && old(self).written().len()
                    + HEADER_SIZE + batch_inner_len(msgs) <= old(self).capacity();
                &&& fits ==> (r matches Some(s) && exists|ts: u64|
                    s@ == batch_frame(msgs, ts) && final(self).written() == old(self).written() + s@)
                &&& !fits ==> r is None && final(self).written() == old(self).written()
            }),
    {
        let ts = now_ns();
        self.encode_batch_at(messages, ts)
    }
}

/// Reads frames one after another from a borrowed buffer.
pub struct Decoder<'a> {
    buffer: &'a [u8],
    read_pos: usize,
}

impl<'a> Decoder<'a> {
    #[verifier::type_invariant]
    spec fn inv(self) -> bool {
        self.read_pos <= self.buffer@.len()
    }

    /// The whole buffer being decoded.
    pub closed spec fn data(&self) -> Seq<u8> {
        self.buffer@
    }

    /// Where the next frame is read.
    pub closed spec fn pos(&self) -> int {
        self.read_pos as int
    }

    /// A decoder at the start of `buffer`.
    pub fn new(buffer: &'a [u8]) -> (r: Self)
        ensures
            r.data() == buffer@,
            r.pos() == 0,
    {
        Decoder { buffer, read_pos: 0 }
    }

    /// The frame at the cursor, if the bytes from there hold a complete and
    /// valid one (see `frame_at`). On success the cursor moves past it; on
    /// absence it stays where it was.
    pub fn next(&mut self) -> (r: Option<(MessageHeader, &'a [u8])>)
        ensures
            final(self).data() == old(self).data(),
            match r {
                Some((h, p)) => frame_at(old(self).data(), old(self).pos()) == Some((h, p@)) && final(self).pos()
                    == old(self).pos() + HEADER_SIZE + p@.len(),
                None => frame_at(old(self).data(), old(self).pos()) is None && final(self).pos() == old(self).pos(),
            },
    {
        proof {
            use_type_invariant(&*self);
        }
        let n = self.buffer.len();
        if HEADER_SIZE > n - self.read_pos {
            return None;
        }
        let header = read_header(self.buffer, self.read_pos);
        if !header.is_valid() {
            return None;
        }
        let payload_start = self.read_pos + HEADER_SIZE;
        if header.payload_len as usize > n - payload_start {
            return None;
        }
        let payload_end = payload_start + header.payload_len as usize;
        let payload = vstd::slice::slice_subrange(self.buffer, payload_start, payload_end);
        if header.checksum != 0 && crc32_fast(payload) != header.checksum {
            return None;
        }
        self.read_pos = payload_end;
        Some((header, payload))
    }

    /// Reads one frame and, when it is a Batch, an iterator over the frames
    /// in its payload. The cursor moves past any complete, valid frame, a
    /// non-Batch one included.
    pub fn decode_batch(&mut self) -> (r: Option<BatchIterator<'a>>)
        ensures
            final(self).data() == old(self).data(),
            match frame_at(old(self).data(), old(self).pos()) {
                Some((h, p)) => final(self).pos() == old(self).pos() + HEADER_SIZE + p.len() && if h.msg_type
                    == MessageType::Batch.code() {
                    r matches Some(it) && it.data() == p && it.pos() == 0
                } else {
                    r is None
                },
                None => r is None && final(self).pos() == old(self).pos(),
            },
    {
        match self.next() {
            Some((header, batch_payload)) => {
                if header.msg_type != MessageType::Batch.as_u8() {
                    return None;
                }
                Some(BatchIterator { decoder: Decoder::new(batch_payload) })
            },
            None => None,
        }
    }

    /// Where the next frame is read.
    pub fn data_pos(&self) -> (r: usize)
        ensures
            r == self.pos(),
    {
        self.read_pos
    }

    /// Bytes from the cursor to the end of the buffer.
    pub fn remaining(&self) -> (r: usize)
        ensures
            r == self.data().len() - self.pos(),
    {
        proof {
            use_type_invariant(self);
        }
        self.buffer.len() - self.read_pos
    }
}

/// Yields the inner frames of a batch one by one.
pub struct BatchIterator<'a> {
    decoder: Decoder<'a>,
}

impl<'a> BatchIterator<'a> {
    /// The batch payload.
    pub closed spec fn data(&self) -> Seq<u8> {
        self.decoder.data()
    }

    /// Where the next inner frame is read.
    pub closed spec fn pos(&self) -> int {
        self.decoder.pos()
    }

    /// The next inner frame, as `Decoder::next` reads it.
    pub fn next(&mut self) -> (r: Option<(MessageHeader, &'a [u8])>)
        ensures
            final(self).data() == old(self).data(),
            match r {
                Some((h, p)) => frame_at(old(self).data(), old(self).pos()) == Some((h, p@)) && final(self).pos()
                    == old(self).pos() + HEADER_SIZE + p@.len(),
                None => frame_at(old(self).data(), old(self).pos()) is None && final(self).pos() == old(self).pos(),
            },
    {
        self.decoder.next()
    }
}

} // verus!
