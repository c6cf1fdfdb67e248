//! Per-connection state of the broker: the inbound byte buffer and its
//! framing, the role inferred from what the peer sends, and the bounded
//! queue of outbound bytes. The socket itself belongs to the caller, which
//! hands in what it read and takes out what it should write.
use crate::protocol::frame::{frame_at, frame_bytes, frames_from, lemma_frames_from_shift};
use crate::protocol::message::{lemma_parse_round_trip, parse_header, MessageHeader, MessageType, HEADER_SIZE};
use crate::protocol::Decoder;
use crate::stats::{wrap64, ServerStats};
use crate::storage::{write_all_effect, MmapStorage};
use vstd::prelude::*;

verus! {

/// Size of the inbound buffer of a connection.
pub const READ_BUFFER_SIZE: usize = 131072;

/// Largest number of outbound bytes a connection may hold before frames
/// for it are dropped.
pub const MAX_PENDING_BYTES: usize = 1048576;

/// What a peer has shown itself to be.
#[derive(Debug, Clone, Copy, PartialEq, Eq, Structural)]
pub enum ClientRole {
    /// Has sent neither a Publish nor a Subscribe frame yet.
    Unknown,
    /// Has published.
    Publisher,
    /// Has asked to receive frames.
    Subscriber,
}

/// Total length of a run of frames.
pub open spec fn frames_len(fs: Seq<(MessageHeader, Seq<u8>)>) -> nat
    decreases fs.len(),
{
    if fs.len() == 0 {
        0
    } else {
        (frames_len(fs.drop_last()) + HEADER_SIZE + fs.last().1.len()) as nat
    }
}

/// The wire bytes of the Publish frames of a run, in order.
pub open spec fn publish_frames(fs: Seq<(MessageHeader, Seq<u8>)>) -> Seq<Seq<u8>>
    decreases fs.len(),
{
    if fs.len() == 0 {
        Seq::empty()
    } else {
        let prev = publish_frames(fs.drop_last());
        if fs.last().0.msg_type == MessageType::Publish.code() {
            prev.push(frame_bytes(fs.last().0, fs.last().1))
        } else {
            prev
        }
    }
}

/// The role after one frame: the first Publish makes an unknown peer a
/// publisher, a Subscribe always makes it a subscriber, anything else
/// leaves it as it was.
pub open spec fn next_role(role: ClientRole, msg_type: u8) -> ClientRole {
    if msg_type == MessageType::Subscribe.code() {
        ClientRole::Subscriber
    } else if msg_type == MessageType::Publish.code() && role == ClientRole::Unknown {
        ClientRole::Publisher
    } else {
        role
    }
}

/// The role after a run of frames.
pub open spec fn role_after(role: ClientRole, fs: Seq<(MessageHeader, Seq<u8>)>) -> ClientRole
    decreases fs.len(),
{
    if fs.len() == 0 {
        role
    } else {
        next_role(role_after(role, fs.drop_last()), fs.last().0.msg_type)
    }
}

/// The counters after the frames `fs` are decoded: each counts as one
/// message received, with its bytes.
pub open spec fn count_received(st: ServerStats, fs: Seq<(MessageHeader, Seq<u8>)>) -> ServerStats {
    ServerStats {
        messages_received: wrap64(st.messages_received + fs.len()) as u64,
        bytes_received: wrap64(st.bytes_received + frames_len(fs)) as u64,
        ..st
    }
}

/// Whether a connection holding `pending` outbound bytes takes `len` more:
/// always when nothing is pending, otherwise only within the bound.
pub open spec fn accepts(pending: nat, len: nat) -> bool {
    pending == 0 || pending + len <= MAX_PENDING_BYTES
}

/// One frame is a header and its payload long.
proof fn lemma_frames_len_single(f: (MessageHeader, Seq<u8>))
    ensures
        frames_len(seq![f]) == HEADER_SIZE + f.1.len(),
{
    let one = seq![f];
    assert(one.drop_last() =~= Seq::<(MessageHeader, Seq<u8>)>::empty());
    assert(one.last() == f);
    assert(frames_len(Seq::<(MessageHeader, Seq<u8>)>::empty()) == 0);
}

/// The length of two runs of frames is the sum of their lengths.
proof fn lemma_frames_len_concat(a: Seq<(MessageHeader, Seq<u8>)>, b: Seq<(MessageHeader, Seq<u8>)>)
    ensures
        frames_len(a + b) == frames_len(a) + frames_len(b),
    decreases b.len(),
{
    if b.len() > 0 {
        lemma_frames_len_concat(a, b.drop_last());
        assert((a + b).drop_last() =~= a + b.drop_last());
    } else {
        assert(a + b =~= a);
    }
}

/// The Publish frames of two runs are those of each run, in order.
proof fn lemma_publish_frames_concat(a: Seq<(MessageHeader, Seq<u8>)>, b: Seq<(MessageHeader, Seq<u8>)>)
    ensures
        publish_frames(a + b) == publish_frames(a) + publish_frames(b),
    decreases b.len(),
{
    if b.len() > 0 {
        lemma_publish_frames_concat(a, b.drop_last());
        assert((a + b).drop_last() =~= a + b.drop_last());
        let f = b.last();
        if f.0.msg_type == MessageType::Publish.code() {
            assert((publish_frames(a) + publish_frames(b.drop_last())).push(frame_bytes(f.0, f.1)) =~= publish_frames(
                a,
            ) + publish_frames(b.drop_last()).push(frame_bytes(f.0, f.1)));
        }
    } else {
        assert(a + b =~= a);
        assert(publish_frames(a) + Seq::<Seq<u8>>::empty() =~= publish_frames(a));
    }
}

/// A complete frame stays the same frame when more bytes follow.
proof fn lemma_frame_at_extend(s: Seq<u8>, t: Seq<u8>, pos: int)
    requires
        frame_at(s, pos) is Some,
    ensures
        frame_at(s + t, pos) == frame_at(s, pos),
{
    let h = parse_header(s.subrange(pos, pos + HEADER_SIZE));
    assert((s + t).subrange(pos, pos + HEADER_SIZE) =~= s.subrange(pos, pos + HEADER_SIZE));
    assert((s + t).subrange(pos + HEADER_SIZE, pos + HEADER_SIZE + h.payload_len) =~= s.subrange(
        pos + HEADER_SIZE,
        pos + HEADER_SIZE + h.payload_len,
    ));
}

/// Framing `s + t` from `pos` first yields every frame framing `s` alone
/// yields from there, then continues where those end.
proof fn lemma_frames_from_extend(s: Seq<u8>, t: Seq<u8>, pos: int)
    requires
        0 <= pos,
    ensures
        frames_from(s + t, pos) == frames_from(s, pos) + frames_from(s + t, pos + frames_len(frames_from(s, pos))),
    decreases s.len() - pos,
{
    match frame_at(s, pos) {
        Some(f) => {
            lemma_frame_at_extend(s, t, pos);
            let next = pos + HEADER_SIZE + f.1.len();
            lemma_frames_from_extend(s, t, next);
            let rest = frames_from(s, next);
            assert(frames_from(s, pos) == seq![f] + rest);
            assert(frames_from(s + t, pos) == seq![f] + frames_from(s + t, next));
            lemma_frames_len_concat(seq![f], rest);
            lemma_frames_len_single(f);
            assert(seq![f] + (rest + frames_from(s + t, next + frames_len(rest))) =~= (seq![f] + rest)
                + frames_from(s + t, next + frames_len(rest)));
        },
        None => {
            assert(frames_from(s, pos) == Seq::<(MessageHeader, Seq<u8>)>::empty());
            assert(Seq::<(MessageHeader, Seq<u8>)>::empty() + frames_from(s + t, pos) =~= frames_from(s + t, pos));
        },
    }
}

/// What stays in an inbound buffer holding `s` once its frames are taken out.
pub open spec fn unframed(s: Seq<u8>) -> Seq<u8> {
    s.subrange(frames_len(frames_from(s, 0)) as int, s.len() as int)
}

/// Framing in pieces: taking the frames out of `s`, then appending `t` to
/// what stayed and taking the frames out again, yields the same Publish
/// frames, in the same order, as framing `s + t` at once. So however a
/// peer's bytes are split across reads, the frames it published are
/// fanned out in the order it sent them, each once.
pub proof fn lemma_framing_in_pieces(s: Seq<u8>, t: Seq<u8>)
    ensures
        publish_frames(frames_from(s + t, 0)) == publish_frames(frames_from(s, 0)) + publish_frames(
            frames_from(unframed(s) + t, 0),
        ),
{
    let fs = frames_from(s, 0);
    let l = frames_len(fs);
    lemma_frames_from_extend(s, t, 0);
    lemma_frames_len_bound(s, 0);
    let pre = s.subrange(0, l as int);
    assert(s + t =~= pre + (unframed(s) + t));
    lemma_frames_from_shift(pre, unframed(s) + t, 0);
    assert(pre.len() == l);
    lemma_publish_frames_concat(fs, frames_from(unframed(s) + t, 0));
}

/// The frames taken out of `s` from `pos` lie within `s`.
proof fn lemma_frames_len_bound(s: Seq<u8>, pos: int)
    requires
        0 <= pos <= s.len(),
    ensures
        pos + frames_len(frames_from(s, pos)) <= s.len(),
    decreases s.len() - pos,
{
    match frame_at(s, pos) {
        Some(f) => {
            let next = pos + HEADER_SIZE + f.1.len();
            assert(next <= s.len());
            lemma_frames_len_bound(s, next);
            let rest = frames_from(s, next);
            assert(frames_from(s, pos) == seq![f] + rest);
            lemma_frames_len_concat(seq![f], rest);
            lemma_frames_len_single(f);
        },
        None => {
            assert(frames_from(s, pos) == Seq::<(MessageHeader, Seq<u8>)>::empty());
        },
    }
}

/// One more frame decoded at `pos` extends the frames seen so far.
proof fn lemma_scan_step(
    s: Seq<u8>,
    pos: int,
    seen: Seq<(MessageHeader, Seq<u8>)>,
    f: (MessageHeader, Seq<u8>),
)
    requires
        0 <= pos,
        frame_at(s, pos) == Some(f),
        frames_from(s, 0) == seen + frames_from(s, pos),
    ensures
        pos + HEADER_SIZE + f.1.len() <= s.len(),
        frames_from(s, 0) == seen.push(f) + frames_from(s, pos + HEADER_SIZE + f.1.len()),
        seen.push(f).drop_last() == seen,
        seen.push(f).last() == f,
{
    let rest = frames_from(s, pos + HEADER_SIZE + f.1.len());
    assert(frames_from(s, pos) == seq![f] + rest);
    assert(seen + (seq![f] + rest) =~= seen.push(f) + rest);
    assert(seen.push(f).drop_last() =~= seen);
}

/// The bytes of a frame decoded at `pos` are its header and payload.
proof fn lemma_frame_bytes_at(s: Seq<u8>, pos: int, f: (MessageHeader, Seq<u8>))
    requires
        0 <= pos,
        frame_at(s, pos) == Some(f),
    ensures
        s.subrange(pos, pos + HEADER_SIZE + f.1.len()) == frame_bytes(f.0, f.1),
{
    lemma_parse_round_trip(s.subrange(pos, pos + HEADER_SIZE));
    assert(s.subrange(pos, pos + HEADER_SIZE + f.1.len()) =~= frame_bytes(f.0, f.1));
}

/// One peer of the broker, without its socket.
pub struct Connection {
    role: ClientRole,
    read_buffer: Vec<u8>,
    write_buffer: Vec<u8>,
    messages_sent: u64,
    messages_received: u64,
}

impl Connection {
    /// The inbound bytes not yet framed.
    pub closed spec fn inbound(&self) -> Seq<u8> {
        self.read_buffer@
    }

    /// The outbound bytes not yet written to the socket.
    pub closed spec fn outbound(&self) -> Seq<u8> {
        self.write_buffer@
    }

    /// The inferred role.
    pub closed spec fn role_spec(&self) -> ClientRole {
        self.role
    }

    /// Frames decoded from this peer.
    pub closed spec fn received_count(&self) -> u64 {
        self.messages_received
    }

    /// Times the outbound bytes were drained completely.
    pub closed spec fn sent_count(&self) -> u64 {
        self.messages_sent
    }

    /// The inbound buffer stays within its size.
    pub open spec fn wf(&self) -> bool {
        self.inbound().len() <= READ_BUFFER_SIZE
    }

    /// A connection of unknown role with empty buffers.
    pub fn new() -> (r: Self)
        ensures
            r.wf(),
            r.inbound() == Seq::<u8>::empty(),
            r.outbound() == Seq::<u8>::empty(),
            r.role_spec() == ClientRole::Unknown,
            r.received_count() == 0,
    {
        Connection {
            role: ClientRole::Unknown,
            read_buffer: Vec::new(),
            write_buffer: Vec::new(),
            messages_sent: 0,
            messages_received: 0,
        }
    }

    /// The inferred role.
    pub fn role(&self) -> (r: ClientRole)
        ensures
            r == self.role_spec(),
    {
        self.role
    }

    /// Room left in the inbound buffer.
    pub fn read_space(&self) -> (r: usize)
        requires
            self.wf(),
        ensures
            r == READ_BUFFER_SIZE - self.inbound().len(),
    {
        READ_BUFFER_SIZE - self.read_buffer.len()
    }

    /// Appends bytes read from the socket to the inbound buffer.
    pub fn fill_read_buffer(&mut self, data: &[u8])
        requires
            old(self).wf(),
            old(self).inbound().len() + data@.len() <= READ_BUFFER_SIZE,
        ensures
            final(self).wf(),
            final(self).inbound() == old(self).inbound() + data@,
            final(self).outbound() == old(self).outbound(),
            final(self).role_spec() == old(self).role_spec(),
            final(self).received_count() == old(self).received_count(),
    {
        let mut i: usize = 0;
        while i < data.len()
            invariant
                i <= data@.len(),
                self.read_buffer@ == old(self).read_buffer@ + data@.subrange(0, i as int),
                self.write_buffer == old(self).write_buffer,
                self.role == old(self).role,
                self.messages_received == old(self).messages_received,
            decreases data@.len() - i,
        {
            self.read_buffer.push(data[i]);
            i = i + 1;
            assert(self.read_buffer@ =~= old(self).read_buffer@ + data@.subrange(0, i as int));
        }
        assert(data@.subrange(0, i as int) =~= data@);
    }

    /// The inbound bytes not yet framed.
    pub fn readable(&self) -> (r: &[u8])
        ensures
            r@ == self.inbound(),
    {
        self.read_buffer.as_slice()
    }

    /// Drops the first `n` inbound bytes, or all of them when fewer are held.
    pub fn consume(&mut self, n: usize)
        requires
            old(self).wf(),
        ensures
            final(self).wf(),
            final(self).inbound() == old(self).inbound().subrange(
                if n < old(self).inbound().len() {
                    n as int
                } else {
                    old(self).inbound().len() as int
                },
                old(self).inbound().len() as int,
            ),
            final(self).outbound() == old(self).outbound(),
            final(self).role_spec() == old(self).role_spec(),
            final(self).received_count() == old(self).received_count(),
    {
        let len = self.read_buffer.len();
        let k = if n < len {
            n
        } else {
            len
        };
        let rest = vstd::slice::slice_to_vec(vstd::slice::slice_subrange(self.read_buffer.as_slice(), k, len));
        self.read_buffer = rest;
    }

    /// Frames every complete, valid frame at the front of the inbound
    /// buffer, in order, up to the first position that does not hold one.
    /// Each frame counts as received; a Publish frame is appended whole to
    /// `storage` (best effort: a full ring skips it) and returned for
    /// fanning out; the role follows `next_role`. The framed bytes leave the
    /// inbound buffer and a partial frame stays for the next read.
    pub fn process_messages(&mut self, storage: &mut MmapStorage, stats: &mut ServerStats) -> (r: Vec<Vec<u8>>)
        requires
            old(self).wf(),
            old(storage).wf(),
        ensures
            ({
                let fs = frames_from(old(self).inbound(), 0);
                &&& final(self).wf()
                &&& final(self).inbound() == unframed(old(self).inbound())
                &&& r@.len() == publish_frames(fs).len()
                &&& forall|i: int| 0 <= i < r@.len() ==> #[trigger] r@[i]@ == publish_frames(fs)[i]
                &&& final(self).role_spec() == role_after(old(self).role_spec(), fs)
                &&& final(self).received_count() == (old(self).received_count() + fs.len()) % 0x1_0000_0000_0000_0000
                &&& final(self).outbound() == old(self).outbound()
                &&& final(storage).wf()
                &&& final(storage).capacity() == old(storage).capacity()
                &&& final(storage).read_pos() == old(storage).read_pos()
                &&& final(storage).bytes() == write_all_effect(
                    old(storage).bytes(),
                    old(storage).capacity(),
                    publish_frames(fs),
                )
                &&& *final(stats) == count_received(*old(stats), fs)
            }),
    {
        let ghost s = self.read_buffer@;
        let mut outgoing: Vec<Vec<u8>> = Vec::new();
        let mut role = self.role;
        let mut received = self.messages_received;
        let consumed: usize;
        {
            let buf = self.read_buffer.as_slice();
            let mut decoder = Decoder::new(buf);
            let ghost mut seen: Seq<(MessageHeader, Seq<u8>)> = Seq::empty();
            proof {
                crate::stats::lemma_wrap_self(old(self).messages_received);
                crate::stats::lemma_wrap_self(old(stats).messages_received);
                crate::stats::lemma_wrap_self(old(stats).bytes_received);
            }
            loop
                invariant
                    buf@ == s,
                    s.len() <= READ_BUFFER_SIZE,
                    decoder.data() == s,
                    decoder.pos() == frames_len(seen),
                    0 <= decoder.pos() <= s.len(),
                    frames_from(s, 0) == seen + frames_from(s, decoder.pos()),
                    outgoing@.len() == publish_frames(seen).len(),
                    forall|i: int| 0 <= i < outgoing@.len() ==> #[trigger] outgoing@[i]@ == publish_frames(seen)[i],
                    role == role_after(old(self).role, seen),
                    received == (old(self).messages_received + seen.len()) % 0x1_0000_0000_0000_0000,
                    storage.wf(),
                    storage.capacity() == old(storage).capacity(),
                    storage.read_pos() == old(storage).read_pos(),
                    storage.bytes() == write_all_effect(
                        old(storage).bytes(),
                        old(storage).capacity(),
                        publish_frames(seen),
                    ),
                    *stats == count_received(*old(stats), seen),
                ensures
                    seen == frames_from(s, 0),
                decreases s.len() - decoder.pos(),
            {
                let ghost pos = decoder.pos();
                let start = decoder.data_pos();
                match decoder.next() {
                    Some((header, payload)) => {
                        let size = HEADER_SIZE + payload.len();
                        let full_msg = vstd::slice::slice_to_vec(
                            vstd::slice::slice_subrange(buf, start, start + size),
                        );
                        proof {
                            let f = (header, payload@);
                            lemma_scan_step(s, pos, seen, f);
                            lemma_frame_bytes_at(s, pos, f);
                            assert(full_msg@ == frame_bytes(header, payload@));
                            crate::stats::lemma_wrap_step(old(self).messages_received as int + seen.len(), 1);
                            crate::stats::lemma_wrap_step(old(stats).messages_received as int + seen.len(), 1);
                            crate::stats::lemma_wrap_step(old(stats).bytes_received as int + frames_len(seen), size as int);
                            seen = seen.push(f);
                        }
                        received = received.wrapping_add(1);
                        stats.record_received(size as u64);
                        if header.msg_type == MessageType::Publish.as_u8() {
                            if role == ClientRole::Unknown {
                                role = ClientRole::Publisher;
                            }
                            let ghost items = publish_frames(seen);
                            proof {
                                assert(items.drop_last() =~= publish_frames(seen.drop_last()));
                                assert(items.last() == full_msg@);
                            }
                            let _ = storage.write(full_msg.as_slice());
                            outgoing.push(full_msg);
                        } else if header.msg_type == MessageType::Subscribe.as_u8() {
                            role = ClientRole::Subscriber;
                        }
                    },
                    None => {
                        proof {
                            assert(frames_from(s, pos) == Seq::<(MessageHeader, Seq<u8>)>::empty());
                            assert(seen + Seq::<(MessageHeader, Seq<u8>)>::empty() =~= seen);
                        }
                        break;
                    },
                }
            }
            consumed = decoder.data_pos();
        }
        let len = self.read_buffer.len();
        let rest = vstd::slice::slice_to_vec(vstd::slice::slice_subrange(self.read_buffer.as_slice(), consumed, len));
        self.read_buffer = rest;
        self.role = role;
        self.messages_received = received;
        outgoing
    }

    /// Queues `data` for the socket. Always taken when nothing is pending;
    /// otherwise taken only when the pending bytes stay within
    /// `MAX_PENDING_BYTES`, and dropped (`false`) when they would not.
    pub fn queue_write(&mut self, data: &[u8]) -> (r: bool)
        ensures
            r == accepts(old(self).outbound().len(), data@.len()),
            final(self).outbound() == (if r {
                old(self).outbound() + data@
            } else {
                old(self).outbound()
            }),
            final(self).inbound() == old(self).inbound(),
            final(self).role_spec() == old(self).role_spec(),
            final(self).received_count() == old(self).received_count(),
    {
        let pending = self.write_buffer.len();
        if pending > 0 && (pending > MAX_PENDING_BYTES || data.len() > MAX_PENDING_BYTES - pending) {
            return false;
        }
        let mut i: usize = 0;
        while i < data.len()
            invariant
                i <= data@.len(),
                self.write_buffer@ == old(self).write_buffer@ + data@.subrange(0, i as int),
                self.read_buffer == old(self).read_buffer,
                self.role == old(self).role,
                self.messages_received == old(self).messages_received,
            decreases data@.len() - i,
        {
            self.write_buffer.push(data[i]);
            i = i + 1;
            assert(self.write_buffer@ =~= old(self).write_buffer@ + data@.subrange(0, i as int));
        }
        assert(data@.subrange(0, i as int) =~= data@);
        true
    }

    /// Bytes pending for the socket.
    pub fn write_pending(&self) -> (r: usize)
        ensures
            r == self.outbound().len(),
    {
        self.write_buffer.len()
    }

    /// The bytes pending for the socket, oldest first.
    pub fn pending(&self) -> (r: &[u8])
        ensures
            r@ == self.outbound(),
    {
        self.write_buffer.as_slice()
    }

    /// Records that the socket took the first `n` pending bytes; taking all
    /// of a non-empty queue counts as one completed send.
    pub fn flushed(&mut self, n: usize)
        requires
            n <= old(self).outbound().len(),
        ensures
            final(self).sent_count() == (if n == old(self).outbound().len() && n > 0 {
                (old(self).sent_count() + 1) % 0x1_0000_0000_0000_0000
            } else {
                old(self).sent_count() as int
            }),
            final(self).outbound() == old(self).outbound().subrange(n as int, old(self).outbound().len() as int),
            final(self).inbound() == old(self).inbound(),
            final(self).role_spec() == old(self).role_spec(),
            final(self).received_count() == old(self).received_count(),
    {
        let len = self.write_buffer.len();
        let rest = vstd::slice::slice_to_vec(vstd::slice::slice_subrange(self.write_buffer.as_slice(), n, len));
        self.write_buffer = rest;
        if n == len && n > 0 {
            proof {
                crate::stats::lemma_wrapping_add(self.messages_sent, 1);
            }
            self.messages_sent = self.messages_sent.wrapping_add(1);
        }
    }

    /// Frames decoded from this peer (wrapping).
    pub fn messages_received(&self) -> (r: u64)
        ensures
            r == self.received_count(),
    {
        self.messages_received
    }

    /// Times the pending bytes were fully drained to the socket (wrapping).
    pub fn messages_sent(&self) -> (r: u64)
        ensures
            r == self.sent_count(),
    {
        self.messages_sent
    }
}

} // verus!
