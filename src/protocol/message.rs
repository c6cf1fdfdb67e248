//! Frame header layout and the rolling payload checksum.
//!
//! A frame is a 32-byte header followed by `payload_len` payload bytes. All
//! header fields are little-endian and packed without padding:
//!
//! | offset | size | field          |
//! |--------|------|----------------|
//! | 0      | 4    | `magic`        |
//! | 4      | 1    | `version`      |
//! | 5      | 1    | `msg_type`     |
//! | 6      | 2    | `flags`        |
//! | 8      | 8    | `sequence`     |
//! | 16     | 8    | `timestamp_ns` |
//! | 24     | 4    | `payload_len`  |
//! | 28     | 4    | `checksum`     |
use vstd::bytes::*;
use vstd::prelude::*;

verus! {

/// Size of the fixed frame header in bytes.
pub const HEADER_SIZE: usize = 32;

/// Magic number at the start of every header ("HRMS").
pub const MAGIC: u32 = 0x48524D53;

/// Protocol version carried in every header.
pub const VERSION: u8 = 1;

/// Largest payload a frame may carry.
pub const MAX_PAYLOAD_SIZE: usize = 65536;

/// Kind of a frame.
#[derive(Debug, Clone, Copy, PartialEq, Eq, Structural)]
pub enum MessageType {
    /// Data sent by a publisher, fanned out to every other connection.
    Publish,
    /// A connection asks to receive published frames.
    Subscribe,
    /// Acknowledgement.
    Ack,
    /// Keep-alive.
    Heartbeat,
    /// A frame whose payload is a run of inner frames.
    Batch,
}

impl MessageType {
    /// The wire code of the kind.
    pub open spec fn code(self) -> u8 {
        match self {
            MessageType::Publish => 1,
            MessageType::Subscribe => 2,
            MessageType::Ack => 3,
            MessageType::Heartbeat => 4,
            MessageType::Batch => 5,
        }
    }

    /// The wire code of the kind.
    pub fn as_u8(self) -> (r: u8)
        ensures
            r == self.code(),
    {
        match self {
            MessageType::Publish => 1,
            MessageType::Subscribe => 2,
            MessageType::Ack => 3,
            MessageType::Heartbeat => 4,
            MessageType::Batch => 5,
        }
    }

    /// The kind whose wire code is `v`, if there is one.
    pub fn from_u8(v: u8) -> (r: Option<Self>)
        ensures
            r is None <==> (v < 1 || v > 5),
            r matches Some(t) ==> t.code() == v,
    {
        match v {
            1 => Some(MessageType::Publish),
            2 => Some(MessageType::Subscribe),
            3 => Some(MessageType::Ack),
            4 => Some(MessageType::Heartbeat),
            5 => Some(MessageType::Batch),
            _ => None,
        }
    }
}

/// The fixed frame header.
#[derive(Debug, Clone, Copy, PartialEq, Eq, Structural)]
pub struct MessageHeader {
    /// Always `MAGIC` in a valid header.
    pub magic: u32,
    /// Always `VERSION` in a valid header.
    pub version: u8,
    /// Wire code of the frame kind.
    pub msg_type: u8,
    /// Reserved, zero.
    pub flags: u16,
    /// Assigned by the sender; never rewritten by the broker.
    pub sequence: u64,
    /// Nanoseconds since the Unix epoch when the frame was encoded.
    pub timestamp_ns: u64,
    /// Number of payload bytes following the header.
    pub payload_len: u32,
    /// Checksum of the payload, or zero for "not checked".
    pub checksum: u32,
}

/// A header as written by the encoder: constants filled in, flags zero.
pub open spec fn fresh_header(msg_type: u8, sequence: u64, timestamp_ns: u64, payload_len: u32, checksum: u32) -> MessageHeader {
    MessageHeader {
        magic: MAGIC,
        version: VERSION,
        msg_type,
        flags: 0,
        sequence,
        timestamp_ns,
        payload_len,
        checksum,
    }
}

/// The 32 bytes of a header on the wire.
pub open spec fn header_bytes(h: MessageHeader) -> Seq<u8> {
    spec_u32_to_le_bytes(h.magic) + seq![h.version, h.msg_type] + spec_u16_to_le_bytes(h.flags)
        + spec_u64_to_le_bytes(h.sequence) + spec_u64_to_le_bytes(h.timestamp_ns)
        + spec_u32_to_le_bytes(h.payload_len) + spec_u32_to_le_bytes(h.checksum)
}

/// The header held by the first 32 bytes of `s`.
pub open spec fn parse_header(s: Seq<u8>) -> MessageHeader {
    MessageHeader {
        magic: spec_u32_from_le_bytes(s.subrange(0, 4)),
        version: s[4],
        msg_type: s[5],
        flags: spec_u16_from_le_bytes(s.subrange(6, 8)),
        sequence: spec_u64_from_le_bytes(s.subrange(8, 16)),
        timestamp_ns: spec_u64_from_le_bytes(s.subrange(16, 24)),
        payload_len: spec_u32_from_le_bytes(s.subrange(24, 28)),
        checksum: spec_u32_from_le_bytes(s.subrange(28, 32)),
    }
}

impl MessageHeader {
    /// Magic and version are the constants and the payload fits the bound.
    pub open spec fn valid(self) -> bool {
        self.magic == MAGIC && self.version == VERSION && self.payload_len <= MAX_PAYLOAD_SIZE
    }

    /// Header plus payload length.
    pub open spec fn frame_len(self) -> nat {
        (HEADER_SIZE + self.payload_len) as nat
    }

    /// A header with the constants filled in, flags and checksum zero, and
    /// the current wall-clock time.
    pub fn new(msg_type: MessageType, sequence: u64, payload_len: u32) -> (r: Self)
        ensures
            r == fresh_header(msg_type.code(), sequence, r.timestamp_ns, payload_len, 0),
    {
        Self::new_at(msg_type, sequence, payload_len, now_ns())
    }

    /// A header with the constants filled in, flags and checksum zero, and
    /// the given timestamp.
    pub fn new_at(msg_type: MessageType, sequence: u64, payload_len: u32, timestamp_ns: u64) -> (r: Self)
        ensures
            r == fresh_header(msg_type.code(), sequence, timestamp_ns, payload_len, 0),
    {
        MessageHeader {
            magic: MAGIC,
            version: VERSION,
            msg_type: msg_type.as_u8(),
            flags: 0,
            sequence,
            timestamp_ns,
            payload_len,
            checksum: 0,
        }
    }

    /// Magic and version are the constants and the payload fits the bound.
    pub fn is_valid(&self) -> (r: bool)
        ensures
            r == self.valid(),
    {
        self.magic == MAGIC && self.version == VERSION && self.payload_len as usize <= MAX_PAYLOAD_SIZE
    }

    /// Header plus payload length.
    pub fn total_size(&self) -> (r: usize)
        requires
            HEADER_SIZE + self.payload_len <= usize::MAX,
        ensures
            r == self.frame_len(),
    {
        HEADER_SIZE + self.payload_len as usize
    }

    /// The 32 wire bytes of the header.
    pub fn as_bytes(&self) -> (r: Vec<u8>)
        ensures
            r@ == header_bytes(*self),
            r@.len() == HEADER_SIZE,
    {
        proof {
            lemma_auto_spec_u16_to_from_le_bytes();
            lemma_auto_spec_u32_to_from_le_bytes();
            lemma_auto_spec_u64_to_from_le_bytes();
        }
        let mut out: Vec<u8> = Vec::with_capacity(HEADER_SIZE);
        append(&mut out, &u32_to_le_bytes(self.magic));
        out.push(self.version);
        out.push(self.msg_type);
        append(&mut out, &u16_to_le_bytes(self.flags));
        append(&mut out, &u64_to_le_bytes(self.sequence));
        append(&mut out, &u64_to_le_bytes(self.timestamp_ns));
        append(&mut out, &u32_to_le_bytes(self.payload_len));
        append(&mut out, &u32_to_le_bytes(self.checksum));
        assert(out@ =~= header_bytes(*self));
        out
    }

    /// Reads a header from the first 32 bytes of `buf`. Absent when `buf`
    /// is shorter than a header or the header is not valid.
    pub fn from_bytes(buf: &[u8]) -> (r: Option<Self>)
        ensures
            buf@.len() < HEADER_SIZE ==> r is None,
            buf@.len() >= HEADER_SIZE ==> r == (if parse_header(buf@).valid() {
                Some(parse_header(buf@))
            } else {
                None
            }),
    {
        if buf.len() < HEADER_SIZE {
            return None;
        }
        let h = read_header(buf, 0);
        assert(buf@.subrange(0, HEADER_SIZE as int) =~= buf@.subrange(0, 32));
        proof {
            lemma_parse_prefix(buf@, 0);
            assert(buf@.subrange(0, buf@.len() as int) =~= buf@);
        }
        if h.is_valid() {
            Some(h)
        } else {
            None
        }
    }
}

/// The header parsed from a longer sequence depends on its first 32 bytes only.
pub(crate) proof fn lemma_parse_prefix(s: Seq<u8>, pos: int)
    requires
        0 <= pos,
        pos + HEADER_SIZE <= s.len(),
    ensures
        parse_header(s.subrange(pos, pos + HEADER_SIZE)) == parse_header(s.subrange(pos, s.len() as int)),
{
    let a = s.subrange(pos, pos + HEADER_SIZE);
    let b = s.subrange(pos, s.len() as int);
    assert(a.subrange(0, 4) =~= b.subrange(0, 4));
    assert(a.subrange(6, 8) =~= b.subrange(6, 8));
    assert(a.subrange(8, 16) =~= b.subrange(8, 16));
    assert(a.subrange(16, 24) =~= b.subrange(16, 24));
    assert(a.subrange(24, 28) =~= b.subrange(24, 28));
    assert(a.subrange(28, 32) =~= b.subrange(28, 32));
}

/// Parsing the wire bytes of a header gives the header back.
pub proof fn lemma_header_round_trip(h: MessageHeader)
    ensures
        header_bytes(h).len() == HEADER_SIZE,
        parse_header(header_bytes(h)) == h,
{
    lemma_auto_spec_u16_to_from_le_bytes();
    lemma_auto_spec_u32_to_from_le_bytes();
    lemma_auto_spec_u64_to_from_le_bytes();
    let s = header_bytes(h);
    assert(s.subrange(0, 4) =~= spec_u32_to_le_bytes(h.magic));
    assert(s.subrange(6, 8) =~= spec_u16_to_le_bytes(h.flags));
    assert(s.subrange(8, 16) =~= spec_u64_to_le_bytes(h.sequence));
    assert(s.subrange(16, 24) =~= spec_u64_to_le_bytes(h.timestamp_ns));
    assert(s.subrange(24, 28) =~= spec_u32_to_le_bytes(h.payload_len));
    assert(s.subrange(28, 32) =~= spec_u32_to_le_bytes(h.checksum));
}

/// A header together with a view of its payload.
#[derive(Debug)]
pub struct Message<'a> {
    pub header: MessageHeader,
    pub payload: &'a [u8],
}

impl<'a> Message<'a> {
    /// Reads the frame at the start of `buf` without checking its checksum.
    /// Absent when `buf` is shorter than a header, the header is not valid,
    /// or the payload runs past the end of `buf`.
    pub fn from_bytes(buf: &'a [u8]) -> (r: Option<Self>)
        ensures
            ({
                let h = parse_header(buf@);
                let ok = buf@.len() >= HEADER_SIZE && h.valid() && HEADER_SIZE + h.payload_len <= buf@.len();
                &&& ok ==> (r matches Some(m) && m.header == h && m.payload@ == buf@.subrange(
                    HEADER_SIZE as int,
                    HEADER_SIZE + h.payload_len,
                ))
                &&& !ok ==> r is None
            }),
    {
        let n = buf.len();
        if n < HEADER_SIZE {
            return None;
        }
        let header = read_header(buf, 0);
        proof {
            lemma_parse_prefix(buf@, 0);
            assert(buf@.subrange(0, buf@.len() as int) =~= buf@);
        }
        if !header.is_valid() {
            return None;
        }
        if header.payload_len as usize > n - HEADER_SIZE {
            return None;
        }
        let payload_end = HEADER_SIZE + header.payload_len as usize;
        Some(Message { header, payload: vstd::slice::slice_subrange(buf, HEADER_SIZE, payload_end) })
    }
}

/// Writing out a parsed header gives back the 32 bytes it was read from.
pub(crate) proof fn lemma_parse_round_trip(s: Seq<u8>)
    requires
        s.len() == HEADER_SIZE,
    ensures
        header_bytes(parse_header(s)) == s,
{
    lemma_auto_spec_u16_to_from_le_bytes();
    lemma_auto_spec_u32_to_from_le_bytes();
    lemma_auto_spec_u64_to_from_le_bytes();
    assert(header_bytes(parse_header(s)) =~= s);
}

/// Reads the header stored at `buf[pos..pos + 32]`.
pub(crate) fn read_header(buf: &[u8], pos: usize) -> (r: MessageHeader)
    requires
        pos + HEADER_SIZE <= buf@.len(),
    ensures
        r == parse_header(buf@.subrange(pos as int, pos + HEADER_SIZE)),
{
    let n = buf.len();
    let s = vstd::slice::slice_subrange(buf, pos, pos + HEADER_SIZE);
    let r = MessageHeader {
        magic: u32_from_le_bytes(vstd::slice::slice_subrange(s, 0, 4)),
        version: s[4],
        msg_type: s[5],
        flags: u16_from_le_bytes(vstd::slice::slice_subrange(s, 6, 8)),
        sequence: u64_from_le_bytes(vstd::slice::slice_subrange(s, 8, 16)),
        timestamp_ns: u64_from_le_bytes(vstd::slice::slice_subrange(s, 16, 24)),
        payload_len: u32_from_le_bytes(vstd::slice::slice_subrange(s, 24, 28)),
        checksum: u32_from_le_bytes(vstd::slice::slice_subrange(s, 28, 32)),
    };
    r
}

/// Appends the bytes of `src` to `dst`.
pub(crate) fn append(dst: &mut Vec<u8>, src: &[u8])
    ensures
        final(dst)@ == old(dst)@ + src@,
{
    let mut i: usize = 0;
    while i < src.len()
        invariant
            i <= src@.len(),
            dst@ == old(dst)@ + src@.subrange(0, i as int),
        decreases src@.len() - i,
    {
        dst.push(src[i]);
        i = i + 1;
        assert(dst@ =~= old(dst)@ + src@.subrange(0, i as int));
    }
    assert(src@.subrange(0, i as int) =~= src@);
}

/// The pair `(a, b)` of the rolling checksum after the bytes of `s`:
/// `a` starts at 1 and adds each byte, `b` starts at 0 and adds each new
/// `a`, both wrapping at 32 bits.
pub open spec fn rolling_sums(s: Seq<u8>) -> (u32, u32)
    decreases s.len(),
{
    if s.len() == 0 {
        (1, 0)
    } else {
        let prev = rolling_sums(s.drop_last());
        let a = ((prev.0 + s.last()) % 0x1_0000_0000) as u32;
        let b = ((prev.1 + a) % 0x1_0000_0000) as u32;
        (a, b)
    }
}

/// The checksum of a payload: `(b << 16) | a` over the rolling sums.
pub open spec fn checksum_of(s: Seq<u8>) -> u32 {
    let (a, b) = rolling_sums(s);
    (b << 16) | a
}

/// Rolling additive checksum of `data` (an Adler-like pair folded into 32 bits).
pub fn crc32_fast(data: &[u8]) -> (r: u32)
    ensures
        r == checksum_of(data@),
{
    let mut a: u32 = 1;
    let mut b: u32 = 0;
    let mut i: usize = 0;
    while i < data.len()
        invariant
            i <= data@.len(),
            (a, b) == rolling_sums(data@.subrange(0, i as int)),
        decreases data@.len() - i,
    {
        assert(data@.subrange(0, i + 1).drop_last() =~= data@.subrange(0, i as int));
        a = a.wrapping_add(data[i] as u32);
        b = b.wrapping_add(a);
        i = i + 1;
    }
    assert(data@.subrange(0, i as int) =~= data@);
    (b << 16) | a
}

/// Relies on `std::time::SystemTime::elapsed`, called on the Unix epoch:
/// nanoseconds since the epoch (zero for a clock set before it). Nothing is
/// promised of the value.
#[verifier::external_body]
pub(crate) fn now_ns() -> (r: u64) {
    match std::time::UNIX_EPOCH.elapsed() {
        Ok(d) => d.as_nanos() as u64,
        Err(_) => 0,
    }
}

} // verus!
