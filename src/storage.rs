//! Append ring kept in a memory-mapped file.
//!
//! The mapping starts with a 64-byte header and is followed by a payload
//! region of `capacity` bytes used as a ring:
//!
//! | offset | size | field       |
//! |--------|------|-------------|
//! | 0      | 8    | `magic`     |
//! | 8      | 4    | `version`   |
//! | 12     | 4    | `capacity`  |
//! | 16     | 8    | `write_pos` |
//! | 24     | 8    | `read_pos`  |
//! | 32     | 32   | reserved    |
//!
//! All fields are little-endian. `write_pos` and `read_pos` are monotonic
//! byte counts that wrap at 64 bits; byte `i` of the stream lives at
//! `i % capacity` in the payload region.
use memmap2::MmapMut;
use vstd::arithmetic::power2::is_pow2;
use vstd::bytes::{
    lemma_auto_spec_u32_to_from_le_bytes, lemma_auto_spec_u64_to_from_le_bytes, spec_u32_to_le_bytes,
    spec_u64_from_le_bytes, spec_u64_to_le_bytes, u32_to_le_bytes, u64_from_le_bytes, u64_to_le_bytes,
};
use vstd::prelude::*;

verus! {

/// Size of the on-disk header that precedes the payload region.
pub const STORAGE_HEADER_SIZE: usize = 64;

/// Magic number of an initialised storage file ("HERMES_V").
pub const STORAGE_MAGIC: u64 = 0x4845524D45535F56;

/// Version of the storage layout.
pub const STORAGE_VERSION: u32 = 1;

#[verifier::external_type_specification]
#[verifier::external_body]
pub struct ExMmapMut(MmapMut);

/// The bytes of a writable mapping.
pub uninterp spec fn mapped_bytes(m: MmapMut) -> Seq<u8>;

/// Relies on `<memmap2::MmapMut as Deref>::deref`: a view of the mapped bytes.
#[verifier::external_body]
fn mapped(m: &MmapMut) -> (r: &[u8])
    ensures
        r@ == mapped_bytes(*m),
{
    m
}

/// Relies on `<memmap2::MmapMut as DerefMut>::deref_mut`: a mutable view of
/// the mapped bytes; what is written through it is what the mapping holds.
#[verifier::external_body]
fn mapped_mut(m: &mut MmapMut) -> (r: &mut [u8])
    ensures
        r@ == mapped_bytes(*old(m)),
        mapped_bytes(*final(m)) == final(r)@,
{
    m
}

/// Why a mapping cannot serve as storage.
#[derive(Debug, Clone, Copy, PartialEq, Eq, Structural)]
pub enum StorageError {
    /// The capacity is not a power of two.
    CapacityNotPowerOfTwo,
    /// The mapping is not exactly a header plus `capacity` bytes.
    MappingSize,
    /// The header is initialised but its indices are further apart than
    /// the capacity.
    CorruptHeader,
}

/// The little-endian `u64` stored at `at`.
pub open spec fn stored_u64(b: Seq<u8>, at: int) -> u64 {
    spec_u64_from_le_bytes(b.subrange(at, at + 8))
}

/// Bytes written and not yet released: `write_pos - read_pos`, wrapping at 64 bits.
pub open spec fn ring_used(write_pos: u64, read_pos: u64) -> int {
    if write_pos >= read_pos {
        write_pos - read_pos
    } else {
        write_pos - read_pos + 0x1_0000_0000_0000_0000
    }
}

/// `region` after writing `data` starting at `offset` and wrapping to the
/// start of the region past its end.
pub open spec fn ring_write(region: Seq<u8>, offset: int, data: Seq<u8>) -> Seq<u8> {
    Seq::new(
        region.len(),
        |i: int|
            {
                let j = if i >= offset {
                    i - offset
                } else {
                    i - offset + region.len()
                };
                if j < data.len() {
                    data[j]
                } else {
                    region[i]
                }
            },
    )
}

/// The mapped bytes `b` of storage with a region of `capacity` bytes after
/// `write(data)`: unchanged when fewer than `data.len()` bytes are free;
/// otherwise the region as `ring_write` leaves it from `write_pos % capacity`
/// and `write_pos` advanced by `data.len()`, wrapping at 64 bits.
pub open spec fn write_effect(b: Seq<u8>, capacity: nat, data: Seq<u8>) -> Seq<u8> {
    let wp = stored_u64(b, 16);
    let rp = stored_u64(b, 24);
    if data.len() > capacity - ring_used(wp, rp) {
        b
    } else {
        let h = STORAGE_HEADER_SIZE as int;
        splice(
            b.subrange(0, h) + ring_write(b.subrange(h, h + capacity), wp as int % capacity as int, data),
            16,
            spec_u64_to_le_bytes(((wp + data.len()) % 0x1_0000_0000_0000_0000) as u64),
        )
    }
}

/// The mapped bytes after writing each of `items`, in order.
pub open spec fn write_all_effect(b: Seq<u8>, capacity: nat, items: Seq<Seq<u8>>) -> Seq<u8>
    decreases items.len(),
{
    if items.len() == 0 {
        b
    } else {
        write_effect(write_all_effect(b, capacity, items.drop_last()), capacity, items.last())
    }
}

/// `b` with `v` in place of `b[at..at + v.len()]`.
pub open spec fn splice(b: Seq<u8>, at: int, v: Seq<u8>) -> Seq<u8> {
    b.subrange(0, at) + v + b.subrange(at + v.len(), b.len() as int)
}

/// The header bytes of freshly initialised storage.
pub open spec fn fresh_storage_header(b: Seq<u8>, capacity: usize) -> Seq<u8> {
    splice(
        splice(
            splice(splice(splice(b, 0, spec_u64_to_le_bytes(STORAGE_MAGIC)), 8, spec_u32_to_le_bytes(STORAGE_VERSION)), 12,
            spec_u32_to_le_bytes(capacity as u32)),
            16,
            spec_u64_to_le_bytes(0),
        ),
        24,
        spec_u64_to_le_bytes(0),
    )
}

/// Whether `n` is a power of two.
pub fn is_power_of_two(n: usize) -> (r: bool)
    ensures
        r == is_pow2(n as int),
{
    if n == 0 {
        proof {
            reveal(is_pow2);
        }
        return false;
    }
    let mut m = n;
    while m > 1 && m % 2 == 0
        invariant
            m > 0,
            is_pow2(n as int) == is_pow2(m as int),
        decreases m,
    {
        proof {
            reveal(is_pow2);
        }
        m = m / 2;
    }
    proof {
        reveal(is_pow2);
    }
    m == 1
}

/// Writes `v` into `b[at..at + v.len()]`.
fn put_bytes(b: &mut [u8], at: usize, v: &[u8])
    requires
        at + v@.len() <= old(b)@.len(),
    ensures
        final(b)@ == splice(old(b)@, at as int, v@),
{
    let n = b.len();
    let mut i: usize = 0;
    while i < v.len()
        invariant
            i <= v@.len(),
            at + v@.len() <= n,
            b@.len() == n,
            old(b)@.len() == n,
            forall|k: int| 0 <= k < b@.len() ==> #[trigger] b@[k] == if at <= k < at + i {
                v@[k - at]
            } else {
                old(b)@[k]
            },
        decreases v@.len() - i,
    {
        b[at + i] = v[i];
        i = i + 1;
    }
    assert(b@ =~= splice(old(b)@, at as int, v@));
}

/// Append-only persistence of framed bytes into a ring on a mapped file.
pub struct MmapStorage {
    mmap: MmapMut,
    capacity: usize,
}

impl MmapStorage {
    /// All mapped bytes: header, then the payload region.
    pub closed spec fn bytes(&self) -> Seq<u8> {
        mapped_bytes(self.mmap)
    }

    /// Size of the payload region.
    pub closed spec fn capacity(&self) -> nat {
        self.capacity as nat
    }

    /// The payload region.
    pub open spec fn region(&self) -> Seq<u8> {
        self.bytes().subrange(STORAGE_HEADER_SIZE as int, STORAGE_HEADER_SIZE + self.capacity())
    }

    /// Monotonic count of bytes written.
    pub open spec fn write_pos(&self) -> u64 {
        stored_u64(self.bytes(), 16)
    }

    /// Monotonic count of bytes released.
    pub open spec fn read_pos(&self) -> u64 {
        stored_u64(self.bytes(), 24)
    }

    /// The header bytes.
    pub open spec fn header(&self) -> Seq<u8> {
        self.bytes().subrange(0, STORAGE_HEADER_SIZE as int)
    }

    /// The mapping is a header plus the region, the capacity is a power of
    /// two, and no more than `capacity` bytes are in use.
    pub open spec fn wf(&self) -> bool {
        &&& is_pow2(self.capacity() as int)
        &&& 0 < self.capacity() <= usize::MAX
        &&& self.bytes().len() == STORAGE_HEADER_SIZE + self.capacity()
        &&& ring_used(self.write_pos(), self.read_pos()) <= self.capacity()
    }

    /// Takes a writable mapping of `STORAGE_HEADER_SIZE + capacity` bytes as
    /// storage. A mapping without the magic number gets a fresh header
    /// (both indices zero); one with it keeps its header and indices.
    pub fn open(mmap: MmapMut, capacity: usize) -> (r: Result<Self, StorageError>)
        ensures
            ({
                let b = mapped_bytes(mmap);
                let initialised = stored_u64(b, 0) == STORAGE_MAGIC;
                match r {
                    Ok(s) => {
                        &&& s.wf()
                        &&& s.capacity() == capacity
                        &&& is_pow2(capacity as int)
                        &&& b.len() == STORAGE_HEADER_SIZE + capacity
                        &&& s.bytes() == if initialised {
                            b
                        } else {
                            fresh_storage_header(b, capacity)
                        }
                    },
                    Err(StorageError::CapacityNotPowerOfTwo) => !is_pow2(capacity as int),
                    Err(StorageError::MappingSize) => is_pow2(capacity as int) && b.len() != STORAGE_HEADER_SIZE
                        + capacity,
                    Err(StorageError::CorruptHeader) => {
                        &&& is_pow2(capacity as int)
                        &&& b.len() == STORAGE_HEADER_SIZE + capacity
                        &&& initialised
                        &&& ring_used(stored_u64(b, 16), stored_u64(b, 24)) > capacity
                    },
                }
            }),
    {
        if !is_power_of_two(capacity) {
            return Err(StorageError::CapacityNotPowerOfTwo);
        }
        proof {
            reveal(is_pow2);
        }
        let len = mapped(&mmap).len();
        if len < STORAGE_HEADER_SIZE || len - STORAGE_HEADER_SIZE != capacity {
            return Err(StorageError::MappingSize);
        }
        let mut mmap = mmap;
        let magic = u64_from_le_bytes(vstd::slice::slice_subrange(mapped(&mmap), 0, 8));
        proof {
            lemma_auto_spec_u64_to_from_le_bytes();
            lemma_auto_spec_u32_to_from_le_bytes();
        }
        if magic != STORAGE_MAGIC {
            let b = mapped_mut(&mut mmap);
            put_bytes(b, 0, u64_to_le_bytes(STORAGE_MAGIC).as_slice());
            put_bytes(b, 8, u32_to_le_bytes(STORAGE_VERSION).as_slice());
            #[verifier::truncate]
            let cap32 = capacity as u32;
            put_bytes(b, 12, u32_to_le_bytes(cap32).as_slice());
            put_bytes(b, 16, u64_to_le_bytes(0).as_slice());
            put_bytes(b, 24, u64_to_le_bytes(0).as_slice());
            let s = MmapStorage { mmap, capacity };
            proof {
                let nb = s.bytes();
                assert(nb.subrange(16, 24) =~= spec_u64_to_le_bytes(0));
                assert(nb.subrange(24, 32) =~= spec_u64_to_le_bytes(0));
            }
            return Ok(s);
        }
        let s = MmapStorage { mmap, capacity };
        let wp = s.load_u64(16);
        let rp = s.load_u64(24);
        if wp.wrapping_sub(rp) > capacity as u64 {
            return Err(StorageError::CorruptHeader);
        }
        Ok(s)
    }

    /// The little-endian `u64` at `at` in the mapping.
    fn load_u64(&self, at: usize) -> (r: u64)
        requires
            at + 8 <= self.bytes().len(),
        ensures
            r == stored_u64(self.bytes(), at as int),
    {
        let m = mapped(&self.mmap);
        let n = m.len();
        u64_from_le_bytes(vstd::slice::slice_subrange(m, at, at + 8))
    }

    /// Appends `data` to the ring at `write_pos % capacity`, wrapping to the
    /// start of the region past its end, and advances `write_pos`. Returns
    /// the offset the data starts at; absent, and nothing written, when
    /// fewer than `data.len()` bytes are free.
    pub fn write(&mut self, data: &[u8]) -> (r: Option<usize>)
        requires
            old(self).wf(),
        ensures
            final(self).wf(),
            final(self).capacity() == old(self).capacity(),
            final(self).read_pos() == old(self).read_pos(),
            final(self).header().subrange(0, 16) == old(self).header().subrange(0, 16),
            final(self).bytes() == write_effect(old(self).bytes(), old(self).capacity(), data@),
            ({
                let free = old(self).capacity() - ring_used(old(self).write_pos(), old(self).read_pos());
                match r {
                    Some(offset) => {
                        &&& data@.len() <= free
                        &&& offset == old(self).write_pos() % (old(self).capacity() as u64)
                        &&& final(self).region() == ring_write(old(self).region(), offset as int, data@)
                        &&& final(self).write_pos() == (old(self).write_pos() + data@.len()) % 0x1_0000_0000_0000_0000
                    },
                    None => data@.len() > free && final(self).bytes() == old(self).bytes(),
                }
            }),
    {
        let capacity = self.capacity;
        let write_pos = self.load_u64(16);
        let read_pos = self.load_u64(24);
        let used = write_pos.wrapping_sub(read_pos);
        let available = capacity - used as usize;
        if data.len() > available {
            return None;
        }
        let offset = (write_pos % capacity as u64) as usize;
        let ghost old_bytes = self.bytes();
        let ghost old_region = self.region();
        let b = mapped_mut(&mut self.mmap);
        let n = b.len();
        let mut j: usize = 0;
        while j < data.len()
            invariant
                n == b@.len(),
                j <= data@.len(),
                data@.len() <= capacity,
                offset < capacity,
                b@.len() == old_bytes.len(),
                old_bytes.len() == STORAGE_HEADER_SIZE + capacity,
                old_region == old_bytes.subrange(STORAGE_HEADER_SIZE as int, STORAGE_HEADER_SIZE + capacity),
                b@.subrange(0, STORAGE_HEADER_SIZE as int) == old_bytes.subrange(0, STORAGE_HEADER_SIZE as int),
                forall|i: int|
                    0 <= i < capacity ==> #[trigger] b@[STORAGE_HEADER_SIZE + i] == {
                        let k = if i >= offset {
                            i - offset
                        } else {
                            i - offset + capacity
                        };
                        if k < j {
                            data@[k]
                        } else {
                            old_region[i]
                        }
                    },
            decreases data@.len() - j,
        {
            let pos = if j < capacity - offset {
                offset + j
            } else {
                j - (capacity - offset)
            };
            let ghost before = b@;
            b[STORAGE_HEADER_SIZE + pos] = data[j];
            assert(b@.subrange(0, STORAGE_HEADER_SIZE as int) =~= before.subrange(0, STORAGE_HEADER_SIZE as int));
            j = j + 1;
        }
        let new_wp = write_pos.wrapping_add(data.len() as u64);
        assert(b@.subrange(24, 32) =~= b@.subrange(0, STORAGE_HEADER_SIZE as int).subrange(24, 32));
        assert(b@.subrange(0, 16) =~= b@.subrange(0, STORAGE_HEADER_SIZE as int).subrange(0, 16));
        assert(old_bytes.subrange(24, 32) =~= old_bytes.subrange(0, STORAGE_HEADER_SIZE as int).subrange(24, 32));
        assert(old_bytes.subrange(0, 16) =~= old_bytes.subrange(0, STORAGE_HEADER_SIZE as int).subrange(0, 16));
        let ghost mid = b@;
        assert forall|i: int| 0 <= i < capacity implies #[trigger] mid[STORAGE_HEADER_SIZE + i] == ring_write(
            old_region,
            offset as int,
            data@,
        )[i] by {
            assert(mid[STORAGE_HEADER_SIZE + i] == b@[STORAGE_HEADER_SIZE + i]);
        }
        put_bytes(b, 16, u64_to_le_bytes(new_wp).as_slice());
        assert(b@.subrange(24, 32) =~= mid.subrange(24, 32));
        assert(b@.subrange(0, 16) =~= mid.subrange(0, 16));
        assert(b@.subrange(STORAGE_HEADER_SIZE as int, STORAGE_HEADER_SIZE + capacity) =~= mid.subrange(
            STORAGE_HEADER_SIZE as int,
            STORAGE_HEADER_SIZE + capacity,
        ));
        proof {
            lemma_auto_spec_u64_to_from_le_bytes();
            let nb = self.bytes();
            assert(nb.subrange(16, 24) =~= spec_u64_to_le_bytes(new_wp));
            assert(nb.subrange(24, 32) =~= old_bytes.subrange(24, 32));
            assert(self.header().subrange(0, 16) =~= old_bytes.subrange(0, 16));
            assert(self.capacity == capacity);
            assert(self.region() == self.bytes().subrange(STORAGE_HEADER_SIZE as int, STORAGE_HEADER_SIZE + capacity));
            assert(self.region() =~= mid.subrange(STORAGE_HEADER_SIZE as int, STORAGE_HEADER_SIZE + capacity));
            let rw = ring_write(old_region, offset as int, data@);
            assert(rw.len() == capacity);
            assert forall|i: int| 0 <= i < capacity implies self.region()[i] == rw[i] by {
                assert(self.region()[i] == mid[STORAGE_HEADER_SIZE + i]);
            }
            assert(self.region() =~= rw);
            crate::stats::lemma_wrapping_add(write_pos, data.len() as u64);
            let h = STORAGE_HEADER_SIZE as int;
            assert(old_region == old_bytes.subrange(h, h + capacity));
            assert(mid =~= old_bytes.subrange(0, h) + rw);
            assert(nb == splice(mid, 16, spec_u64_to_le_bytes(new_wp)));
        }
        Some(offset)
    }

    /// The `len` region bytes at `offset`; absent when they would run past
    /// the end of the region (reads do not wrap).
    pub fn read(&self, offset: usize, len: usize) -> (r: Option<&[u8]>)
        requires
            self.wf(),
        ensures
            match r {
                Some(s) => offset + len <= self.capacity() && s@ == self.region().subrange(
                    offset as int,
                    offset + len,
                ),
                None => offset + len > self.capacity(),
            },
    {
        if offset > self.capacity || len > self.capacity - offset {
            return None;
        }
        let m = mapped(&self.mmap);
        let n = m.len();
        let start = STORAGE_HEADER_SIZE + offset;
        let s = vstd::slice::slice_subrange(m, start, start + len);
        assert(s@ =~= self.region().subrange(offset as int, offset + len));
        Some(s)
    }

    /// Size of the payload region.
    pub fn capacity_bytes(&self) -> (r: usize)
        ensures
            r == self.capacity(),
    {
        self.capacity
    }

    /// Gives the mapping back, for flushing or unmapping.
    pub fn into_mapping(self) -> (r: MmapMut)
        ensures
            mapped_bytes(r) == self.bytes(),
    {
        self.mmap
    }
}

/// What a read returns after a write: the bytes just written at an offset
/// are read back unchanged from that offset whenever they did not wrap.
pub proof fn lemma_read_after_write(region: Seq<u8>, offset: int, data: Seq<u8>)
    requires
        0 <= offset,
        offset + data.len() <= region.len(),
    ensures
        ring_write(region, offset, data).subrange(offset, offset + data.len()) == data,
{
    assert(ring_write(region, offset, data).subrange(offset, offset + data.len()) =~= data);
}

} // verus!
