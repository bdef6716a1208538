use vstd::prelude::*;

verus! {

/// Size of a device sector: buffer sizes are multiples of it and the first
/// request of a reader starts on a multiple of it.
pub const SECTOR_SIZE: u64 = 4096;

/// Readiness of one slot of the ring.
#[derive(Debug, Default, Clone, Copy, PartialEq, Eq, Structural)]
pub enum ReaderBufferStatus {
    /// Nothing has been requested for the slot yet.
    #[default]
    Ready4Submit,
    /// A read into the slot is outstanding.
    Submitted,
    /// The slot holds data that the consumer may copy out.
    Ready4Read,
    /// No further read is issued for the slot: the file ended before its
    /// block, or a read into it failed.
    Invalid,
}

/// One slot of the ring: a fixed-size block of memory and the read that
/// currently targets it.
pub struct Buffer {
    /// File offset that the current or last read targeted.
    pub offset: u64,
    /// Number of bytes that the current or last read asked for.
    pub requested: usize,
    /// Number of valid bytes in the slot: zero while a read is outstanding,
    /// then the count that its completion delivered.
    pub len: usize,
    /// The slot's memory; its length never changes.
    pub data: Vec<u8>,
    /// Position of the slot in the ring; completions are resolved by it.
    pub idx: usize,
}

impl Buffer {
    /// A zero-filled slot of `size` bytes at position `idx` of the ring.
    pub fn new(size: usize, idx: usize) -> (r: Buffer)
        ensures
            r.offset == 0,
            r.requested == 0,
            r.len == 0,
            r.idx == idx,
            r.data@.len() == size,
            forall|i: int| 0 <= i < size ==> r.data@[i] == 0u8,
    {
        let data: Vec<u8> = vec![0u8; size];
        Buffer { offset: 0, requested: 0, len: 0, data, idx }
    }

    /// Puts the bytes that a read delivered at the start of the slot's memory
    /// and makes them the slot's valid bytes.
    pub(crate) fn fill_from(&mut self, src: &[u8])
        requires
            src@.len() <= old(self).data@.len(),
        ensures
            final(self).data@.len() == old(self).data@.len(),
            final(self).data@.subrange(0, src@.len() as int) == src@,
            final(self).len == src@.len(),
            final(self).requested == old(self).requested,
            final(self).offset == old(self).offset,
            final(self).idx == old(self).idx,
    {
        let mut j: usize = 0;
        while j < src.len()
            invariant
                j <= src@.len() <= self.data@.len(),
                self.data@.len() == old(self).data@.len(),
                self.len == old(self).len,
                self.requested == old(self).requested,
                self.offset == old(self).offset,
                self.idx == old(self).idx,
                forall|m: int| 0 <= m < j ==> self.data@[m] == src@[m],
            decreases src@.len() - j,
        {
            self.data.set(j, src[j]);
            j = j + 1;
        }
        self.len = src.len();
        assert(self.data@.subrange(0, src@.len() as int) =~= src@);
    }
}

/// A read that the caller must issue: `len` bytes of the file from `offset`
/// into the memory of slot `slot`.
#[derive(Debug, Clone, Copy, PartialEq, Eq, Structural)]
pub struct ReadRequest {
    pub slot: usize,
    pub offset: u64,
    pub len: usize,
}

impl ReadRequest {
    /// The low 32 bits of the target offset.
    pub fn offset_low(&self) -> (r: u32)
        ensures
            r as int == self.offset as int % 0x1_0000_0000,
    {
        let off: u64 = self.offset;
        let r: u32 = (off & 0xFFFF_FFFFu64) as u32;
        assert(off & 0xFFFF_FFFFu64 == off % 0x1_0000_0000) by (bit_vector);
        r
    }

    /// The high 32 bits of the target offset.
    pub fn offset_high(&self) -> (r: u32)
        ensures
            r as int == self.offset as int / 0x1_0000_0000,
    {
        let off: u64 = self.offset;
        assert(off >> 32u64 == off / 0x1_0000_0000) by (bit_vector);
        (off >> 32u64) as u32
    }
}

} // verus!
