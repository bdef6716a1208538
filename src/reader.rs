use vstd::prelude::*;

use crate::buffer::{Buffer, ReadRequest, ReaderBufferStatus, SECTOR_SIZE};

verus! {

/// Why an operation of the reader did not go through.
#[derive(Debug, Clone, Copy, PartialEq, Eq, Structural)]
pub enum ReaderError {
    /// The buffer size is zero or not a multiple of the sector size.
    BadBufferSize,
    /// The ring has no slot.
    BadRingDepth,
    /// The request asks for more bytes than the file still holds.
    EndOfStream,
    /// A completion or failure names a slot with no outstanding read.
    UnknownSlot,
    /// A completion delivered another number of bytes than was requested.
    ShortRead,
    /// An earlier read failed; the reader delivers nothing more.
    Broken,
}

/// How far a call of `read2buf` got.
#[derive(Debug, Clone, Copy, PartialEq, Eq, Structural)]
pub enum ReadStep {
    /// The destination holds every byte asked for.
    Done,
    /// The slot to copy from next has a read outstanding: wait for a
    /// completion, hand it to `on_completion`, and call `read2buf` again.
    NeedCompletion,
}

/// The consumption cursor: the slot to copy from next and the position in it.
struct DataPos {
    buf_idx: usize,
    offset: usize,
}

/// The read-ahead pipeline: a ring of slots, their readiness, and the
/// submission and consumption cursors over one file.
pub struct SequentialReader {
    buffers: Vec<Buffer>,
    buffers_status: Vec<ReaderBufferStatus>,
    buffer_size: usize,
    data_pos: DataPos,
    /// Next file offset to request.
    file_pos_cursor: u64,
    file_size: u64,
    start_pos: u64,
    /// File offset of the next byte handed to the consumer.
    read_pos: u64,
    init_flag: bool,
    pending: usize,
    broken: bool,
}

/// Number of slots with a read outstanding.
pub open spec fn count_submitted(s: Seq<ReaderBufferStatus>) -> nat
    decreases s.len(),
{
    if s.len() == 0 {
        0
    } else {
        count_submitted(s.drop_last()) + if s.last() == ReaderBufferStatus::Submitted {
            1nat
        } else {
            0nat
        }
    }
}

/// Length of the read for the block at `t`: a whole buffer, or what is left of the file.
pub open spec fn block_len(t: int, size: int, file_size: int) -> int {
    if file_size - t < size {
        file_size - t
    } else {
        size
    }
}

/// `x`, or the largest file offset where `x` lies past it.
pub open spec fn capped(x: int) -> int {
    if x > u64::MAX {
        u64::MAX as int
    } else {
        x
    }
}

/// The submission cursor `c` when the next block to hand a slot starts at
/// `next`: while the block before `next` was requested, `c` is `next`
/// (capped); once the file has ended, `c` stays at the first block start at
/// or past the end of the file.
pub open spec fn cursor_ok(c: int, next: int, file_size: int, size: int) -> bool {
    if next - size < file_size {
        c == capped(next)
    } else {
        file_size <= c <= next
    }
}

/// The valid bytes of a slot are the file's bytes at the slot's offset.
pub open spec fn slot_agrees(b: Buffer, f: Seq<u8>) -> bool {
    &&& b.offset + b.len <= f.len()
    &&& b.len <= b.data@.len()
    &&& b.data@.subrange(0, b.len as int) == f.subrange(b.offset as int, b.offset + b.len)
}

proof fn lemma_count_bound(s: Seq<ReaderBufferStatus>)
    ensures
        count_submitted(s) <= s.len(),
        (exists|i: int| 0 <= i < s.len() && s[i] == ReaderBufferStatus::Submitted) ==> count_submitted(s) > 0,
    decreases s.len(),
{
    if s.len() > 0 {
        lemma_count_bound(s.drop_last());
        if exists|i: int| 0 <= i < s.len() && s[i] == ReaderBufferStatus::Submitted {
            let i = choose|i: int| 0 <= i < s.len() && s[i] == ReaderBufferStatus::Submitted;
            if i < s.len() - 1 {
                assert(s.drop_last()[i] == ReaderBufferStatus::Submitted);
            }
        }
    }
}

proof fn lemma_count_update(s: Seq<ReaderBufferStatus>, i: int, v: ReaderBufferStatus)
    requires
        0 <= i < s.len(),
    ensures
        count_submitted(s.update(i, v)) + (if s[i] == ReaderBufferStatus::Submitted { 1int } else { 0int })
            == count_submitted(s) + (if v == ReaderBufferStatus::Submitted { 1int } else { 0int }),
    decreases s.len(),
{
    if i == s.len() - 1 {
        assert(s.update(i, v).drop_last() =~= s.drop_last());
    } else {
        lemma_count_update(s.drop_last(), i, v);
        assert(s.update(i, v).drop_last() =~= s.drop_last().update(i, v));
    }
}

proof fn lemma_mul_step(d: int, s: int)
    ensures
        (d - 1) * s + s == d * s,
        d >= 0 && s >= 0 ==> d * s >= 0,
{
    assert((d - 1) * s + s == d * s) by (nonlinear_arith);
    assert(d >= 0 && s >= 0 ==> d * s >= 0) by (nonlinear_arith);
}

proof fn lemma_aligned_block(b: int, d: int, s: int)
    requires
        b % 4096 == 0,
        s % 4096 == 0,
        d >= 0,
    ensures
        (b + d * s) % 4096 == 0,
{
    let q = s / 4096;
    assert(s == 4096 * q);
    assert(d * s == 4096 * (d * q)) by (nonlinear_arith)
        requires
            s == 4096 * q,
    ;
    vstd::arithmetic::div_mod::lemma_mod_multiples_basic(d * q, 4096);
    vstd::arithmetic::div_mod::lemma_mod_adds(b, d * s, 4096);
}

impl SequentialReader {
    /// Number of slots in the ring.
    pub closed spec fn ring_depth(&self) -> nat {
        self.buffers@.len()
    }

    /// Size of each slot in bytes.
    pub closed spec fn buf_size(&self) -> nat {
        self.buffer_size as nat
    }

    /// Size of the file, fixed at construction.
    pub closed spec fn file_len(&self) -> nat {
        self.file_size as nat
    }

    /// The offset at which the consumer started.
    pub closed spec fn start(&self) -> nat {
        self.start_pos as nat
    }

    /// File offset of the next byte handed to the consumer.
    pub closed spec fn pos(&self) -> nat {
        self.read_pos as nat
    }

    /// Bytes of the file from the position on.
    pub open spec fn left(&self) -> nat {
        if self.pos() <= self.file_len() {
            (self.file_len() - self.pos()) as nat
        } else {
            0
        }
    }

    /// Bytes handed to the consumer so far.
    pub open spec fn consumed(&self) -> nat {
        (self.pos() - self.start()) as nat
    }

    pub closed spec fn status_of(&self, i: int) -> ReaderBufferStatus {
        self.buffers_status@[i]
    }

    pub closed spec fn statuses(&self) -> Seq<ReaderBufferStatus> {
        self.buffers_status@
    }

    /// The outstanding-request counter.
    pub closed spec fn in_flight(&self) -> nat {
        self.pending as nat
    }

    /// The slot that the consumer copies from next.
    pub closed spec fn current(&self) -> int {
        self.data_pos.buf_idx as int
    }

    /// The consumer's position inside the current slot.
    pub closed spec fn in_slot(&self) -> int {
        self.data_pos.offset as int
    }

    /// The submission cursor.
    pub closed spec fn cursor(&self) -> int {
        self.file_pos_cursor as int
    }

    /// Whether the first reads into every slot have been issued.
    pub closed spec fn filled(&self) -> bool {
        self.init_flag
    }

    pub closed spec fn failed(&self) -> bool {
        self.broken
    }

    pub closed spec fn slot_offset(&self, i: int) -> int {
        self.buffers@[i].offset as int
    }

    /// Number of valid bytes in slot `i`.
    pub closed spec fn slot_len(&self, i: int) -> int {
        self.buffers@[i].len as int
    }

    /// Number of bytes that the current or last read of slot `i` asked for.
    pub closed spec fn slot_request(&self, i: int) -> int {
        self.buffers@[i].requested as int
    }

    /// The valid bytes of slot `i`.
    pub closed spec fn slot_bytes(&self, i: int) -> Seq<u8> {
        self.buffers@[i].data@.subrange(0, self.buffers@[i].len as int)
    }

    /// File offset of the first byte of the current slot's block.
    spec fn base(&self) -> int {
        self.read_pos - self.data_pos.offset
    }

    /// How many slots after the current one slot `i` comes, around the ring.
    spec fn dist(&self, i: int) -> int {
        let k = self.data_pos.buf_idx as int;
        if i >= k {
            i - k
        } else {
            i + self.buffers@.len() - k
        }
    }

    /// File offset of the block that slot `i` stands for.
    spec fn block_start(&self, i: int) -> int {
        self.base() + self.dist(i) * self.buffer_size
    }

    /// Slot `i` has been handed the block at `t`: a read of it, or none past the file's end.
    spec fn slot_placed(&self, i: int, t: int) -> bool {
        if t < self.file_size {
            &&& (self.buffers_status@[i] == ReaderBufferStatus::Submitted
                || self.buffers_status@[i] == ReaderBufferStatus::Ready4Read)
            &&& self.buffers@[i].offset == t
            &&& self.buffers@[i].requested == block_len(
                t,
                self.buffer_size as int,
                self.file_size as int,
            )
        } else {
            self.buffers_status@[i] == ReaderBufferStatus::Invalid
        }
    }

    spec fn slot_laid_out(&self, i: int) -> bool {
        if !self.init_flag {
            self.buffers_status@[i] == ReaderBufferStatus::Ready4Submit
        } else {
            self.slot_placed(i, self.block_start(i))
        }
    }

    /// The parts of the invariant that hold in the middle of an operation too.
    spec fn shape_ok(&self) -> bool {
        &&& self.buffers@.len() >= 1
        &&& self.buffers_status@.len() == self.buffers@.len()
        &&& self.buffer_size > 0
        &&& self.buffer_size % 4096 == 0
        &&& forall|i: int|
            0 <= i < self.buffers@.len() ==> {
                &&& (#[trigger] self.buffers@[i]).idx == i
                &&& self.buffers@[i].data@.len() == self.buffer_size
                &&& self.buffers@[i].len <= self.buffer_size
                &&& self.buffers@[i].requested <= self.buffer_size
            }
        &&& forall|i: int|
            0 <= i < self.buffers@.len() && (#[trigger] self.buffers_status@[i]
                == ReaderBufferStatus::Submitted || self.buffers_status@[i]
                == ReaderBufferStatus::Ready4Read) ==> self.buffers@[i].offset
                + self.buffers@[i].requested <= self.file_size
        &&& forall|i: int|
            0 <= i < self.buffers@.len() ==> {
                &&& (#[trigger] self.buffers_status@[i] == ReaderBufferStatus::Submitted
                    ==> self.buffers@[i].len == 0)
                &&& (self.buffers_status@[i] == ReaderBufferStatus::Ready4Read
                    ==> self.buffers@[i].len == self.buffers@[i].requested)
            }
        &&& self.pending == count_submitted(self.buffers_status@)
    }

    /// The reader's invariant.
    pub closed spec fn wf(&self) -> bool {
        &&& self.shape_ok()
        &&& self.data_pos.buf_idx < self.buffers@.len()
        &&& self.data_pos.offset < self.buffer_size
        &&& self.data_pos.offset <= self.read_pos
        &&& self.start_pos <= self.read_pos
        &&& (self.read_pos <= self.file_size || self.read_pos == self.start_pos)
        &&& self.base() % 4096 == 0
        &&& !self.init_flag ==> self.data_pos.buf_idx == 0
        &&& !self.broken ==> forall|i: int|
            0 <= i < self.buffers@.len() ==> #[trigger] self.slot_laid_out(i)
        &&& !self.broken && self.init_flag ==> cursor_ok(
            self.file_pos_cursor as int,
            self.base() + self.buffers@.len() * self.buffer_size,
            self.file_size as int,
            self.buffer_size as int,
        )
        &&& !self.broken && !self.init_flag ==> self.file_pos_cursor == self.base()
    }

    /// Every slot that holds data holds the bytes of `f` at its offset, and
    /// `f` is as long as the file.
    pub closed spec fn agrees_with(&self, f: Seq<u8>) -> bool {
        &&& f.len() == self.file_size
        &&& forall|i: int|
            0 <= i < self.buffers@.len() && self.buffers_status@[i] == ReaderBufferStatus::Ready4Read
                ==> slot_agrees(#[trigger] self.buffers@[i], f)
    }

    /// Requests `reqs[from..]` are the reads outstanding on their slots:
    /// each asks for the block at a multiple of the sector size, a whole
    /// buffer or what is left of the file.
    pub open spec fn requests_match(&self, reqs: Seq<ReadRequest>, from: int) -> bool {
        forall|q: int|
            from <= q < reqs.len() ==> {
                let r = #[trigger] reqs[q];
                &&& r.slot < self.ring_depth()
                &&& self.status_of(r.slot as int) == ReaderBufferStatus::Submitted
                &&& self.slot_offset(r.slot as int) == r.offset
                &&& self.slot_request(r.slot as int) == r.len
                &&& r.offset % 4096 == 0
                &&& r.len == block_len(r.offset as int, self.buf_size() as int, self.file_len() as int)
            }
    }

    /// Requests `reqs[from..]` ask for consecutive blocks, the first at `c`.
    pub open spec fn requests_from(&self, reqs: Seq<ReadRequest>, from: int, c: int) -> bool {
        forall|q: int|
            from <= q < reqs.len() ==> (#[trigger] reqs[q]).offset == c + (q - from) * self.buf_size()
    }

    /// The configuration fixed at construction is the same in both.
    pub open spec fn same_config(&self, other: SequentialReader) -> bool {
        &&& self.ring_depth() == other.ring_depth()
        &&& self.buf_size() == other.buf_size()
        &&& self.file_len() == other.file_len()
        &&& self.start() == other.start()
    }
}

impl SequentialReader {
    /// A reader of a file of `file_size` bytes that hands out bytes from
    /// `start_pos` on, with `num_buffer` slots of `buffer_size` bytes.
    /// Nothing is requested yet: the first `read2buf` fills the ring.
    pub fn new(start_pos: u64, file_size: u64, buffer_size: usize, num_buffer: usize) -> (r: Result<
        SequentialReader,
        ReaderError,
    >)
        ensures
            r == Err::<SequentialReader, ReaderError>(ReaderError::BadBufferSize) <==> (buffer_size
                == 0 || buffer_size % 4096 != 0),
            r == Err::<SequentialReader, ReaderError>(ReaderError::BadRingDepth) <==> (buffer_size
                > 0 && buffer_size % 4096 == 0 && num_buffer == 0),
            r is Ok <==> (buffer_size > 0 && buffer_size % 4096 == 0 && num_buffer > 0),
            r matches Ok(rd) ==> {
                &&& rd.wf()
                &&& rd.ring_depth() == num_buffer
                &&& rd.buf_size() == buffer_size
                &&& rd.file_len() == file_size
                &&& rd.start() == start_pos
                &&& rd.pos() == start_pos
                &&& rd.consumed() == 0
                &&& rd.current() == 0
                &&& rd.in_slot() == start_pos % 4096
                &&& rd.cursor() == start_pos - start_pos % 4096
                &&& rd.in_flight() == 0
                &&& !rd.filled()
                &&& !rd.failed()
                &&& forall|i: int|
                    0 <= i < num_buffer ==> #[trigger] rd.status_of(i)
                        == ReaderBufferStatus::Ready4Submit
                &&& forall|f: Seq<u8>| f.len() == file_size ==> #[trigger] rd.agrees_with(f)
            },
    {
        if buffer_size == 0 || buffer_size % 4096 != 0 {
            return Err(ReaderError::BadBufferSize);
        }
        if num_buffer == 0 {
            return Err(ReaderError::BadRingDepth);
        }
        let mut buffers: Vec<Buffer> = Vec::new();
        let mut buffers_status: Vec<ReaderBufferStatus> = Vec::new();
        let mut idx: usize = 0;
        while idx < num_buffer
            invariant
                idx <= num_buffer,
                buffers@.len() == idx,
                buffers_status@.len() == idx,
                forall|i: int|
                    0 <= i < idx ==> {
                        &&& (#[trigger] buffers@[i]).idx == i
                        &&& buffers@[i].data@.len() == buffer_size
                        &&& buffers@[i].len == 0
                        &&& buffers@[i].requested == 0
                    },
                forall|i: int|
                    0 <= i < idx ==> #[trigger] buffers_status@[i] == ReaderBufferStatus::Ready4Submit,
                count_submitted(buffers_status@) == 0,
            decreases num_buffer - idx,
        {
            buffers.push(Buffer::new(buffer_size, idx));
            let ghost prev = buffers_status@;
            buffers_status.push(ReaderBufferStatus::Ready4Submit);
            assert(buffers_status@.drop_last() =~= prev);
            idx = idx + 1;
        }
        let in_slot: u64 = start_pos % SECTOR_SIZE;
        let r = SequentialReader {
            buffers,
            buffers_status,
            buffer_size,
            data_pos: DataPos { buf_idx: 0, offset: in_slot as usize },
            file_pos_cursor: start_pos - in_slot,
            file_size,
            start_pos,
            read_pos: start_pos,
            init_flag: false,
            pending: 0,
            broken: false,
        };
        proof {
            assert((start_pos - start_pos % 4096) % 4096 == 0) by {
                vstd::arithmetic::div_mod::lemma_fundamental_div_mod(start_pos as int, 4096);
                vstd::arithmetic::div_mod::lemma_mod_multiples_basic(start_pos as int / 4096, 4096);
            }
            assert(r.wf());
            assert forall|f: Seq<u8>| f.len() == file_size implies #[trigger] r.agrees_with(f) by {}
        }
        Ok(r)
    }

    /// Issues the read of the block at the submission cursor into slot
    /// `buf_idx`, which stands for the block at `t`, and moves the cursor on
    /// by one buffer; past the end of the file the slot is marked `Invalid`
    /// and nothing is issued.
    fn submit_read_event(&mut self, buf_idx: usize, issued: &mut Vec<ReadRequest>, Ghost(t): Ghost<int>)
        requires
            old(self).shape_ok(),
            buf_idx < old(self).buffers@.len(),
            old(self).buffers_status@[buf_idx as int] != ReaderBufferStatus::Submitted,
            cursor_ok(
                old(self).file_pos_cursor as int,
                t,
                old(self).file_size as int,
                old(self).buffer_size as int,
            ),
            t % 4096 == 0,
        ensures
            final(self).shape_ok(),
            cursor_ok(
                final(self).file_pos_cursor as int,
                t + old(self).buffer_size,
                old(self).file_size as int,
                old(self).buffer_size as int,
            ),
            t < old(self).file_size ==> old(self).file_pos_cursor == t && final(self).file_pos_cursor
                == capped(t + old(self).buffer_size),
            t >= old(self).file_size ==> final(self).file_pos_cursor == old(self).file_pos_cursor,
            final(self).buffers_status@ == old(self).buffers_status@.update(
                buf_idx as int,
                if t < old(self).file_size {
                    ReaderBufferStatus::Submitted
                } else {
                    ReaderBufferStatus::Invalid
                },
            ),
            final(self).buffers@.len() == old(self).buffers@.len(),
            forall|j: int|
                0 <= j < old(self).buffers@.len() && j != buf_idx ==> #[trigger] final(self).buffers@[j]
                    == old(self).buffers@[j],
            final(self).buffers@[buf_idx as int].data == old(self).buffers@[buf_idx as int].data,
            final(self).buffers@[buf_idx as int].idx == old(self).buffers@[buf_idx as int].idx,
            t < old(self).file_size ==> {
                &&& final(self).buffers@[buf_idx as int].offset == t
                &&& final(self).buffers@[buf_idx as int].requested == block_len(
                    t,
                    old(self).buffer_size as int,
                    old(self).file_size as int,
                )
                &&& final(self).buffers@[buf_idx as int].len == 0
                &&& final(issued)@ == old(issued)@.push(
                    ReadRequest {
                        slot: buf_idx,
                        offset: t as u64,
                        len: block_len(t, old(self).buffer_size as int, old(self).file_size as int)
                            as usize,
                    },
                )
            },
            t >= old(self).file_size ==> {
                &&& final(self).buffers@[buf_idx as int] == old(self).buffers@[buf_idx as int]
                &&& final(issued)@ == old(issued)@
            },
            final(self).buffer_size == old(self).buffer_size,
            final(self).file_size == old(self).file_size,
            final(self).start_pos == old(self).start_pos,
            final(self).read_pos == old(self).read_pos,
            final(self).data_pos == old(self).data_pos,
            final(self).init_flag == old(self).init_flag,
            final(self).broken == old(self).broken,
            final(self).pending == old(self).pending + if t < old(self).file_size {
                1int
            } else {
                0int
            },
    {
        proof {
            lemma_count_update(
                self.buffers_status@,
                buf_idx as int,
                if t < self.file_size {
                    ReaderBufferStatus::Submitted
                } else {
                    ReaderBufferStatus::Invalid
                },
            );
            lemma_count_bound(self.buffers_status@.update(buf_idx as int, ReaderBufferStatus::Submitted));
        }
        if self.file_pos_cursor >= self.file_size {
            self.buffers_status.set(buf_idx, ReaderBufferStatus::Invalid);
            return;
        }
        let cursor: u64 = self.file_pos_cursor;
        let rest: u64 = self.file_size - cursor;
        let size: u64 = self.buffer_size as u64;
        let len: usize = if rest < size {
            rest as usize
        } else {
            self.buffer_size
        };
        self.buffers[buf_idx].offset = cursor;
        self.buffers[buf_idx].requested = len;
        self.buffers[buf_idx].len = 0;
        self.buffers_status.set(buf_idx, ReaderBufferStatus::Submitted);
        let n: usize = self.buffers_status.len();
        assert(self.pending + 1 <= n);
        self.pending = self.pending + 1;
        self.file_pos_cursor = if cursor <= u64::MAX - size {
            cursor + size
        } else {
            u64::MAX
        };
        issued.push(ReadRequest { slot: buf_idx, offset: cursor, len });
    }

    /// Issues the first read of every slot, in ring order.
    fn fill_pipeline(&mut self, issued: &mut Vec<ReadRequest>)
        requires
            old(self).wf(),
            !old(self).init_flag,
            !old(self).broken,
        ensures
            final(self).wf(),
            final(self).init_flag,
            !final(self).broken,
            final(self).same_config(*old(self)),
            final(self).read_pos == old(self).read_pos,
            final(self).data_pos == old(self).data_pos,
            final(issued)@.len() >= old(issued)@.len(),
            final(issued)@.subrange(0, old(issued)@.len() as int) == old(issued)@,
            final(issued)@.len() - old(issued)@.len() == final(self).pending - old(self).pending,
            final(self).requests_match(final(issued)@, old(issued)@.len() as int),
            final(self).requests_from(final(issued)@, old(issued)@.len() as int, old(self).cursor()),
            forall|q: int|
                old(issued)@.len() <= q < final(issued)@.len() ==> (#[trigger] final(issued)@[q]).slot
                    == q - old(issued)@.len(),
            final(self).cursor() == capped(
                old(self).cursor() + (final(issued)@.len() - old(issued)@.len()) * old(self).buf_size(),
            ),
            forall|f: Seq<u8>| #[trigger] old(self).agrees_with(f) ==> final(self).agrees_with(f),
    {
        let ghost base = self.base();
        let ghost pre = *self;
        let ghost issued0 = issued@;
        let n: usize = self.buffers.len();
        let mut i: usize = 0;
        proof {
            assert forall|j: int| 0 <= j < n implies #[trigger] self.buffers_status@[j]
                == ReaderBufferStatus::Ready4Submit by {
                assert(self.slot_laid_out(j));
            }
        }
        while i < n
            invariant
                self.shape_ok(),
                i <= n,
                n == self.buffers@.len(),
                self.same_config(pre),
                self.read_pos == pre.read_pos,
                self.data_pos == pre.data_pos,
                self.start_pos == pre.start_pos,
                !self.init_flag,
                !self.broken,
                pre.wf(),
                base == pre.base(),
                pre.file_pos_cursor == base,
                cursor_ok(
                    self.file_pos_cursor as int,
                    base + i * self.buffer_size,
                    self.file_size as int,
                    self.buffer_size as int,
                ),
                self.file_pos_cursor == capped(
                    base + (issued@.len() - issued0.len()) * self.buffer_size,
                ),
                self.requests_from(issued@, issued0.len() as int, base),
                forall|q: int|
                    issued0.len() <= q < issued@.len() ==> (#[trigger] issued@[q]).slot == q
                        - issued0.len(),
                issued@.len() - issued0.len() <= i,
                forall|j: int|
                    #![trigger self.buffers_status@[j]]
                    0 <= j < i ==> self.slot_placed(j, base + j * self.buffer_size),
                forall|j: int|
                    i <= j < n ==> #[trigger] self.buffers_status@[j]
                        == ReaderBufferStatus::Ready4Submit,
                forall|j: int|
                    0 <= j < n ==> #[trigger] self.buffers_status@[j]
                        != ReaderBufferStatus::Ready4Read,
                issued@.len() >= issued0.len(),
                issued@.subrange(0, issued0.len() as int) == issued0,
                issued@.len() - issued0.len() == self.pending - pre.pending,
                self.requests_match(issued@, issued0.len() as int),
            decreases n - i,
        {
            let ghost k = issued@.len() - issued0.len();
            proof {
                lemma_aligned_block(base, i as int, self.buffer_size as int);
                lemma_mul_step(i + 1, self.buffer_size as int);
                lemma_mul_step(i as int, self.buffer_size as int);
                lemma_mul_step(k + 1, self.buffer_size as int);
            }
            let ghost before = *self;
            let ghost issued_before = issued@;
            self.submit_read_event(i, issued, Ghost(base + i * self.buffer_size));
            proof {
                if base + i * self.buffer_size < self.file_size {
                    assert(base + k * self.buffer_size == base + i * self.buffer_size);
                    assert(k == i) by (nonlinear_arith)
                        requires
                            base + k * self.buffer_size == base + i * self.buffer_size,
                            self.buffer_size > 0,
                    ;
                }
                assert forall|q: int| issued0.len() <= q < issued@.len() implies {
                    let r = #[trigger] issued@[q];
                    &&& r.slot < self.ring_depth()
                    &&& self.status_of(r.slot as int) == ReaderBufferStatus::Submitted
                    &&& self.slot_offset(r.slot as int) == r.offset
                    &&& self.slot_request(r.slot as int) == r.len
                    &&& r.offset % 4096 == 0
                    &&& r.len == block_len(r.offset as int, self.buf_size() as int, self.file_len() as int)
                    &&& r.offset == base + (q - issued0.len()) * self.buf_size()
                    &&& r.slot == q - issued0.len()
                } by {
                    if q < issued_before.len() {
                        assert(issued_before[q] == issued@[q]);
                    }
                }
                assert(issued@.subrange(0, issued0.len() as int) =~= issued_before.subrange(
                    0,
                    issued0.len() as int,
                ));
            }
            i = i + 1;
        }
        self.init_flag = true;
        proof {
            assert forall|j: int| 0 <= j < self.buffers@.len() implies #[trigger] self.slot_laid_out(
                j,
            ) by {
                assert(self.dist(j) == j);
            }
        }
    }

    /// Copies `cnt` valid bytes of slot `k` from position `from` onto `dest`.
    /// Only a slot whose read has completed is copied from.
    fn copy_out(&self, k: usize, from: usize, cnt: usize, dest: &mut Vec<u8>)
        requires
            k < self.buffers@.len(),
            self.buffers_status@[k as int] == ReaderBufferStatus::Ready4Read,
            self.buffers@[k as int].len <= self.buffers@[k as int].data@.len(),
            from + cnt <= self.buffers@[k as int].len,
        ensures
            final(dest)@ == old(dest)@ + self.slot_bytes(k as int).subrange(
                from as int,
                from + cnt,
            ),
    {
        let mut t: usize = 0;
        while t < cnt
            invariant
                t <= cnt,
                k < self.buffers@.len(),
                from + cnt <= self.buffers@[k as int].len <= self.buffers@[k as int].data@.len(),
                dest@ == old(dest)@ + self.buffers@[k as int].data@.subrange(
                    from as int,
                    from + t,
                ),
            decreases cnt - t,
        {
            dest.push(self.buffers[k].data[from + t]);
            proof {
                assert(self.buffers@[k as int].data@.subrange(from as int, from + t + 1)
                    =~= self.buffers@[k as int].data@.subrange(from as int, from + t).push(
                    self.buffers@[k as int].data@[from + t],
                ));
            }
            t = t + 1;
        }
        proof {
            assert(self.slot_bytes(k as int).subrange(from as int, from + cnt)
                =~= self.buffers@[k as int].data@.subrange(from as int, from + cnt));
        }
    }

    /// Moves the request that `dest` is being filled for as far as it goes
    /// without waiting: `dest` grows towards `want` bytes with the file's
    /// bytes from the position on. Drained slots get their next block
    /// requested; every read that the caller must now issue is pushed onto
    /// `issued`. The first call that has bytes to deliver fills the ring.
    /// A request for more than the file still holds fails with
    /// `EndOfStream` and delivers nothing.
    pub fn read2buf(&mut self, dest: &mut Vec<u8>, want: usize, issued: &mut Vec<ReadRequest>) -> (r:
        Result<ReadStep, ReaderError>)
        requires
            old(self).wf(),
            old(dest)@.len() <= want,
        ensures
            final(self).wf(),
            final(self).same_config(*old(self)),
            final(self).failed() == old(self).failed(),
            old(self).failed() ==> r == Err::<ReadStep, ReaderError>(ReaderError::Broken),
            !old(self).failed() && want - old(dest)@.len() > old(self).left() ==> r == Err::<
                ReadStep,
                ReaderError,
            >(ReaderError::EndOfStream),
            !old(self).failed() && want - old(dest)@.len() <= old(self).left() ==> r is Ok,
            r is Err ==> {
                &&& *final(self) == *old(self)
                &&& final(dest)@ == old(dest)@
                &&& final(issued)@ == old(issued)@
            },
            r is Ok ==> {
                &&& want > old(dest)@.len() ==> final(self).filled()
                &&& final(dest)@.len() <= want
                &&& final(dest)@.len() >= old(dest)@.len()
                &&& final(dest)@.subrange(0, old(dest)@.len() as int) == old(dest)@
                &&& final(self).pos() == old(self).pos() + final(dest)@.len() - old(dest)@.len()
                &&& (r == Ok::<ReadStep, ReaderError>(ReadStep::Done) <==> final(dest)@.len()
                    == want)
                &&& (r == Ok::<ReadStep, ReaderError>(ReadStep::NeedCompletion) ==> {
                    &&& final(self).status_of(final(self).current())
                        == ReaderBufferStatus::Submitted
                    &&& final(self).in_flight() > 0
                })
                &&& final(issued)@.len() >= old(issued)@.len()
                &&& final(issued)@.subrange(0, old(issued)@.len() as int) == old(issued)@
                &&& final(issued)@.len() - old(issued)@.len() == final(self).in_flight()
                    - old(self).in_flight()
                &&& final(self).requests_match(final(issued)@, old(issued)@.len() as int)
                &&& final(self).requests_from(final(issued)@, old(issued)@.len() as int, old(self).cursor())
                &&& final(self).cursor() == capped(
                    old(self).cursor() + (final(issued)@.len() - old(issued)@.len())
                        * old(self).buf_size(),
                )
                &&& forall|i: int|
                    0 <= i < old(self).ring_depth() && old(self).status_of(i)
                        == ReaderBufferStatus::Invalid ==> #[trigger] final(self).status_of(i)
                        == ReaderBufferStatus::Invalid
            },
            old(self).filled() && !old(self).failed() && want > old(dest)@.len() && want - old(
                dest,
            )@.len() <= old(self).left() && old(self).status_of(old(self).current())
                == ReaderBufferStatus::Ready4Read ==> final(dest)@.len() > old(dest)@.len(),
            forall|f: Seq<u8>| #[trigger]
                old(self).agrees_with(f) ==> {
                    &&& final(self).agrees_with(f)
                    &&& final(dest)@.len() > old(dest)@.len() ==> final(dest)@ == old(dest)@ + f.subrange(
                        old(self).pos() as int,
                        final(self).pos() as int,
                    )
                },
    {
        if self.broken {
            return Err(ReaderError::Broken);
        }
        let need: usize = want - dest.len();
        let rest: u64 = if self.read_pos <= self.file_size {
            self.file_size - self.read_pos
        } else {
            0
        };
        if need as u64 > rest {
            return Err(ReaderError::EndOfStream);
        }
        let ghost pre = *self;
        let ghost dest0 = dest@;
        let ghost issued0 = issued@;
        proof {
            if !self.init_flag {
                assert forall|i: int| 0 <= i < self.buffers@.len() implies #[trigger]
                    self.buffers_status@[i] != ReaderBufferStatus::Invalid by {
                    assert(self.slot_laid_out(i));
                }
            }
        }
        if need > 0 && !self.init_flag {
            self.fill_pipeline(issued);
        }
        proof {
            assert(issued@.subrange(0, issued0.len() as int) =~= issued0);
            if issued@.len() == issued0.len() {
                assert((issued@.len() - issued0.len()) * self.buffer_size == 0) by (nonlinear_arith)
                    requires
                        issued@.len() == issued0.len(),
                ;
            }
            assert forall|i: int|
                0 <= i < pre.buffers@.len() && pre.buffers_status@[i]
                    == ReaderBufferStatus::Invalid implies #[trigger] self.buffers_status@[i]
                == ReaderBufferStatus::Invalid by {
                if !pre.init_flag {
                    assert(pre.slot_laid_out(i));
                }
            }
        }
        while dest.len() < want
            invariant
                pre == *old(self),
                !pre.broken,
                dest0 == old(dest)@,
                issued0 == old(issued)@,
                self.wf(),
                !self.broken,
                self.init_flag || dest@.len() == want,
                want > dest0.len() ==> self.init_flag,
                self.same_config(pre),
                dest0.len() <= dest@.len() <= want,
                want - dest@.len() <= self.left(),
                self.read_pos == pre.read_pos + dest@.len() - dest0.len(),
                dest@.subrange(0, dest0.len() as int) == dest0,
                forall|f: Seq<u8>| #[trigger]
                    pre.agrees_with(f) ==> self.agrees_with(f) && (dest@.len() > dest0.len() ==> dest@ == dest0 + f.subrange(
                        pre.read_pos as int,
                        self.read_pos as int,
                    )),
                issued@.len() >= issued0.len(),
                issued@.subrange(0, issued0.len() as int) == issued0,
                issued@.len() - issued0.len() == self.pending - pre.pending,
                self.requests_match(issued@, issued0.len() as int),
                self.requests_from(issued@, issued0.len() as int, pre.file_pos_cursor as int),
                self.file_pos_cursor == capped(
                    pre.file_pos_cursor + (issued@.len() - issued0.len()) * self.buffer_size,
                ),
                forall|i: int|
                    0 <= i < pre.buffers@.len() && pre.buffers_status@[i]
                        == ReaderBufferStatus::Invalid ==> #[trigger] self.buffers_status@[i]
                        == ReaderBufferStatus::Invalid,
                pre.init_flag && dest@.len() == dest0.len() ==> self.buffers_status@
                    == pre.buffers_status@ && self.data_pos == pre.data_pos,
            decreases want - dest@.len(),
        {
            let k: usize = self.data_pos.buf_idx;
            proof {
                assert(self.slot_laid_out(k as int));
                assert(self.dist(k as int) == 0);
            }
            if self.buffers_status[k] != ReaderBufferStatus::Ready4Read {
                proof {
                    lemma_count_bound(self.buffers_status@);
                }
                return Ok(ReadStep::NeedCompletion);
            }
            let off: usize = self.data_pos.offset;
            let left: usize = want - dest.len();
            let cnt: usize = if left < self.buffer_size - off {
                left
            } else {
                self.buffer_size - off
            };
            let ghost mid = *self;
            let ghost dest_mid = dest@;
            self.copy_out(k, off, cnt, dest);
            self.data_pos.offset = off + cnt;
            self.read_pos = self.read_pos + cnt as u64;
            proof {
                assert(dest@.subrange(0, dest0.len() as int) =~= dest0);
                assert forall|f: Seq<u8>| #[trigger] pre.agrees_with(f) implies self.agrees_with(f)
                    && dest@ == dest0 + f.subrange(pre.read_pos as int, self.read_pos as int) by {
                    assert(mid.agrees_with(f));
                    assert(slot_agrees(mid.buffers@[k as int], f));
                    let b = mid.base();
                    let len = mid.buffers@[k as int].len as int;
                    assert(f.subrange(b, b + len).subrange(off as int, off + cnt) =~= f.subrange(
                        mid.read_pos as int,
                        self.read_pos as int,
                    ));
                    assert(dest@ =~= dest0 + f.subrange(pre.read_pos as int, self.read_pos as int));
                }
            }
            if self.data_pos.offset == self.buffer_size {
                let ghost base = mid.base();
                let ghost n = self.buffers@.len() as int;
                let ghost sz = self.buffer_size as int;
                let ghost s1 = *self;
                let ghost issued1 = issued@;
                let ghost m = issued@.len() - issued0.len();
                proof {
                    lemma_aligned_block(base, n, sz);
                    lemma_mul_step(n, sz);
                    lemma_mul_step(n - 1, sz);
                    lemma_mul_step(m + 1, sz);
                    assert(self.file_pos_cursor == capped(pre.file_pos_cursor + m * sz));
                }
                self.submit_read_event(k, issued, Ghost(base + n * sz));
                let n_slots: usize = self.buffers.len();
                let next: usize = if k < n_slots - 1 {
                    k + 1
                } else {
                    0
                };
                self.data_pos.buf_idx = next;
                self.data_pos.offset = 0;
                proof {
                    assert forall|i: int| 0 <= i < self.buffers@.len() implies #[trigger] self.slot_laid_out(
                        i,
                    ) by {
                        if i != k {
                            assert(mid.slot_laid_out(i));
                            lemma_mul_step(mid.dist(i), sz);
                            assert(self.buffers_status@[i] == mid.buffers_status@[i]);
                        }
                    }
                    assert forall|q: int| issued0.len() <= q < issued@.len() implies {
                        let r = #[trigger] issued@[q];
                        &&& r.slot < self.ring_depth()
                        &&& self.status_of(r.slot as int) == ReaderBufferStatus::Submitted
                        &&& self.slot_offset(r.slot as int) == r.offset
                        &&& self.slot_request(r.slot as int) == r.len
                        &&& r.offset % 4096 == 0
                        &&& r.len == block_len(r.offset as int, self.buf_size() as int, self.file_len() as int)
                        &&& r.offset == pre.file_pos_cursor + (q - issued0.len()) * self.buf_size()
                    } by {
                        if q < issued1.len() {
                            assert(issued1[q] == issued@[q]);
                        }
                    }
                    assert(issued@.subrange(0, issued0.len() as int) =~= issued1.subrange(
                        0,
                        issued0.len() as int,
                    ));
                    assert forall|f: Seq<u8>| #[trigger] pre.agrees_with(f) implies self.agrees_with(
                        f,
                    ) by {
                        assert(s1.agrees_with(f));
                    }
                    assert(self.wf());
                }
            } else {
                proof {
                    assert forall|i: int| 0 <= i < self.buffers@.len() implies #[trigger] self.slot_laid_out(
                        i,
                    ) by {
                        assert(mid.slot_laid_out(i));
                    }
                    assert(self.wf());
                }
            }
        }
        Ok(ReadStep::Done)
    }

    /// Records that the read outstanding on slot `idx` finished with `data`.
    /// A completion for a slot with no outstanding read is refused. One that
    /// delivered another number of bytes than was asked for ends the slot's
    /// reads and breaks the reader, which then delivers nothing more.
    pub fn on_completion(&mut self, idx: usize, data: &[u8]) -> (r: Result<(), ReaderError>)
        requires
            old(self).wf(),
        ensures
            final(self).wf(),
            final(self).same_config(*old(self)),
            r == Err::<(), ReaderError>(ReaderError::UnknownSlot) <==> (idx >= old(self).ring_depth()
                || old(self).status_of(idx as int) != ReaderBufferStatus::Submitted),
            r == Err::<(), ReaderError>(ReaderError::UnknownSlot) ==> *final(self) == *old(self),
            r == Err::<(), ReaderError>(ReaderError::ShortRead) <==> (idx < old(self).ring_depth()
                && old(self).status_of(idx as int) == ReaderBufferStatus::Submitted && data@.len()
                != old(self).slot_request(idx as int)),
            r is Ok <==> (idx < old(self).ring_depth() && old(self).status_of(idx as int)
                == ReaderBufferStatus::Submitted && data@.len() == old(self).slot_request(idx as int)),
            r == Err::<(), ReaderError>(ReaderError::ShortRead) ==> {
                &&& final(self).failed()
                &&& final(self).statuses() == old(self).statuses().update(
                    idx as int,
                    ReaderBufferStatus::Invalid,
                )
                &&& final(self).in_flight() == old(self).in_flight() - 1
            },
            r is Ok ==> {
                &&& final(self).statuses() == old(self).statuses().update(
                    idx as int,
                    ReaderBufferStatus::Ready4Read,
                )
                &&& final(self).slot_bytes(idx as int) == data@
                &&& final(self).slot_len(idx as int) == data@.len()
                &&& final(self).slot_offset(idx as int) == old(self).slot_offset(idx as int)
                &&& final(self).slot_request(idx as int) == old(self).slot_request(idx as int)
                &&& final(self).in_flight() == old(self).in_flight() - 1
                &&& final(self).failed() == old(self).failed()
            },
            final(self).pos() == old(self).pos(),
            final(self).current() == old(self).current(),
            final(self).in_slot() == old(self).in_slot(),
            final(self).cursor() == old(self).cursor(),
            final(self).filled() == old(self).filled(),
            forall|f: Seq<u8>| #[trigger]
                old(self).agrees_with(f) && (r is Ok ==> data@ == f.subrange(
                    old(self).slot_offset(idx as int),
                    old(self).slot_offset(idx as int) + old(self).slot_request(idx as int),
                )) ==> final(self).agrees_with(f),
    {
        if idx >= self.buffers.len() || self.buffers_status[idx] != ReaderBufferStatus::Submitted {
            return Err(ReaderError::UnknownSlot);
        }
        proof {
            lemma_count_update(self.buffers_status@, idx as int, ReaderBufferStatus::Invalid);
            lemma_count_update(self.buffers_status@, idx as int, ReaderBufferStatus::Ready4Read);
        }
        let ghost pre = *self;
        if data.len() != self.buffers[idx].requested {
            self.buffers_status.set(idx, ReaderBufferStatus::Invalid);
            self.pending = self.pending - 1;
            self.broken = true;
            return Err(ReaderError::ShortRead);
        }
        self.buffers[idx].fill_from(data);
        self.buffers_status.set(idx, ReaderBufferStatus::Ready4Read);
        self.pending = self.pending - 1;
        proof {
            assert(self.slot_bytes(idx as int) =~= data@);
            assert forall|i: int| 0 <= i < self.buffers@.len() implies #[trigger] self.buffers@[i].idx
                == i && self.buffers@[i].data@.len() == self.buffer_size && self.buffers@[i].len
                <= self.buffer_size by {
                if i != idx {
                    assert(self.buffers@[i] == pre.buffers@[i]);
                }
            }
            assert forall|i: int| 0 <= i < self.buffers@.len() implies {
                &&& (#[trigger] self.buffers_status@[i] == ReaderBufferStatus::Submitted
                    ==> self.buffers@[i].len == 0)
                &&& (self.buffers_status@[i] == ReaderBufferStatus::Ready4Read
                    ==> self.buffers@[i].len == self.buffers@[i].requested)
            } by {
                if i != idx {
                    assert(self.buffers@[i] == pre.buffers@[i]);
                    assert(self.buffers_status@[i] == pre.buffers_status@[i]);
                }
            }
            if !self.broken {
                assert forall|i: int| 0 <= i < self.buffers@.len() implies #[trigger] self.slot_laid_out(
                    i,
                ) by {
                    assert(pre.slot_laid_out(i));
                }
            }
            assert forall|f: Seq<u8>| #[trigger]
                pre.agrees_with(f) && data@ == f.subrange(
                    pre.buffers@[idx as int].offset as int,
                    pre.buffers@[idx as int].offset + pre.buffers@[idx as int].requested,
                ) implies self.agrees_with(f) by {
                assert forall|i: int|
                    0 <= i < self.buffers@.len() && self.buffers_status@[i]
                        == ReaderBufferStatus::Ready4Read implies slot_agrees(
                    #[trigger] self.buffers@[i],
                    f,
                ) by {
                    if i != idx {
                        assert(self.buffers@[i] == pre.buffers@[i]);
                    }
                }
            }
        }
        Ok(())
    }

    /// Records that the read outstanding on slot `idx` failed, or could not
    /// be issued. The slot gets no further reads and the reader is broken:
    /// every later `read2buf` fails with `Broken` instead of waiting for a
    /// completion that will not come.
    pub fn fail_request(&mut self, idx: usize) -> (r: Result<(), ReaderError>)
        requires
            old(self).wf(),
        ensures
            final(self).wf(),
            final(self).same_config(*old(self)),
            r == Err::<(), ReaderError>(ReaderError::UnknownSlot) <==> (idx >= old(self).ring_depth()
                || old(self).status_of(idx as int) != ReaderBufferStatus::Submitted),
            r is Err ==> *final(self) == *old(self),
            r is Ok <==> (idx < old(self).ring_depth() && old(self).status_of(idx as int)
                == ReaderBufferStatus::Submitted),
            r is Ok ==> {
                &&& final(self).failed()
                &&& final(self).statuses() == old(self).statuses().update(
                    idx as int,
                    ReaderBufferStatus::Invalid,
                )
                &&& final(self).in_flight() == old(self).in_flight() - 1
            },
            final(self).pos() == old(self).pos(),
            forall|f: Seq<u8>| #[trigger] old(self).agrees_with(f) ==> final(self).agrees_with(f),
    {
        if idx >= self.buffers.len() || self.buffers_status[idx] != ReaderBufferStatus::Submitted {
            return Err(ReaderError::UnknownSlot);
        }
        proof {
            lemma_count_update(self.buffers_status@, idx as int, ReaderBufferStatus::Invalid);
        }
        self.buffers_status.set(idx, ReaderBufferStatus::Invalid);
        self.pending = self.pending - 1;
        self.broken = true;
        Ok(())
    }

    /// File offset of the next byte handed to the consumer.
    pub fn position(&self) -> (r: u64)
        ensures
            r == self.pos(),
    {
        self.read_pos
    }

    /// Bytes of the file from the position on: the most a request may ask for.
    pub fn remaining(&self) -> (r: u64)
        ensures
            r == self.left(),
    {
        if self.read_pos <= self.file_size {
            self.file_size - self.read_pos
        } else {
            0
        }
    }

    /// The submission cursor: the next file offset to request.
    pub fn submission_cursor(&self) -> (r: u64)
        ensures
            r == self.cursor(),
    {
        self.file_pos_cursor
    }

    /// Number of reads outstanding.
    pub fn outstanding(&self) -> (r: usize)
        ensures
            r == self.in_flight(),
    {
        self.pending
    }

    /// Status of slot `i`.
    pub fn status(&self, i: usize) -> (r: ReaderBufferStatus)
        requires
            self.wf(),
            i < self.ring_depth(),
        ensures
            r == self.status_of(i as int),
    {
        self.buffers_status[i]
    }

    /// Number of slots in the ring.
    pub fn num_buffers(&self) -> (r: usize)
        ensures
            r == self.ring_depth(),
    {
        self.buffers.len()
    }

    /// Size of each slot in bytes.
    pub fn buffer_size(&self) -> (r: usize)
        ensures
            r == self.buf_size(),
    {
        self.buffer_size
    }

    /// Size of the file.
    pub fn file_size(&self) -> (r: u64)
        ensures
            r == self.file_len(),
    {
        self.file_size
    }

    /// Whether a read failed.
    pub fn is_broken(&self) -> (r: bool)
        ensures
            r == self.failed(),
    {
        self.broken
    }

    /// No more bytes are handed out than the file holds past the start.
    /// A reader that starts past the end of the file hands out nothing.
    pub proof fn lemma_consumed_within_file(&self)
        requires
            self.wf(),
        ensures
            self.start() <= self.pos(),
            self.start() <= self.file_len() ==> self.consumed() <= self.file_len() - self.start(),
            self.start() <= self.file_len() ==> self.pos() + self.left() == self.file_len(),
            self.start() > self.file_len() ==> self.pos() == self.start() && self.consumed() == 0,
    {
    }

    /// Each outstanding read belongs to its own slot, so no more reads are
    /// outstanding than the ring has slots.
    pub proof fn lemma_outstanding_bounded(&self)
        requires
            self.wf(),
        ensures
            self.in_flight() == count_submitted(self.statuses()),
            self.in_flight() <= self.ring_depth(),
    {
        lemma_count_bound(self.buffers_status@);
    }

    /// Once the ring is filled, the slot the consumer copies from next has
    /// had the block at the consumer's position requested: its read is
    /// outstanding or done, and the position lies inside it.
    pub proof fn lemma_current_slot(&self)
        requires
            self.wf(),
            self.filled(),
            !self.failed(),
            self.pos() < self.file_len(),
        ensures
            self.status_of(self.current()) == ReaderBufferStatus::Submitted || self.status_of(
                self.current(),
            ) == ReaderBufferStatus::Ready4Read,
            self.slot_offset(self.current()) + self.in_slot() == self.pos(),
            self.pos() < self.slot_offset(self.current()) + self.slot_request(self.current()),
    {
        assert(self.slot_laid_out(self.current()));
        assert(self.dist(self.current()) == 0);
    }
}

/// Bytes delivered by consecutive requests, joined, are the file's bytes
/// from where the first began to where the last ended.
pub proof fn lemma_deliveries_join(f: Seq<u8>, a: int, b: int, c: int, x: Seq<u8>, y: Seq<u8>)
    requires
        0 <= a <= b <= c <= f.len(),
        x == f.subrange(a, b),
        y == f.subrange(b, c),
    ensures
        x + y == f.subrange(a, c),
{
    assert(x + y =~= f.subrange(a, c));
}

} // verus!
