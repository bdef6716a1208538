use seq_reader::buffer::{Buffer, ReadRequest, ReaderBufferStatus};
use seq_reader::reader::{ReadStep, ReaderError, SequentialReader};

/// Order in which the simulated device finishes outstanding reads.
#[derive(Clone, Copy)]
enum Order {
    Fifo,
    Lifo,
}

/// A device that serves issued reads from an in-memory file.
struct Device {
    file: Vec<u8>,
    queue: Vec<ReadRequest>,
    submissions: Vec<ReadRequest>,
    max_outstanding: usize,
    order: Order,
}

impl Device {
    fn new(file: Vec<u8>, order: Order) -> Device {
        Device { file, queue: Vec::new(), submissions: Vec::new(), max_outstanding: 0, order }
    }

    fn take(&mut self, issued: Vec<ReadRequest>) {
        for r in issued {
            self.submissions.push(r);
            self.queue.push(r);
        }
    }

    fn finish_one(&mut self, rd: &mut SequentialReader) {
        let req = match self.order {
            Order::Fifo => self.queue.remove(0),
            Order::Lifo => self.queue.pop().unwrap(),
        };
        let start = req.offset as usize;
        let data = self.file[start..start + req.len].to_vec();
        rd.on_completion(req.slot, &data).unwrap();
    }

    fn read(&mut self, rd: &mut SequentialReader, want: usize) -> Result<Vec<u8>, ReaderError> {
        let mut dest: Vec<u8> = Vec::new();
        loop {
            let mut issued: Vec<ReadRequest> = Vec::new();
            let step = rd.read2buf(&mut dest, want, &mut issued);
            self.take(issued);
            self.max_outstanding = self.max_outstanding.max(rd.outstanding());
            assert_eq!(rd.outstanding(), self.queue.len());
            match step? {
                ReadStep::Done => return Ok(dest),
                ReadStep::NeedCompletion => self.finish_one(rd),
            }
        }
    }
}

fn file_of(len: usize) -> Vec<u8> {
    (0..len).map(|i| ((i * 7 + i / 251) % 256) as u8).collect()
}

#[test]
fn whole_file_in_one_request_takes_three_submissions() {
    let file = file_of(12288);
    let mut dev = Device::new(file.clone(), Order::Fifo);
    let mut rd = SequentialReader::new(0, 12288, 4096, 2).unwrap();
    let got = dev.read(&mut rd, 12288).unwrap();
    assert_eq!(got, file);
    assert_eq!(dev.submissions.len(), 3);
    assert_eq!(dev.submissions[0].offset, 0);
    assert_eq!(dev.submissions[1].offset, 4096);
    assert_eq!(dev.submissions[2].offset, 8192);
    assert_eq!(dev.submissions[2].slot, 0);
    assert_eq!(rd.remaining(), 0);
    assert_eq!(rd.status(1), ReaderBufferStatus::Invalid);
}

#[test]
fn requests_straddling_slot_boundaries_with_one_slot() {
    let file = file_of(10000);
    let mut dev = Device::new(file.clone(), Order::Fifo);
    let mut rd = SequentialReader::new(0, 10000, 4096, 1).unwrap();
    for i in 0..10 {
        let got = dev.read(&mut rd, 1000).unwrap();
        assert_eq!(got, file[i * 1000..(i + 1) * 1000].to_vec());
    }
    assert_eq!(rd.position(), 10000);
    assert_eq!(dev.read(&mut rd, 1), Err(ReaderError::EndOfStream));
    let last = dev.submissions.last().unwrap();
    assert_eq!(last.offset, 8192);
    assert_eq!(last.len, 1808);
}

#[test]
fn file_smaller_than_one_buffer() {
    let file = file_of(100);
    let mut dev = Device::new(file.clone(), Order::Fifo);
    let mut rd = SequentialReader::new(0, 100, 4096, 2).unwrap();
    assert_eq!(dev.read(&mut rd, 4096), Err(ReaderError::EndOfStream));
    assert_eq!(rd.position(), 0);
    assert_eq!(dev.submissions.len(), 0);
    let got = dev.read(&mut rd, 100).unwrap();
    assert_eq!(got, file);
    assert_eq!(dev.submissions.len(), 1);
    assert_eq!(dev.submissions[0].len, 100);
    assert_eq!(dev.read(&mut rd, 1), Err(ReaderError::EndOfStream));
    assert_eq!(dev.read(&mut rd, 0), Ok(Vec::new()));
}

#[test]
fn unaligned_start_delivers_the_requested_byte_first() {
    let file = file_of(20000);
    let mut dev = Device::new(file.clone(), Order::Fifo);
    let mut rd = SequentialReader::new(5000, 20000, 4096, 3).unwrap();
    let got = dev.read(&mut rd, 10).unwrap();
    assert_eq!(got[0], file[5000]);
    assert_eq!(got, file[5000..5010].to_vec());
    assert_eq!(dev.submissions[0].offset, 4096);
    let rest = dev.read(&mut rd, 20000 - 5010).unwrap();
    assert_eq!(rest, file[5010..].to_vec());
    assert_eq!(dev.read(&mut rd, 1), Err(ReaderError::EndOfStream));
}

#[test]
fn concatenated_reads_equal_the_file_for_many_shapes() {
    let sizes = [1usize, 7, 4096, 4097, 333, 8192, 0, 12000];
    for &depth in &[1usize, 2, 3, 5] {
        for &order in &[Order::Fifo, Order::Lifo] {
            for &start in &[0u64, 1, 4095, 4096, 9000] {
                let len = 40000usize;
                let file = file_of(len);
                let mut dev = Device::new(file.clone(), order);
                let mut rd = SequentialReader::new(start, len as u64, 8192, depth).unwrap();
                let mut out: Vec<u8> = Vec::new();
                let mut k = 0;
                loop {
                    let want = sizes[k % sizes.len()].min(rd.remaining() as usize);
                    if rd.remaining() == 0 {
                        break;
                    }
                    out.extend(dev.read(&mut rd, want).unwrap());
                    k += 1;
                }
                assert_eq!(out, file[start as usize..].to_vec());
                assert!(dev.max_outstanding <= depth);
                for r in &dev.submissions {
                    assert_eq!(r.offset % 4096, 0);
                }
            }
        }
    }
}

#[test]
fn consumed_bytes_stay_within_the_file() {
    let file = file_of(9000);
    let mut dev = Device::new(file.clone(), Order::Lifo);
    let mut rd = SequentialReader::new(100, 9000, 4096, 2).unwrap();
    assert_eq!(rd.remaining(), 8900);
    assert_eq!(dev.read(&mut rd, 8901), Err(ReaderError::EndOfStream));
    let got = dev.read(&mut rd, 8900).unwrap();
    assert_eq!(got, file[100..].to_vec());
    assert_eq!(rd.position() - 100, 8900);
    assert_eq!(rd.remaining(), 0);
}

#[test]
fn outstanding_reads_never_exceed_ring_depth() {
    let file = file_of(100000);
    let mut dev = Device::new(file, Order::Fifo);
    let mut rd = SequentialReader::new(0, 100000, 4096, 4).unwrap();
    let _ = dev.read(&mut rd, 1).unwrap();
    assert_eq!(rd.outstanding(), 3);
    let _ = dev.read(&mut rd, 50000).unwrap();
    assert!(dev.max_outstanding <= 4);
    assert_eq!(dev.max_outstanding, 4);
}

#[test]
fn a_slot_with_a_read_outstanding_is_not_copied_from() {
    let file = file_of(16384);
    let mut rd = SequentialReader::new(0, 16384, 4096, 2).unwrap();
    let mut dest: Vec<u8> = Vec::new();
    let mut issued: Vec<ReadRequest> = Vec::new();
    assert_eq!(rd.read2buf(&mut dest, 10, &mut issued), Ok(ReadStep::NeedCompletion));
    assert_eq!(dest.len(), 0);
    assert_eq!(issued.len(), 2);
    assert_eq!(rd.status(0), ReaderBufferStatus::Submitted);
    assert_eq!(rd.status(1), ReaderBufferStatus::Submitted);
    // the second slot finishes first: the consumer still waits for the first
    rd.on_completion(1, &file[4096..8192]).unwrap();
    let mut more: Vec<ReadRequest> = Vec::new();
    assert_eq!(rd.read2buf(&mut dest, 10, &mut more), Ok(ReadStep::NeedCompletion));
    assert_eq!(dest.len(), 0);
    rd.on_completion(0, &file[0..4096]).unwrap();
    assert_eq!(rd.read2buf(&mut dest, 10, &mut more), Ok(ReadStep::Done));
    assert_eq!(dest, file[0..10].to_vec());
    assert_eq!(more.len(), 0);
}

#[test]
fn construction_errors() {
    assert!(matches!(SequentialReader::new(0, 10, 0, 1), Err(ReaderError::BadBufferSize)));
    assert!(matches!(SequentialReader::new(0, 10, 1000, 1), Err(ReaderError::BadBufferSize)));
    assert!(matches!(SequentialReader::new(0, 10, 4096, 0), Err(ReaderError::BadRingDepth)));
    let rd = SequentialReader::new(7, 10, 8192, 3).unwrap();
    assert_eq!(rd.num_buffers(), 3);
    assert_eq!(rd.buffer_size(), 8192);
    assert_eq!(rd.file_size(), 10);
    assert_eq!(rd.position(), 7);
    assert_eq!(rd.outstanding(), 0);
    assert_eq!(rd.status(2), ReaderBufferStatus::Ready4Submit);
}

#[test]
fn completion_for_an_idle_slot_is_refused() {
    let mut rd = SequentialReader::new(0, 8192, 4096, 1).unwrap();
    assert_eq!(rd.on_completion(0, &[0u8; 4096]), Err(ReaderError::UnknownSlot));
    assert_eq!(rd.on_completion(5, &[0u8; 4096]), Err(ReaderError::UnknownSlot));
    assert_eq!(rd.fail_request(0), Err(ReaderError::UnknownSlot));
}

#[test]
fn short_completion_breaks_the_reader() {
    let mut rd = SequentialReader::new(0, 8192, 4096, 1).unwrap();
    let mut dest: Vec<u8> = Vec::new();
    let mut issued: Vec<ReadRequest> = Vec::new();
    assert_eq!(rd.read2buf(&mut dest, 10, &mut issued), Ok(ReadStep::NeedCompletion));
    assert_eq!(rd.on_completion(0, &[1u8; 100]), Err(ReaderError::ShortRead));
    assert!(rd.is_broken());
    assert_eq!(rd.outstanding(), 0);
    assert_eq!(rd.read2buf(&mut dest, 10, &mut issued), Err(ReaderError::Broken));
}

#[test]
fn failed_submission_is_reported_instead_of_waiting() {
    let mut rd = SequentialReader::new(0, 8192, 4096, 2).unwrap();
    let mut dest: Vec<u8> = Vec::new();
    let mut issued: Vec<ReadRequest> = Vec::new();
    assert_eq!(rd.read2buf(&mut dest, 10, &mut issued), Ok(ReadStep::NeedCompletion));
    assert_eq!(rd.fail_request(0), Ok(()));
    assert_eq!(rd.status(0), ReaderBufferStatus::Invalid);
    assert_eq!(rd.outstanding(), 1);
    assert_eq!(rd.read2buf(&mut dest, 10, &mut issued), Err(ReaderError::Broken));
    assert_eq!(rd.on_completion(1, &[0u8; 4096]), Ok(()));
    assert_eq!(rd.outstanding(), 0);
}

#[test]
fn start_past_the_end_delivers_nothing() {
    let mut dev = Device::new(file_of(100), Order::Fifo);
    let mut rd = SequentialReader::new(5000, 100, 4096, 2).unwrap();
    assert_eq!(rd.remaining(), 0);
    assert_eq!(dev.read(&mut rd, 1), Err(ReaderError::EndOfStream));
    assert_eq!(dev.read(&mut rd, 0), Ok(Vec::new()));
    assert_eq!(dev.submissions.len(), 0);
}

#[test]
fn request_offset_halves() {
    let r = ReadRequest { slot: 0, offset: 0x1_0000_0005, len: 4096 };
    assert_eq!(r.offset_low(), 5);
    assert_eq!(r.offset_high(), 1);
    let q = ReadRequest { slot: 0, offset: 0xFFFF_FFFF, len: 1 };
    assert_eq!(q.offset_low(), 0xFFFF_FFFF);
    assert_eq!(q.offset_high(), 0);
}

#[test]
fn new_slot_is_zeroed() {
    let b = Buffer::new(8192, 3);
    assert_eq!(b.idx, 3);
    assert_eq!(b.len, 0);
    assert_eq!(b.offset, 0);
    assert_eq!(b.data.len(), 8192);
    assert!(b.data.iter().all(|&x| x == 0));
}

#[test]
fn cursor_moves_by_whole_buffers_past_a_short_block() {
    let file = file_of(10000);
    let mut dev = Device::new(file.clone(), Order::Fifo);
    let mut rd = SequentialReader::new(0, 10000, 4096, 1).unwrap();
    assert_eq!(rd.submission_cursor(), 0);
    let _ = dev.read(&mut rd, 1).unwrap();
    assert_eq!(rd.submission_cursor(), 4096);
    let _ = dev.read(&mut rd, 8191).unwrap();
    assert_eq!(rd.submission_cursor(), 12288);
    assert_eq!(rd.submission_cursor() % 4096, 0);
    let rest = dev.read(&mut rd, 10000 - 8192).unwrap();
    assert_eq!(rest, file[8192..].to_vec());
    assert_eq!(rd.submission_cursor(), 12288);
    assert_eq!(rd.status(0), ReaderBufferStatus::Ready4Read);
    assert_eq!(dev.read(&mut rd, 1), Err(ReaderError::EndOfStream));
}

#[test]
fn unaligned_start_cursor_is_rounded_down() {
    let rd = SequentialReader::new(5000, 20000, 4096, 2).unwrap();
    assert_eq!(rd.submission_cursor(), 4096);
    assert_eq!(rd.position(), 5000);
}

#[test]
fn completion_with_requested_length_is_accepted() {
    let file = file_of(5000);
    let mut rd = SequentialReader::new(0, 5000, 4096, 2).unwrap();
    let mut dest: Vec<u8> = Vec::new();
    let mut issued: Vec<ReadRequest> = Vec::new();
    assert_eq!(rd.read2buf(&mut dest, 5000, &mut issued), Ok(ReadStep::NeedCompletion));
    assert_eq!(issued[1].len, 904);
    assert_eq!(rd.on_completion(1, &file[4096..5000]), Ok(()));
    assert_eq!(rd.on_completion(0, &file[0..4096]), Ok(()));
    assert_eq!(rd.read2buf(&mut dest, 5000, &mut issued), Ok(ReadStep::Done));
    assert_eq!(dest, file);
}
