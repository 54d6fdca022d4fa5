//! The write-ahead log: an append-only sequence of frames.
//!
//! A record is the bytes intended for one page. It is split into chunks of
//! `CHUNK_SIZE` bytes, one frame per chunk; an empty record is one frame with
//! an empty payload and a chunk count of zero. Replay reads the log frame by
//! frame from a byte offset and delivers each record whose chunks have all
//! arrived, until the log ends or a frame is short or malformed.

use vstd::prelude::*;
use vstd::bytes::{spec_u64_to_le_bytes, u64_to_le_bytes};
use vstd::slice::slice_subrange;
use crate::bytes::append_bytes;
use crate::frame::{frame_bytes, Frame, FrameType, FrameView, CHUNK_SIZE, WAL_PAGE_SIZE};
use crate::replay::{
    initial_state, replay_step, ReplaySession, ReplayState, ReplayStep, ReplayStepView,
};

verus! {

/// Number of chunks that a record of `len` bytes is split into.
pub open spec fn chunk_count(len: nat) -> nat {
    ((len + CHUNK_SIZE - 1) / (CHUNK_SIZE as int)) as nat
}

/// Number of frames that a record of `len` bytes takes: one per chunk, and one
/// for an empty record.
pub open spec fn frame_count(len: nat) -> nat {
    if len == 0 {
        1
    } else {
        chunk_count(len)
    }
}

/// Chunk `i` of `data`.
pub open spec fn chunk_of(data: Seq<u8>, i: int) -> Seq<u8> {
    let start = i * CHUNK_SIZE;
    let end = if start + CHUNK_SIZE < data.len() {
        start + CHUNK_SIZE
    } else {
        data.len() as int
    };
    data.subrange(start, end)
}

/// Frame `i` of the record that holds `data` for `page_id`.
pub open spec fn record_frame(kind: FrameType, page_id: u64, data: Seq<u8>, i: int) -> FrameView {
    FrameView {
        kind,
        page_id,
        chunk_index: i as u32,
        chunk_count: chunk_count(data.len()) as u32,
        payload: chunk_of(data, i),
    }
}

/// The bytes of the first `n` frames of a record.
pub open spec fn record_prefix(kind: FrameType, page_id: u64, data: Seq<u8>, n: nat) -> Seq<u8>
    decreases n,
{
    if n == 0 {
        Seq::empty()
    } else {
        record_prefix(kind, page_id, data, (n - 1) as nat) + frame_bytes(
            record_frame(kind, page_id, data, n - 1),
        )
    }
}

/// The bytes that a record adds to the log.
pub open spec fn record_bytes(kind: FrameType, page_id: u64, data: Seq<u8>) -> Seq<u8> {
    record_prefix(kind, page_id, data, frame_count(data.len()))
}

/// The records that a replay of `log` delivers from byte `pos` on, by a
/// session in state `st`, in the order of delivery.
///
/// Each read takes the next `WAL_PAGE_SIZE` bytes, or what is left of the log.
pub open spec fn replay_records(log: Seq<u8>, pos: int, st: ReplayState) -> Seq<(usize, Seq<u8>)>
    decreases log.len() - pos,
{
    if pos < 0 || pos >= log.len() {
        Seq::empty()
    } else {
        let n = if log.len() - pos < WAL_PAGE_SIZE {
            log.len() - pos
        } else {
            WAL_PAGE_SIZE as int
        };
        let (next, step) = replay_step(st, log.subrange(pos, pos + n));
        match step {
            ReplayStepView::Stop => Seq::empty(),
            ReplayStepView::Pending => replay_records(log, pos + n, next),
            ReplayStepView::Record(page_id, data) => seq![(page_id, data)] + replay_records(
                log,
                pos + n,
                next,
            ),
        }
    }
}

/// The records of a vector, each with the view of its bytes.
pub open spec fn records_view(records: Seq<(usize, Vec<u8>)>) -> Seq<(usize, Seq<u8>)> {
    Seq::new(records.len(), |i: int| (records[i].0, records[i].1@))
}

/// Why a record could not be appended.
#[derive(Clone, Copy, Debug, PartialEq, Eq, Structural)]
pub enum WalError {
    /// The record has more chunks than the frame's chunk count field can
    /// hold.
    RecordTooLarge,
}

/// The frames of the record that holds `data` for `page_id`; `None` when the
/// number of chunks does not fit the chunk count field.
pub fn encode_record(kind: FrameType, page_id: u64, data: &[u8]) -> (out: Option<Vec<u8>>)
    ensures
        out is Some <==> chunk_count(data@.len()) <= u32::MAX,
        out matches Some(bytes) ==> bytes@ == record_bytes(kind, page_id, data@),
{
    let len: usize = data.len();
    let whole: usize = len / CHUNK_SIZE;
    let total: usize = if len % CHUNK_SIZE == 0 {
        whole
    } else {
        whole + 1
    };
    if total > 0xFFFF_FFFF {
        return None;
    }
    let frames: usize = if total == 0 {
        1
    } else {
        total
    };
    let mut out: Vec<u8> = Vec::new();
    let mut i: usize = 0;
    while i < frames
        invariant
            i <= frames,
            len == data@.len(),
            total == chunk_count(len as nat),
            total <= 0xFFFF_FFFF,
            frames == frame_count(len as nat),
            out@ == record_prefix(kind, page_id, data@, i as nat),
        decreases frames - i,
    {
        let start: usize = i * CHUNK_SIZE;
        let end: usize = if len - start > CHUNK_SIZE {
            start + CHUNK_SIZE
        } else {
            len
        };
        let chunk = slice_subrange(data, start, end);
        let frame = Frame {
            kind,
            page_id,
            chunk_index: i as u32,
            chunk_count: total as u32,
            payload: vstd::slice::slice_to_vec(chunk),
        };
        let bytes = frame.encode();
        append_bytes(&mut out, bytes.as_slice());
        i = i + 1;
    }
    Some(out)
}

/// The checkpoint frame that carries `last_offset`: a record of kind
/// checkpoint for page 0 whose data are the eight little-endian bytes of the
/// offset.
pub fn encode_checkpoint(last_offset: u64) -> (bytes: Vec<u8>)
    ensures
        bytes@ == record_bytes(FrameType::Checkpoint, 0, spec_u64_to_le_bytes(last_offset)),
        bytes@.len() == WAL_PAGE_SIZE,
{
    let meta = u64_to_le_bytes(last_offset);
    let frame = Frame {
        kind: FrameType::Checkpoint,
        page_id: 0,
        chunk_index: 0,
        chunk_count: 1,
        payload: meta,
    };
    proof {
        reveal_with_fuel(record_prefix, 2);
        assert(chunk_of(frame@.payload, 0) =~= frame@.payload);
    }
    frame.encode()
}

/// A write-ahead log, held as the bytes of the log file.
pub struct Wal {
    log: Vec<u8>,
}

impl View for Wal {
    type V = Seq<u8>;

    closed spec fn view(&self) -> Seq<u8> {
        self.log@
    }
}

impl Wal {
    /// Opens the log whose bytes are `log`; an empty vector is a new log.
    pub fn open(log: Vec<u8>) -> (wal: Wal)
        ensures
            wal@ == log@,
    {
        Wal { log }
    }

    /// The bytes of the log.
    pub fn as_bytes(&self) -> (bytes: &[u8])
        ensures
            bytes@ == self@,
    {
        self.log.as_slice()
    }

    /// Gives up the log for its bytes.
    pub fn into_bytes(self) -> (bytes: Vec<u8>)
        ensures
            bytes@ == self@,
    {
        self.log
    }

    /// Appends the record that holds `data` for page `page_id`.
    ///
    /// Fails, and leaves the log as it was, when the record has more chunks
    /// than a frame can count.
    pub fn append(&mut self, page_id: usize, data: &[u8]) -> (result: Result<(), WalError>)
        ensures
            result is Ok <==> chunk_count(data@.len()) <= u32::MAX,
            result is Ok ==> final(self)@ == old(self)@ + record_bytes(
                FrameType::Data,
                page_id as u64,
                data@,
            ),
            result is Err ==> final(self)@ == old(self)@ && result == Err::<(), WalError>(
                WalError::RecordTooLarge,
            ),
    {
        match encode_record(FrameType::Data, page_id as u64, data) {
            Some(bytes) => {
                append_bytes(&mut self.log, bytes.as_slice());
                Ok(())
            },
            None => Err(WalError::RecordTooLarge),
        }
    }

    /// Appends a checkpoint frame whose payload is `last_offset`, as eight
    /// little-endian bytes. Replay skips it.
    pub fn append_checkpoint(&mut self, last_offset: u64)
        ensures
            final(self)@ == old(self)@ + record_bytes(
                FrameType::Checkpoint,
                0,
                spec_u64_to_le_bytes(last_offset),
            ),
    {
        let bytes = encode_checkpoint(last_offset);
        append_bytes(&mut self.log, bytes.as_slice());
    }

    /// The byte offset of the end of the log.
    pub fn current_offset(&self) -> (offset: u64)
        ensures
            offset == self@.len(),
    {
        self.log.len() as u64
    }

    /// Replays the log from byte `offset` and returns the records delivered,
    /// in order.
    pub fn replay_from_offset(&self, offset: u64) -> (records: Vec<(usize, Vec<u8>)>)
        ensures
            records_view(records@) == replay_records(self@, offset as int, initial_state()),
    {
        let mut records: Vec<(usize, Vec<u8>)> = Vec::new();
        let len: usize = self.log.len();
        if offset >= len as u64 {
            return records;
        }
        let mut session = ReplaySession::new();
        let mut pos: usize = offset as usize;
        while pos < len
            invariant
                pos <= len,
                len == self.log@.len(),
                session.wf(),
                records_view(records@) + replay_records(self.log@, pos as int, session@)
                    == replay_records(self.log@, offset as int, initial_state()),
            decreases len - pos,
        {
            let n: usize = if len - pos < WAL_PAGE_SIZE {
                len - pos
            } else {
                WAL_PAGE_SIZE
            };
            let step = session.feed(slice_subrange(self.log.as_slice(), pos, pos + n));
            match step {
                ReplayStep::Stop => {
                    return records;
                },
                ReplayStep::Pending => {},
                ReplayStep::Record(page_id, data) => {
                    records.push((page_id, data));
                },
            }
            pos = pos + n;
        }
        records
    }
}

} // verus!
