//! Logs as histories of appends: a log that appends alone have made gives
//! back on replay exactly what was appended, and damage to a frame costs the
//! record it belongs to and all that follows.

use vstd::prelude::*;
use vstd::bytes::{lemma_auto_spec_u64_to_from_le_bytes, spec_u64_to_le_bytes};
use crate::frame::{
    lemma_parse_frame_bytes, FrameType, FrameView, FRAME_HEADER_SIZE, WAL_PAGE_SIZE,
};
use crate::replay::{initial_state, ReplayState};
use crate::wal::{
    chunk_count, frame_count, record_bytes, record_frame, record_prefix, replay_records,
};
use crate::wal_proofs::{
    frame_at, lemma_corrupt_crc_stops_replay, lemma_frame_fits, lemma_record_prefix_frames,
    lemma_record_prefix_len, lemma_record_prefix_of_prefix, lemma_replay_partial_record,
    lemma_replay_record_from, lemma_replay_skips_checkpoint, state_after_record,
};

verus! {

/// One append to a log.
pub enum LogEntry {
    /// The bytes intended for a page.
    Data { page_id: usize, data: Seq<u8> },
    /// A checkpoint marker.
    Checkpoint { last_offset: u64 },
}

/// Whether the entry can be appended: its chunks can be counted in a frame.
pub open spec fn appendable(entry: LogEntry) -> bool {
    match entry {
        LogEntry::Data { page_id, data } => chunk_count(data.len()) <= u32::MAX,
        LogEntry::Checkpoint { last_offset } => true,
    }
}

/// The kind of the frames of the entry.
pub open spec fn entry_kind(entry: LogEntry) -> FrameType {
    match entry {
        LogEntry::Data { page_id, data } => FrameType::Data,
        LogEntry::Checkpoint { last_offset } => FrameType::Checkpoint,
    }
}

/// The page index in the frames of the entry.
pub open spec fn entry_page(entry: LogEntry) -> u64 {
    match entry {
        LogEntry::Data { page_id, data } => page_id as u64,
        LogEntry::Checkpoint { last_offset } => 0,
    }
}

/// The bytes that the frames of the entry carry.
pub open spec fn entry_data(entry: LogEntry) -> Seq<u8> {
    match entry {
        LogEntry::Data { page_id, data } => data,
        LogEntry::Checkpoint { last_offset } => spec_u64_to_le_bytes(last_offset),
    }
}

/// Number of frames of the entry.
pub open spec fn entry_frames(entry: LogEntry) -> nat {
    frame_count(entry_data(entry).len())
}

/// Frame `m` of the entry.
pub open spec fn entry_frame(entry: LogEntry, m: int) -> FrameView {
    record_frame(entry_kind(entry), entry_page(entry), entry_data(entry), m)
}

/// The bytes that an append of the entry adds to the log.
pub open spec fn entry_bytes(entry: LogEntry) -> Seq<u8> {
    record_bytes(entry_kind(entry), entry_page(entry), entry_data(entry))
}

/// The log that the appends of the entries, in order, make of an empty one.
pub open spec fn log_of(entries: Seq<LogEntry>) -> Seq<u8>
    decreases entries.len(),
{
    if entries.len() == 0 {
        Seq::empty()
    } else {
        entry_bytes(entries.first()) + log_of(entries.drop_first())
    }
}

/// Number of frames in the log of the entries.
pub open spec fn frames_of(entries: Seq<LogEntry>) -> nat
    decreases entries.len(),
{
    if entries.len() == 0 {
        0
    } else {
        entry_frames(entries.first()) + frames_of(entries.drop_first())
    }
}

/// The records among the entries, in order: what a replay is to deliver.
pub open spec fn records_of(entries: Seq<LogEntry>) -> Seq<(usize, Seq<u8>)>
    decreases entries.len(),
{
    if entries.len() == 0 {
        Seq::empty()
    } else {
        match entries.first() {
            LogEntry::Data { page_id, data } => seq![(page_id, data)] + records_of(
                entries.drop_first(),
            ),
            LogEntry::Checkpoint { last_offset } => records_of(entries.drop_first()),
        }
    }
}

/// The log of some entries followed by others is the log of the first
/// followed by the log of the others.
pub proof fn lemma_log_of_concat(head: Seq<LogEntry>, tail: Seq<LogEntry>)
    ensures
        log_of(head + tail) == log_of(head) + log_of(tail),
    decreases head.len(),
{
    if head.len() > 0 {
        assert((head + tail).drop_first() == head.drop_first() + tail);
        lemma_log_of_concat(head.drop_first(), tail);
    }
}

/// An append adds the bytes of its entry to the log of the entries before
/// it.
pub proof fn lemma_log_of_push(entries: Seq<LogEntry>, entry: LogEntry)
    ensures
        log_of(entries.push(entry)) == log_of(entries) + entry_bytes(entry),
{
    lemma_log_of_concat(entries, seq![entry]);
    assert(entries.push(entry) == entries + seq![entry]);
    assert(seq![entry].drop_first() == Seq::<LogEntry>::empty());
    assert(log_of(seq![entry]) == entry_bytes(entry) + log_of(Seq::<LogEntry>::empty()));
}

/// A log made by appends consists of whole frames.
pub proof fn lemma_log_of_len(entries: Seq<LogEntry>)
    ensures
        log_of(entries).len() == frames_of(entries) * WAL_PAGE_SIZE,
    decreases entries.len(),
{
    if entries.len() > 0 {
        let entry = entries.first();
        lemma_record_prefix_len(
            entry_kind(entry),
            entry_page(entry),
            entry_data(entry),
            entry_frames(entry),
        );
        lemma_log_of_len(entries.drop_first());
    }
}

/// A session between records: no page in progress, and a whole frame
/// buffer.
pub open spec fn at_rest(st: ReplayState) -> bool {
    st.current_page is None && st.buffer.len() == WAL_PAGE_SIZE
}

/// Replay of a log that ends with the appends of the given entries and then
/// the first `torn` frames of a longer data record, from where the entries
/// start and by a session between records, delivers the records of the
/// entries and nothing of the torn record.
proof fn lemma_replay_entries(
    log: Seq<u8>,
    start: int,
    entries: Seq<LogEntry>,
    page_id: usize,
    data: Seq<u8>,
    torn: nat,
    st: ReplayState,
)
    requires
        0 <= start <= log.len(),
        chunk_count(data.len()) <= u32::MAX,
        torn < frame_count(data.len()),
        log.subrange(start, log.len() as int) == log_of(entries) + record_prefix(
            FrameType::Data,
            page_id as u64,
            data,
            torn,
        ),
        forall|i: int| 0 <= i < entries.len() ==> appendable(#[trigger] entries[i]),
        at_rest(st),
    ensures
        replay_records(log, start, st) == records_of(entries),
    decreases entries.len(),
{
    let partial = record_prefix(FrameType::Data, page_id as u64, data, torn);
    let tail = log.subrange(start, log.len() as int);
    lemma_record_prefix_len(FrameType::Data, page_id as u64, data, torn);
    if entries.len() == 0 {
        lemma_replay_partial_record(log, start, page_id, data, 0, torn, st);
    } else {
        let entry = entries.first();
        let rest = entries.drop_first();
        let bytes = entry_bytes(entry);
        lemma_record_prefix_len(
            entry_kind(entry),
            entry_page(entry),
            entry_data(entry),
            entry_frames(entry),
        );
        // The first entry lies at `start`; the others and the torn record
        // lie behind it, from `end` on.
        let end = start + entry_frames(entry) * WAL_PAGE_SIZE;
        assert(log.subrange(start, end) == tail.subrange(0, bytes.len() as int));
        assert(tail.subrange(0, bytes.len() as int) == bytes);
        assert(log.subrange(end, log.len() as int) == tail.subrange(
            bytes.len() as int,
            tail.len() as int,
        ));
        assert(tail.subrange(bytes.len() as int, tail.len() as int) == log_of(rest) + partial);
        match entry {
            LogEntry::Data { page_id: first_page, data: first_data } => {
                lemma_replay_record_from(log, start, first_page, first_data, 0, st);
                let next = state_after_record(first_page as u64, first_data);
                lemma_frame_fits(
                    FrameType::Data,
                    first_page as u64,
                    first_data,
                    frame_count(first_data.len()) - 1,
                );
                lemma_parse_frame_bytes(
                    record_frame(
                        FrameType::Data,
                        first_page as u64,
                        first_data,
                        frame_count(first_data.len()) - 1,
                    ),
                );
                lemma_replay_entries(log, end, rest, page_id, data, torn, next);
            },
            LogEntry::Checkpoint { last_offset } => {
                lemma_auto_spec_u64_to_from_le_bytes();
                lemma_replay_skips_checkpoint(log, start, last_offset, st);
                let next = ReplayState {
                    buffer: log.subrange(start, end),
                    current_page: st.current_page,
                    chunks: st.chunks,
                };
                lemma_replay_entries(log, end, rest, page_id, data, torn, next);
            },
        }
    }
}

/// A log that was made by appends alone gives back, on replay from the
/// start, exactly the records that were appended, in order, each once.
/// Checkpoints deliver nothing.
pub proof fn lemma_replay_of_appends(entries: Seq<LogEntry>)
    requires
        forall|i: int| 0 <= i < entries.len() ==> appendable(#[trigger] entries[i]),
    ensures
        replay_records(log_of(entries), 0, initial_state()) == records_of(entries),
{
    let log = log_of(entries);
    assert(log.subrange(0, log.len() as int) == log + record_prefix(
        FrameType::Data,
        0,
        Seq::empty(),
        0,
    ));
    lemma_replay_entries(log, 0, entries, 0, Seq::empty(), 0, initial_state());
}

/// Replay from the offset at which an append began, as `current_offset` gave
/// it before that append, delivers exactly the records appended from then
/// on.
pub proof fn lemma_replay_from_recorded_offset(before: Seq<LogEntry>, after: Seq<LogEntry>)
    requires
        forall|i: int| 0 <= i < after.len() ==> appendable(#[trigger] after[i]),
    ensures
        replay_records(log_of(before + after), log_of(before).len() as int, initial_state())
            == records_of(after),
{
    let log = log_of(before + after);
    lemma_log_of_concat(before, after);
    assert(log.subrange(log_of(before).len() as int, log.len() as int) == log_of(after)
        + record_prefix(FrameType::Data, 0, Seq::empty(), 0));
    lemma_replay_entries(
        log,
        log_of(before).len() as int,
        after,
        0,
        Seq::empty(),
        0,
        initial_state(),
    );
}

/// The offset in the log of the entries at which the CRC field of frame `m`
/// of entry `j` starts.
pub open spec fn crc_offset(entries: Seq<LogEntry>, j: int, m: int) -> int {
    log_of(entries.take(j)).len() + m * WAL_PAGE_SIZE + FRAME_HEADER_SIZE + entry_frame(
        entries[j],
        m,
    ).payload.len()
}

/// Damage to a CRC costs the record it protects and all that follows: of a
/// log made by appends in which one byte of the CRC field of any frame of
/// entry `j` is changed, replay delivers exactly the records of the entries
/// before `j`.
pub proof fn lemma_damaged_crc_loses_the_rest(
    entries: Seq<LogEntry>,
    j: int,
    m: int,
    b: int,
    byte: u8,
)
    requires
        forall|i: int| 0 <= i < entries.len() ==> appendable(#[trigger] entries[i]),
        0 <= j < entries.len(),
        0 <= m < entry_frames(entries[j]),
        0 <= b < 4,
        byte != log_of(entries)[crc_offset(entries, j, m) + b],
    ensures
        replay_records(
            log_of(entries).update(crc_offset(entries, j, m) + b, byte),
            0,
            initial_state(),
        ) == records_of(entries.take(j)),
{
    lemma_auto_spec_u64_to_from_le_bytes();
    let log = log_of(entries);
    let head = entries.take(j);
    let entry = entries[j];
    let after = entries.skip(j + 1);
    let kind = entry_kind(entry);
    let page = entry_page(entry);
    let data = entry_data(entry);
    let frames = entry_frames(entry);
    let record = entry_bytes(entry);
    assert(entries == head + (seq![entry] + after));
    lemma_log_of_concat(head, seq![entry] + after);
    lemma_log_of_concat(seq![entry], after);
    lemma_log_of_push(Seq::<LogEntry>::empty(), entry);
    // The log is that of the entries before `j`, the record of entry `j`
    // and the log of the entries behind it.
    assert(log == log_of(head) + (record + log_of(after)));
    lemma_log_of_len(head);
    lemma_record_prefix_len(kind, page, data, frames);
    // The damaged frame is frame `k` of the log, and a valid one.
    let k = (frames_of(head) + m) as nat;
    lemma_record_prefix_frames(kind, page, data, frames, m);
    lemma_frame_fits(kind, page, data, m);
    lemma_parse_frame_bytes(entry_frame(entry, m));
    assert(frame_at(log, k as int) == frame_at(record, m));
    lemma_corrupt_crc_stops_replay(log, k, b, byte);
    // What lies in front of it are the entries before `j` and the first `m`
    // frames of entry `j`.
    let kept = log.subrange(0, k * WAL_PAGE_SIZE);
    lemma_record_prefix_of_prefix(kind, page, data, frames, m as nat);
    assert(kept == log_of(head) + record_prefix(kind, page, data, m as nat));
    assert(kept.subrange(0, kept.len() as int) == kept);
    match entry {
        LogEntry::Data { page_id, data: payload } => {
            lemma_replay_entries(kept, 0, head, page_id, payload, m as nat, initial_state());
        },
        LogEntry::Checkpoint { last_offset } => {
            lemma_replay_entries(kept, 0, head, 0, Seq::empty(), 0, initial_state());
        },
    }
}

} // verus!
