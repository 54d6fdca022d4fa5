//! What holds of records and frames in a log: an appended record comes back
//! from replay, a torn record does not, and replay delivers nothing from a
//! malformed frame on.

use vstd::prelude::*;
use vstd::bytes::{
    lemma_auto_spec_u32_to_from_le_bytes, lemma_auto_spec_u64_to_from_le_bytes,
    spec_u32_from_le_bytes, spec_u32_to_le_bytes, spec_u64_to_le_bytes,
};
use crate::frame::{
    frame_bytes, lemma_parse_frame_bytes, parse_frame, FrameType, CHUNK_SIZE, FRAME_HEADER_SIZE,
    WAL_PAGE_SIZE,
};
use crate::replay::{empty_slots, initial_state, replay_step, ReplayState};
use crate::wal::{
    chunk_count, chunk_of, frame_count, record_bytes, record_frame, record_prefix, replay_records,
};

verus! {

/// The bytes of frame `k` of a log, counted from the start of the log.
pub open spec fn frame_at(log: Seq<u8>, k: int) -> Seq<u8> {
    log.subrange(k * WAL_PAGE_SIZE, (k + 1) * WAL_PAGE_SIZE)
}

/// The slots of a record of which the first `k` chunks have arrived.
pub open spec fn received_slots(data: Seq<u8>, k: int) -> Seq<Seq<u8>> {
    Seq::new(
        chunk_count(data.len()),
        |i: int|
            if i < k {
                chunk_of(data, i)
            } else {
                Seq::<u8>::empty()
            },
    )
}

/// Every chunk of a record is non-empty and fits a frame.
pub proof fn lemma_chunk_len(data: Seq<u8>, i: int)
    requires
        0 <= i < chunk_count(data.len()),
    ensures
        0 < chunk_of(data, i).len() <= CHUNK_SIZE,
        i * CHUNK_SIZE < data.len(),
{
}

/// The first `n` frames of a record take `n` whole frames, and frame `k`
/// among them is the encoding of the record's frame `k`.
pub proof fn lemma_record_prefix_frames(
    kind: FrameType,
    page_id: u64,
    data: Seq<u8>,
    n: nat,
    k: int,
)
    requires
        n <= frame_count(data.len()),
        0 <= k < n,
    ensures
        record_prefix(kind, page_id, data, n).len() == n * WAL_PAGE_SIZE,
        frame_at(record_prefix(kind, page_id, data, n), k) == frame_bytes(
            record_frame(kind, page_id, data, k),
        ),
    decreases n,
{
    lemma_record_prefix_len(kind, page_id, data, n);
    lemma_record_prefix_len(kind, page_id, data, (n - 1) as nat);
    lemma_frame_fits(kind, page_id, data, n - 1);
    lemma_parse_frame_bytes(record_frame(kind, page_id, data, n - 1));
    if k < n - 1 {
        lemma_record_prefix_frames(kind, page_id, data, (n - 1) as nat, k);
    }
}

/// The payload of each frame of a record fits a frame.
pub proof fn lemma_frame_fits(kind: FrameType, page_id: u64, data: Seq<u8>, k: int)
    requires
        0 <= k < frame_count(data.len()),
    ensures
        record_frame(kind, page_id, data, k).payload.len() <= CHUNK_SIZE,
{
    if data.len() > 0 {
        lemma_chunk_len(data, k);
    }
}

/// The first `n` frames of a record take `n` whole frames.
pub proof fn lemma_record_prefix_len(kind: FrameType, page_id: u64, data: Seq<u8>, n: nat)
    requires
        n <= frame_count(data.len()),
    ensures
        record_prefix(kind, page_id, data, n).len() == n * WAL_PAGE_SIZE,
    decreases n,
{
    if n > 0 {
        lemma_record_prefix_len(kind, page_id, data, (n - 1) as nat);
        lemma_frame_fits(kind, page_id, data, n - 1);
        lemma_parse_frame_bytes(record_frame(kind, page_id, data, n - 1));
    }
}

/// The first `k` chunks of a record, concatenated, are its first bytes.
pub proof fn lemma_chunks_flatten(data: Seq<u8>, k: nat)
    requires
        k <= chunk_count(data.len()),
    ensures
        Seq::new(k, |i: int| chunk_of(data, i)).flatten() == data.subrange(
            0,
            if k * CHUNK_SIZE < data.len() {
                k * CHUNK_SIZE
            } else {
                data.len() as int
            },
        ),
    decreases k,
{
    if k > 0 {
        let chunks = Seq::new(k, |i: int| chunk_of(data, i));
        let head = Seq::new((k - 1) as nat, |i: int| chunk_of(data, i));
        lemma_chunks_flatten(data, (k - 1) as nat);
        lemma_chunk_len(data, k - 1);
        assert(chunks == head.push(chunk_of(data, k - 1)));
        head.lemma_flatten_push(chunk_of(data, k - 1));
    }
}

/// The state in which the last frame of a data record leaves a session: the
/// frame in the buffer, every chunk in its slot and no page in progress.
pub open spec fn state_after_record(page_id: u64, data: Seq<u8>) -> ReplayState {
    ReplayState {
        buffer: frame_bytes(
            record_frame(FrameType::Data, page_id, data, frame_count(data.len()) - 1),
        ),
        current_page: None,
        chunks: received_slots(data, chunk_count(data.len()) as int),
    }
}

/// Replay of a record that lies in a log at byte `start`, from its frame `k`
/// on and by a session that has collected the `k` chunks before it, delivers
/// the record and goes on behind it.
pub proof fn lemma_replay_record_from(
    log: Seq<u8>,
    start: int,
    page_id: usize,
    data: Seq<u8>,
    k: nat,
    st: ReplayState,
)
    requires
        chunk_count(data.len()) <= u32::MAX,
        k < frame_count(data.len()),
        0 <= start,
        start + frame_count(data.len()) * WAL_PAGE_SIZE <= log.len(),
        log.subrange(start, start + frame_count(data.len()) * WAL_PAGE_SIZE) == record_bytes(
            FrameType::Data,
            page_id as u64,
            data,
        ),
        st.buffer.len() == WAL_PAGE_SIZE,
        if k == 0 {
            st.current_page != Some(page_id)
        } else {
            st.current_page == Some(page_id) && st.chunks == received_slots(data, k as int)
        },
    ensures
        replay_records(log, start + k * WAL_PAGE_SIZE, st) == seq![(page_id, data)]
            + replay_records(
            log,
            start + frame_count(data.len()) * WAL_PAGE_SIZE,
            state_after_record(page_id as u64, data),
        ),
    decreases frame_count(data.len()) - k,
{
    let total = chunk_count(data.len());
    let record = record_bytes(FrameType::Data, page_id as u64, data);
    let pos = start + k * WAL_PAGE_SIZE;
    let frame = record_frame(FrameType::Data, page_id as u64, data, k as int);
    lemma_record_prefix_frames(
        FrameType::Data,
        page_id as u64,
        data,
        frame_count(data.len()),
        k as int,
    );
    lemma_frame_fits(FrameType::Data, page_id as u64, data, k as int);
    lemma_parse_frame_bytes(frame);
    // The read at `pos` fills the buffer with frame `k` of the record.
    let bytes = log.subrange(pos, pos + WAL_PAGE_SIZE);
    assert(bytes == frame_at(record, k as int));
    let next = replay_step(st, bytes).0;
    // The slots that the frame finds, and what it makes of them.
    let slots = if st.current_page != Some(page_id) {
        empty_slots(total)
    } else {
        st.chunks
    };
    let chunks = if k < total {
        slots.update(k as int, chunk_of(data, k as int))
    } else {
        slots
    };
    if total == 0 {
        assert(data == Seq::<u8>::empty());
        assert(chunks == received_slots(data, 0));
    } else {
        assert(chunks == received_slots(data, (k + 1) as int));
        assert forall|i: int| 0 <= i < k + 1 implies (#[trigger] chunks[i]).len() > 0 by {
            lemma_chunk_len(data, i);
        }
        if k + 1 == total {
            lemma_chunks_flatten(data, total);
            assert(chunks == Seq::new(total, |i: int| chunk_of(data, i)));
            lemma_chunk_len(data, total - 1);
            assert(data.subrange(0, data.len() as int) == data);
        } else {
            assert(chunks[(k + 1) as int].len() == 0);
            lemma_replay_record_from(log, start, page_id, data, k + 1, next);
        }
    }
}

/// A record appended to a log and then replayed from where it starts comes
/// back once, for its page and with its bytes, whatever its length.
pub proof fn lemma_append_then_replay(log: Seq<u8>, page_id: usize, data: Seq<u8>)
    requires
        chunk_count(data.len()) <= u32::MAX,
    ensures
        replay_records(
            log + record_bytes(FrameType::Data, page_id as u64, data),
            log.len() as int,
            initial_state(),
        ) == seq![(page_id, data)],
{
    let record = record_bytes(FrameType::Data, page_id as u64, data);
    let whole = log + record;
    lemma_record_prefix_len(FrameType::Data, page_id as u64, data, frame_count(data.len()));
    assert(whole.subrange(log.len() as int, whole.len() as int) == record);
    lemma_replay_record_from(whole, log.len() as int, page_id, data, 0, initial_state());
}

/// Replay passes over a checkpoint frame: it delivers nothing for it and
/// goes on behind it, with the frame in the buffer and the session otherwise
/// as it was.
pub proof fn lemma_replay_skips_checkpoint(
    log: Seq<u8>,
    start: int,
    last_offset: u64,
    st: ReplayState,
)
    requires
        0 <= start,
        start + WAL_PAGE_SIZE <= log.len(),
        log.subrange(start, start + WAL_PAGE_SIZE) == record_bytes(
            FrameType::Checkpoint,
            0,
            spec_u64_to_le_bytes(last_offset),
        ),
        st.buffer.len() == WAL_PAGE_SIZE,
    ensures
        replay_records(log, start, st) == replay_records(
            log,
            start + WAL_PAGE_SIZE,
            ReplayState {
                buffer: log.subrange(start, start + WAL_PAGE_SIZE),
                current_page: st.current_page,
                chunks: st.chunks,
            },
        ),
{
    lemma_auto_spec_u64_to_from_le_bytes();
    let meta = spec_u64_to_le_bytes(last_offset);
    lemma_record_prefix_frames(FrameType::Checkpoint, 0, meta, 1, 0);
    lemma_frame_fits(FrameType::Checkpoint, 0, meta, 0);
    lemma_parse_frame_bytes(record_frame(FrameType::Checkpoint, 0, meta, 0));
}

/// Replay of the first `m` frames of a longer record, from its frame `k` on
/// and by a session that has collected the `k` chunks before it, meets the
/// end of the log with the record incomplete and delivers nothing.
pub proof fn lemma_replay_partial_record(
    log: Seq<u8>,
    start: int,
    page_id: usize,
    data: Seq<u8>,
    k: nat,
    m: nat,
    st: ReplayState,
)
    requires
        chunk_count(data.len()) <= u32::MAX,
        k <= m < frame_count(data.len()),
        0 <= start,
        log.len() == start + m * WAL_PAGE_SIZE,
        log.subrange(start, log.len() as int) == record_prefix(
            FrameType::Data,
            page_id as u64,
            data,
            m,
        ),
        st.buffer.len() == WAL_PAGE_SIZE,
        if k == 0 {
            st.current_page != Some(page_id)
        } else {
            st.current_page == Some(page_id) && st.chunks == received_slots(data, k as int)
        },
    ensures
        replay_records(log, start + k * WAL_PAGE_SIZE, st) == Seq::<(usize, Seq<u8>)>::empty(),
    decreases m - k,
{
    if k < m {
        let pos = start + k * WAL_PAGE_SIZE;
        let frame = record_frame(FrameType::Data, page_id as u64, data, k as int);
        lemma_record_prefix_frames(FrameType::Data, page_id as u64, data, m, k as int);
        lemma_frame_fits(FrameType::Data, page_id as u64, data, k as int);
        lemma_parse_frame_bytes(frame);
        // The read at `pos` fills the buffer with frame `k` of the record.
        let bytes = log.subrange(pos, pos + WAL_PAGE_SIZE);
        assert(bytes == frame_at(log.subrange(start, log.len() as int), k as int));
        // The frame fills slot `k`; a later slot is still empty.
        let slots = if st.current_page != Some(page_id) {
            empty_slots(chunk_count(data.len()))
        } else {
            st.chunks
        };
        let chunks = slots.update(k as int, chunk_of(data, k as int));
        assert(chunks == received_slots(data, (k + 1) as int));
        assert(chunks[(k + 1) as int].len() == 0);
        lemma_replay_partial_record(
            log,
            start,
            page_id,
            data,
            k + 1,
            m,
            replay_step(st, bytes).0,
        );
    }
}

/// The first `m` frames of a record are the first `m` frames of its bytes.
pub proof fn lemma_record_prefix_of_prefix(
    kind: FrameType,
    page_id: u64,
    data: Seq<u8>,
    n: nat,
    m: nat,
)
    requires
        m <= n <= frame_count(data.len()),
    ensures
        record_prefix(kind, page_id, data, n).subrange(0, m * WAL_PAGE_SIZE) == record_prefix(
            kind,
            page_id,
            data,
            m,
        ),
    decreases n,
{
    lemma_record_prefix_len(kind, page_id, data, n);
    lemma_record_prefix_len(kind, page_id, data, m);
    if m < n {
        lemma_record_prefix_len(kind, page_id, data, (n - 1) as nat);
        lemma_record_prefix_of_prefix(kind, page_id, data, (n - 1) as nat, m);
    }
}

/// A session's frame buffer keeps its size over a read of at most one frame.
pub proof fn lemma_step_keeps_buffer_len(st: ReplayState, bytes: Seq<u8>)
    requires
        st.buffer.len() == WAL_PAGE_SIZE,
        bytes.len() <= WAL_PAGE_SIZE,
    ensures
        replay_step(st, bytes).0.buffer.len() == WAL_PAGE_SIZE,
{
}

/// Replay from the start of frame `m` stops at the first frame that does not
/// parse: it delivers what the frames before that one deliver.
pub proof fn lemma_replay_stops_at_bad_frame_from(log: Seq<u8>, k: nat, m: nat, st: ReplayState)
    requires
        (k + 1) * WAL_PAGE_SIZE <= log.len(),
        parse_frame(frame_at(log, k as int)) is None,
        m <= k,
        st.buffer.len() == WAL_PAGE_SIZE,
    ensures
        replay_records(log, m * WAL_PAGE_SIZE, st) == replay_records(
            log.subrange(0, k * WAL_PAGE_SIZE),
            m * WAL_PAGE_SIZE,
            st,
        ),
    decreases k - m,
{
    if m < k {
        let kept = log.subrange(0, k * WAL_PAGE_SIZE);
        let pos = m * WAL_PAGE_SIZE;
        // Frame `m` is the same in the log and in what is kept of it.
        let bytes = log.subrange(pos, pos + WAL_PAGE_SIZE);
        assert(kept.subrange(pos, pos + WAL_PAGE_SIZE) == bytes);
        lemma_step_keeps_buffer_len(st, bytes);
        lemma_replay_stops_at_bad_frame_from(log, k, m + 1, replay_step(st, bytes).0);
    }
}

/// Replay stops at the first frame that does not parse: of a log whose frame
/// `k` is malformed it delivers exactly what the `k` frames before it
/// deliver, and nothing of what follows.
pub proof fn lemma_replay_stops_at_bad_frame(log: Seq<u8>, k: nat)
    requires
        (k + 1) * WAL_PAGE_SIZE <= log.len(),
        parse_frame(frame_at(log, k as int)) is None,
    ensures
        replay_records(log, 0, initial_state()) == replay_records(
            log.subrange(0, k * WAL_PAGE_SIZE),
            0,
            initial_state(),
        ),
{
    lemma_replay_stops_at_bad_frame_from(log, k, 0, initial_state());
}

/// Two four-byte sequences that differ encode different integers.
pub proof fn lemma_le_u32_injective(a: Seq<u8>, b: Seq<u8>)
    requires
        a.len() == 4,
        b.len() == 4,
        a != b,
    ensures
        spec_u32_from_le_bytes(a) != spec_u32_from_le_bytes(b),
{
    lemma_auto_spec_u32_to_from_le_bytes();
    assert(spec_u32_to_le_bytes(spec_u32_from_le_bytes(b)) == b);
}

/// Changing one byte of the CRC field of a valid frame makes it malformed.
pub proof fn lemma_corrupt_crc_breaks_frame(frame: Seq<u8>, j: int, byte: u8)
    requires
        parse_frame(frame) is Some,
        0 <= j < 4,
        byte != frame[FRAME_HEADER_SIZE + parse_frame(frame)->0.payload.len() + j],
    ensures
        parse_frame(
            frame.update(FRAME_HEADER_SIZE + parse_frame(frame)->0.payload.len() + j, byte),
        ) is None,
{
    let at = FRAME_HEADER_SIZE + parse_frame(frame)->0.payload.len();
    let changed = frame.update(at + j, byte);
    // The length field and the payload are as they were; the CRC field is
    // not.
    assert(changed.subrange(21, 25) == frame.subrange(21, 25));
    assert(changed.subrange(FRAME_HEADER_SIZE as int, at) == frame.subrange(
        FRAME_HEADER_SIZE as int,
        at,
    ));
    assert(changed.subrange(at, at + 4)[j] != frame.subrange(at, at + 4)[j]);
    lemma_le_u32_injective(changed.subrange(at, at + 4), frame.subrange(at, at + 4));
}

/// Damage to the CRC field of a frame ends replay before that frame: of a log
/// in which one byte of the CRC field of the valid frame `k` is changed,
/// replay delivers exactly what the `k` frames before it deliver, and
/// neither the record of frame `k` nor anything after it.
pub proof fn lemma_corrupt_crc_stops_replay(log: Seq<u8>, k: nat, j: int, byte: u8)
    requires
        (k + 1) * WAL_PAGE_SIZE <= log.len(),
        parse_frame(frame_at(log, k as int)) is Some,
        0 <= j < 4,
        byte != log[k * WAL_PAGE_SIZE + FRAME_HEADER_SIZE + parse_frame(
            frame_at(log, k as int),
        )->0.payload.len() + j],
    ensures
        replay_records(
            log.update(
                k * WAL_PAGE_SIZE + FRAME_HEADER_SIZE + parse_frame(
                    frame_at(log, k as int),
                )->0.payload.len() + j,
                byte,
            ),
            0,
            initial_state(),
        ) == replay_records(log.subrange(0, k * WAL_PAGE_SIZE), 0, initial_state()),
{
    let frame = frame_at(log, k as int);
    let within = FRAME_HEADER_SIZE + parse_frame(frame)->0.payload.len() + j;
    let damaged = log.update(k * WAL_PAGE_SIZE + within, byte);
    lemma_corrupt_crc_breaks_frame(frame, j, byte);
    assert(frame_at(damaged, k as int) == frame.update(within, byte));
    lemma_replay_stops_at_bad_frame(damaged, k);
    assert(damaged.subrange(0, k * WAL_PAGE_SIZE) == log.subrange(0, k * WAL_PAGE_SIZE));
}

} // verus!
