//! Reassembly of logged records from a sequence of frames.
//!
//! A replay session is fed what each read of up to `WAL_PAGE_SIZE` bytes
//! returned, in order. It keeps the frame buffer that the reads fill, the page
//! whose record is being reassembled and the chunks of that record, each in
//! the slot that its frame names. A record is delivered once every slot
//! holds a non-empty chunk; a data frame for another page discards the chunks
//! collected so far.

use vstd::prelude::*;
use crate::bytes::{append_bytes, zeros};
use crate::frame::{parse_frame, Frame, FrameType, FRAME_OVERHEAD, WAL_PAGE_SIZE};

verus! {

/// The state of a replay session as a mathematical value.
pub struct ReplayState {
    /// The frame buffer: what the last read left in it, over what earlier
    /// reads left behind.
    pub buffer: Seq<u8>,
    /// The page whose record is being reassembled.
    pub current_page: Option<usize>,
    /// One slot per chunk of that record; an empty slot is not yet received.
    pub chunks: Seq<Seq<u8>>,
}

/// What one read contributed to a replay, as a mathematical value.
pub enum ReplayStepView {
    /// Replay ends here: end of log, or a short or malformed frame.
    Stop,
    /// The frame was consumed and no record is complete.
    Pending,
    /// The frame completed the record of a page.
    Record(usize, Seq<u8>),
}

/// What one read contributed to a replay.
#[derive(Debug)]
pub enum ReplayStep {
    /// Replay ends here: end of log, or a short or malformed frame.
    Stop,
    /// The frame was consumed and no record is complete.
    Pending,
    /// The frame completed the record of a page.
    Record(usize, Vec<u8>),
}

impl View for ReplayStep {
    type V = ReplayStepView;

    open spec fn view(&self) -> ReplayStepView {
        match self {
            ReplayStep::Stop => ReplayStepView::Stop,
            ReplayStep::Pending => ReplayStepView::Pending,
            ReplayStep::Record(page_id, data) => ReplayStepView::Record(*page_id, data@),
        }
    }
}

/// The state in which every replay starts.
pub open spec fn initial_state() -> ReplayState {
    ReplayState {
        buffer: zeros(WAL_PAGE_SIZE as int),
        current_page: None,
        chunks: Seq::empty(),
    }
}

/// The frame buffer after a read that returned `bytes`: the read overwrites
/// the front of the buffer and leaves the rest as it was.
pub open spec fn fill_buffer(buffer: Seq<u8>, bytes: Seq<u8>) -> Seq<u8> {
    bytes + buffer.subrange(bytes.len() as int, buffer.len() as int)
}

/// `n` empty slots.
pub open spec fn empty_slots(n: nat) -> Seq<Seq<u8>> {
    Seq::new(n, |i: int| Seq::<u8>::empty())
}

/// Every slot holds a non-empty chunk. With no slots at all this holds.
pub open spec fn all_received(chunks: Seq<Seq<u8>>) -> bool {
    forall|i: int| 0 <= i < chunks.len() ==> (#[trigger] chunks[i]).len() > 0
}

/// What a valid data frame does to a session: the next state and the step.
///
/// A frame for a page other than the one in progress starts over with
/// `chunk_count` empty slots. The payload goes to slot `chunk_index` if there
/// is such a slot. Once all slots are non-empty their concatenation is
/// delivered and no page is in progress any more.
pub open spec fn accept_chunk_spec(
    st: ReplayState,
    page_id: usize,
    chunk_index: usize,
    chunk_count: usize,
    payload: Seq<u8>,
) -> (ReplayState, ReplayStepView) {
    let slots = if st.current_page != Some(page_id) {
        empty_slots(chunk_count as nat)
    } else {
        st.chunks
    };
    let chunks = if chunk_index < slots.len() {
        slots.update(chunk_index as int, payload)
    } else {
        slots
    };
    if all_received(chunks) {
        (
            ReplayState { buffer: st.buffer, current_page: None, chunks },
            ReplayStepView::Record(page_id, chunks.flatten()),
        )
    } else {
        (
            ReplayState { buffer: st.buffer, current_page: Some(page_id), chunks },
            ReplayStepView::Pending,
        )
    }
}

/// What a read that returned `bytes` does to a session: the next state and
/// the step.
///
/// Replay stops on a read of fewer than `FRAME_OVERHEAD` bytes, an empty one
/// included, and on a buffer that is not a valid frame. A checkpoint frame is
/// skipped; a data frame goes through `accept_chunk_spec`.
pub open spec fn replay_step(st: ReplayState, bytes: Seq<u8>) -> (ReplayState, ReplayStepView) {
    let filled = ReplayState {
        buffer: fill_buffer(st.buffer, bytes),
        current_page: st.current_page,
        chunks: st.chunks,
    };
    if bytes.len() < FRAME_OVERHEAD {
        (filled, ReplayStepView::Stop)
    } else {
        match parse_frame(filled.buffer) {
            None => (filled, ReplayStepView::Stop),
            Some(frame) => match frame.kind {
                FrameType::Checkpoint => (filled, ReplayStepView::Pending),
                FrameType::Data => accept_chunk_spec(
                    filled,
                    frame.page_id as usize,
                    frame.chunk_index as usize,
                    frame.chunk_count as usize,
                    frame.payload,
                ),
            },
        }
    }
}

/// A chunk that has arrived, with the index of its slot.
struct Received {
    index: usize,
    chunk: Vec<u8>,
}

/// Whether a chunk has arrived for slot `i`.
spec fn holds(received: Seq<Received>, i: int) -> bool {
    exists|k: int| 0 <= k < received.len() && (#[trigger] received[k]).index == i
}

/// Where the chunk of slot `i` is held.
spec fn held_at(received: Seq<Received>, i: int) -> int {
    choose|k: int| 0 <= k < received.len() && (#[trigger] received[k]).index == i
}

/// The slots of a record of `count` chunks of which `received` have arrived:
/// each chunk in its slot, and the other slots empty.
spec fn slot_views(received: Seq<Received>, count: nat) -> Seq<Seq<u8>> {
    Seq::new(
        count,
        |i: int|
            if holds(received, i) {
                received[held_at(received, i)].chunk@
            } else {
                Seq::<u8>::empty()
            },
    )
}

/// The chunks held are non-empty, belong to slots of the record and stand in
/// the order of their slots, no slot twice.
spec fn ordered(received: Seq<Received>, count: nat) -> bool {
    &&& forall|k: int|
        0 <= k < received.len() ==> (#[trigger] received[k]).index < count
            && received[k].chunk@.len() > 0
    &&& forall|k: int, l: int|
        0 <= k < l < received.len() ==> (#[trigger] received[k]).index < (
        #[trigger] received[l]).index
}

/// A replay in progress.
///
/// The session holds the chunks that have arrived, not one slot for every
/// chunk that a frame announces: what it holds is bounded by what it was
/// fed.
pub struct ReplaySession {
    buffer: [u8; WAL_PAGE_SIZE],
    current_page: Option<usize>,
    slot_count: usize,
    received: Vec<Received>,
}

impl View for ReplaySession {
    type V = ReplayState;

    closed spec fn view(&self) -> ReplayState {
        ReplayState {
            buffer: self.buffer@,
            current_page: self.current_page,
            chunks: slot_views(self.received@, self.slot_count as nat),
        }
    }
}

/// The chunk of a slot is held in one place only.
proof fn lemma_held_at(received: Seq<Received>, count: nat, k: int)
    requires
        ordered(received, count),
        0 <= k < received.len(),
    ensures
        holds(received, received[k].index as int),
        held_at(received, received[k].index as int) == k,
{
    let at = held_at(received, received[k].index as int);
    assert(received[at].index == received[k].index);
}

/// The chunk at place `k` belongs to slot `k` or a later one.
proof fn lemma_index_at_least(received: Seq<Received>, count: nat, k: int)
    requires
        ordered(received, count),
        0 <= k < received.len(),
    ensures
        k <= received[k].index,
    decreases k,
{
    if k > 0 {
        lemma_index_at_least(received, count, k - 1);
        assert(received[k - 1].index < received[k].index);
    }
}

/// So many slots follow the chunk at place `k` as chunks do.
proof fn lemma_index_at_most(received: Seq<Received>, count: nat, k: int)
    requires
        ordered(received, count),
        0 <= k < received.len(),
    ensures
        received[k].index + received.len() - k <= count,
    decreases received.len() - k,
{
    if k < received.len() - 1 {
        lemma_index_at_most(received, count, k + 1);
        assert(received[k].index < received[k + 1].index);
    }
}

/// Where the first `k` chunks held are those of the first `k` slots and
/// fewer chunks are held than the record has, a slot is empty.
proof fn lemma_slot_missing(received: Seq<Received>, count: nat, k: int)
    requires
        ordered(received, count),
        received.len() < count,
        0 <= k <= received.len(),
        forall|j: int| 0 <= j < k ==> (#[trigger] received[j]).index == j,
    ensures
        !all_received(slot_views(received, count)),
    decreases received.len() - k,
{
    if k < received.len() && received[k].index == k {
        lemma_slot_missing(received, count, k + 1);
    } else {
        // No chunk is held for slot `k`: those in front of place `k` belong
        // to earlier slots, the others to later ones.
        if holds(received, k) {
            let at = held_at(received, k);
            assert(received[at].index == k);
            if at >= k {
                lemma_index_at_least(received, count, k);
                if at > k {
                    assert(received[k].index < received[at].index);
                }
            }
        }
        assert(slot_views(received, count)[k].len() == 0);
    }
}

/// All chunks of a record have arrived exactly when as many are held as the
/// record has; they are then held slot by slot.
proof fn lemma_all_received(received: Seq<Received>, count: nat)
    requires
        ordered(received, count),
    ensures
        received.len() <= count,
        all_received(slot_views(received, count)) <==> received.len() == count,
        received.len() == count ==> slot_views(received, count) == Seq::new(
            received.len(),
            |k: int| received[k].chunk@,
        ),
{
    if received.len() > 0 {
        lemma_index_at_most(received, count, 0);
    }
    if received.len() == count {
        let slots = slot_views(received, count);
        assert forall|k: int| 0 <= k < count implies (#[trigger] slots[k]) == received[k].chunk@
            && slots[k].len() > 0 by {
            lemma_index_at_least(received, count, k);
            lemma_index_at_most(received, count, k);
            lemma_held_at(received, count, k);
        }
        assert(slots =~= Seq::new(received.len(), |k: int| received[k].chunk@));
    } else {
        lemma_slot_missing(received, count, 0);
    }
}

/// What a change to the chunks held does to the slots, when it touches the
/// chunk of slot `index` alone: that slot holds `chunk` and the others
/// are as they were.
proof fn lemma_slot_changed(
    before: Seq<Received>,
    after: Seq<Received>,
    count: nat,
    index: int,
    chunk: Seq<u8>,
)
    requires
        ordered(before, count),
        ordered(after, count),
        0 <= index < count,
        forall|k: int|
            0 <= k < before.len() && (#[trigger] before[k]).index != index ==> after.contains(
                before[k],
            ),
        forall|k: int|
            0 <= k < after.len() && (#[trigger] after[k]).index != index ==> before.contains(
                after[k],
            ),
        forall|k: int|
            0 <= k < after.len() && (#[trigger] after[k]).index == index ==> after[k].chunk@
                == chunk,
        chunk.len() > 0 <==> holds(after, index),
    ensures
        slot_views(after, count) == slot_views(before, count).update(index, chunk),
{
    assert forall|i: int| 0 <= i < count implies slot_views(after, count)[i] == slot_views(
        before,
        count,
    ).update(index, chunk)[i] by {
        if i == index {
            if holds(after, i) {
                assert(after[held_at(after, i)].index == i);
            }
        } else if holds(before, i) {
            let k = held_at(before, i);
            assert(before[k].index == i);
            let to = choose|to: int| 0 <= to < after.len() && after[to] == before[k];
            lemma_held_at(after, count, to);
        } else if holds(after, i) {
            let k = held_at(after, i);
            assert(after[k].index == i);
            let from = choose|from: int| 0 <= from < before.len() && before[from] == after[k];
            assert(before[from].index == i);
        }
    }
}

/// The concatenation of the chunks held, in order.
fn concat_chunks(received: &Vec<Received>) -> (data: Vec<u8>)
    ensures
        data@ == Seq::new(received@.len(), |k: int| received@[k].chunk@).flatten(),
{
    let ghost chunks = Seq::new(received@.len(), |k: int| received@[k].chunk@);
    let mut data: Vec<u8> = Vec::new();
    let mut i: usize = 0;
    while i < received.len()
        invariant
            i <= received@.len(),
            chunks == Seq::new(received@.len(), |k: int| received@[k].chunk@),
            data@ == chunks.subrange(0, i as int).flatten(),
        decreases received@.len() - i,
    {
        proof {
            assert(chunks.subrange(0, i + 1) == chunks.subrange(0, i as int).push(
                chunks[i as int],
            ));
            chunks.subrange(0, i as int).lemma_flatten_push(chunks[i as int]);
        }
        append_bytes(&mut data, received[i].chunk.as_slice());
        i = i + 1;
    }
    assert(chunks.subrange(0, i as int) == chunks);
    data
}

impl ReplaySession {
    /// What holds of every session: the chunks that it holds are non-empty,
    /// belong to the record in progress and stand in the order of their
    /// slots.
    pub closed spec fn wf(&self) -> bool {
        ordered(self.received@, self.slot_count as nat)
    }

    /// A session at the start of a replay.
    pub fn new() -> (session: ReplaySession)
        ensures
            session.wf(),
            session@ == initial_state(),
    {
        let session = ReplaySession {
            buffer: [0u8;WAL_PAGE_SIZE],
            current_page: None,
            slot_count: 0,
            received: Vec::new(),
        };
        assert(session.buffer@ == zeros(WAL_PAGE_SIZE as int));
        assert(session@.chunks == Seq::<Seq<u8>>::empty());
        session
    }

    /// Puts `payload` into slot `index`. An empty payload empties the slot.
    fn put(&mut self, index: usize, payload: Vec<u8>)
        requires
            old(self).wf(),
            index < old(self).slot_count,
        ensures
            final(self).wf(),
            final(self)@ == (ReplayState {
                buffer: old(self)@.buffer,
                current_page: old(self)@.current_page,
                chunks: old(self)@.chunks.update(index as int, payload@),
            }),
    {
        let ghost before = self.received@;
        let ghost count = self.slot_count as nat;
        let ghost chunk = payload@;
        // The place of the slot among the chunks held: sought from the back,
        // where the chunks of a record that arrive in order belong.
        let mut at: usize = self.received.len();
        while at > 0 && self.received[at - 1].index >= index
            invariant
                at <= self.received@.len(),
                self.received@ == before,
                forall|k: int| at <= k < before.len() ==> (#[trigger] before[k]).index >= index,
            decreases at,
        {
            at = at - 1;
        }
        assert forall|k: int| 0 <= k < at implies (#[trigger] before[k]).index < index by {
            if k < at - 1 {
                assert(before[k].index < before[at - 1].index);
            }
        }
        let present = at < self.received.len() && self.received[at].index == index;
        if payload.len() == 0 {
            if present {
                self.received.remove(at);
                proof {
                    let after = self.received@;
                    assert forall|k: int| 0 <= k < after.len() implies (#[trigger] after[k])
                        == before[if k < at {
                        k
                    } else {
                        k + 1
                    }] by {}
                    assert forall|k: int|
                        0 <= k < before.len() && (#[trigger] before[k]).index
                            != index implies after.contains(before[k]) by {
                        assert(after[if k < at {
                            k
                        } else {
                            k - 1
                        }] == before[k]);
                    }
                }
            }
        } else if present {
            self.received.set(at, Received { index, chunk: payload });
            proof {
                let after = self.received@;
                assert forall|k: int|
                    0 <= k < before.len() && (#[trigger] before[k]).index
                        != index implies after.contains(before[k]) by {
                    assert(after[k] == before[k]);
                }
                assert(after[at as int].index == index);
            }
        } else {
            self.received.insert(at, Received { index, chunk: payload });
            proof {
                let after = self.received@;
                assert forall|k: int| 0 <= k < after.len() && k != at implies (#[trigger] after[k])
                    == before[if k < at {
                    k
                } else {
                    k - 1
                }] by {}
                assert forall|k: int|
                    0 <= k < before.len() && (#[trigger] before[k]).index
                        != index implies after.contains(before[k]) by {
                    assert(after[if k < at {
                        k
                    } else {
                        k + 1
                    }] == before[k]);
                }
                assert(after[at as int].index == index);
            }
        }
        proof {
            lemma_slot_changed(before, self.received@, count, index as int, chunk);
        }
    }

    /// Takes the fields of a valid data frame into the session.
    pub fn accept_chunk(
        &mut self,
        page_id: usize,
        chunk_index: usize,
        chunk_count: usize,
        payload: Vec<u8>,
    ) -> (step: ReplayStep)
        requires
            old(self).wf(),
        ensures
            final(self).wf(),
            (final(self)@, step@) == accept_chunk_spec(
                old(self)@,
                page_id,
                chunk_index,
                chunk_count,
                payload@,
            ),
    {
        let in_progress = match self.current_page {
            Some(current) => current == page_id,
            None => false,
        };
        if !in_progress {
            self.slot_count = chunk_count;
            self.received = Vec::new();
            assert(self@.chunks =~= empty_slots(chunk_count as nat));
        }
        if chunk_index < self.slot_count {
            self.put(chunk_index, payload);
        }
        proof {
            lemma_all_received(self.received@, self.slot_count as nat);
        }
        if self.received.len() == self.slot_count {
            let data = concat_chunks(&self.received);
            self.current_page = None;
            ReplayStep::Record(page_id, data)
        } else {
            self.current_page = Some(page_id);
            ReplayStep::Pending
        }
    }

    /// Takes what one read returned into the session and says what it
    /// contributed.
    pub fn feed(&mut self, bytes: &[u8]) -> (step: ReplayStep)
        requires
            old(self).wf(),
            bytes@.len() <= WAL_PAGE_SIZE,
        ensures
            final(self).wf(),
            (final(self)@, step@) == replay_step(old(self)@, bytes@),
    {
        let mut i: usize = 0;
        while i < bytes.len()
            invariant
                i <= bytes@.len() <= WAL_PAGE_SIZE,
                self.buffer@ == fill_buffer(old(self).buffer@, bytes@.subrange(0, i as int)),
                self.current_page == old(self).current_page,
                self.slot_count == old(self).slot_count,
                self.received == old(self).received,
            decreases bytes@.len() - i,
        {
            self.buffer[i] = bytes[i];
            i = i + 1;
        }
        assert(bytes@.subrange(0, i as int) == bytes@);
        if bytes.len() < FRAME_OVERHEAD {
            return ReplayStep::Stop;
        }
        match Frame::decode(self.buffer.as_slice()) {
            None => ReplayStep::Stop,
            Some(frame) => match frame.kind {
                FrameType::Checkpoint => ReplayStep::Pending,
                FrameType::Data => self.accept_chunk(
                    frame.page_id as usize,
                    frame.chunk_index as usize,
                    frame.chunk_count as usize,
                    frame.payload,
                ),
            },
        }
    }
}

} // verus!
