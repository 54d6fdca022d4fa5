//! The on-disk format of one log frame.
//!
//! A frame is a fixed-size record of `WAL_PAGE_SIZE` bytes, all integers
//! little-endian:
//!
//! | offset   | size | field                          |
//! |----------|------|--------------------------------|
//! | 0        | 1    | frame kind (0 data, 1 checkpoint) |
//! | 1        | 4    | magic                          |
//! | 5        | 8    | page index                     |
//! | 13       | 4    | chunk index                    |
//! | 17       | 4    | chunk count of the record      |
//! | 21       | 4    | payload length                 |
//! | 25       | len  | payload                        |
//! | 25 + len | 4    | CRC-32 of the payload          |
//! | ...      |      | zero padding                   |

use vstd::prelude::*;
use vstd::bytes::{
    spec_u32_from_le_bytes, spec_u32_to_le_bytes, spec_u64_from_le_bytes, spec_u64_to_le_bytes,
    u32_from_le_bytes, u32_to_le_bytes, u64_from_le_bytes, u64_to_le_bytes,
    lemma_auto_spec_u32_to_from_le_bytes, lemma_auto_spec_u64_to_from_le_bytes,
};
use vstd::slice::{slice_subrange, slice_to_vec};
use crate::bytes::{append_bytes, append_zeros, zeros};
use crate::checksum::{checksum, crc32};

verus! {

/// Marks a frame as belonging to this log format.
pub const WAL_MAGIC: u32 = 0xC0DECAFE;

/// Size in bytes of every frame.
pub const WAL_PAGE_SIZE: usize = 4096;

/// Bytes of a frame that precede the payload.
pub const FRAME_HEADER_SIZE: usize = 25;

/// Bytes of a frame that are not payload or padding: the header and the CRC.
pub const FRAME_OVERHEAD: usize = 29;

/// Largest payload that one frame carries: what `FRAME_OVERHEAD` leaves of
/// `WAL_PAGE_SIZE`.
pub const CHUNK_SIZE: usize = 4067;

/// What a frame records.
#[derive(Clone, Copy, Debug, PartialEq, Eq, Structural)]
pub enum FrameType {
    /// A chunk of the bytes intended for a page.
    Data,
    /// An advisory marker that carries a log offset.
    Checkpoint,
}

impl FrameType {
    /// The byte that encodes this kind.
    pub open spec fn spec_tag(self) -> u8 {
        match self {
            FrameType::Data => 0u8,
            FrameType::Checkpoint => 1u8,
        }
    }

    /// The byte that encodes this kind.
    #[verifier::when_used_as_spec(spec_tag)]
    pub fn tag(self) -> (t: u8)
        ensures
            t == self.spec_tag(),
    {
        match self {
            FrameType::Data => 0u8,
            FrameType::Checkpoint => 1u8,
        }
    }

    /// The kind that `tag` encodes, if it encodes one.
    pub open spec fn spec_from_tag(tag: u8) -> Option<FrameType> {
        if tag == 0 {
            Some(FrameType::Data)
        } else if tag == 1 {
            Some(FrameType::Checkpoint)
        } else {
            None
        }
    }

    /// The kind that `tag` encodes; `None` for any byte but 0 and 1.
    #[verifier::when_used_as_spec(spec_from_tag)]
    pub fn from_tag(tag: u8) -> (kind: Option<FrameType>)
        ensures
            kind == FrameType::spec_from_tag(tag),
    {
        if tag == 0 {
            Some(FrameType::Data)
        } else if tag == 1 {
            Some(FrameType::Checkpoint)
        } else {
            None
        }
    }
}

/// A frame as a mathematical value.
pub struct FrameView {
    pub kind: FrameType,
    pub page_id: u64,
    pub chunk_index: u32,
    pub chunk_count: u32,
    pub payload: Seq<u8>,
}

/// A decoded frame.
#[derive(Debug)]
pub struct Frame {
    pub kind: FrameType,
    pub page_id: u64,
    pub chunk_index: u32,
    pub chunk_count: u32,
    pub payload: Vec<u8>,
}

impl View for Frame {
    type V = FrameView;

    open spec fn view(&self) -> FrameView {
        FrameView {
            kind: self.kind,
            page_id: self.page_id,
            chunk_index: self.chunk_index,
            chunk_count: self.chunk_count,
            payload: self.payload@,
        }
    }
}

/// The little-endian `u32` stored in `b` at offset `at`.
pub open spec fn le_u32_at(b: Seq<u8>, at: int) -> u32 {
    spec_u32_from_le_bytes(b.subrange(at, at + 4))
}

/// The little-endian `u64` stored in `b` at offset `at`.
pub open spec fn le_u64_at(b: Seq<u8>, at: int) -> u64 {
    spec_u64_from_le_bytes(b.subrange(at, at + 8))
}

/// The header of a frame: everything before the payload.
pub open spec fn header_bytes(f: FrameView) -> Seq<u8> {
    seq![f.kind.spec_tag()] + spec_u32_to_le_bytes(WAL_MAGIC) + spec_u64_to_le_bytes(f.page_id)
        + spec_u32_to_le_bytes(f.chunk_index) + spec_u32_to_le_bytes(f.chunk_count)
        + spec_u32_to_le_bytes(f.payload.len() as u32)
}

/// The `WAL_PAGE_SIZE` bytes of a frame with the fields of `f`, whose payload
/// is at most `CHUNK_SIZE` long, and with `sum` in its CRC field.
pub open spec fn frame_bytes_with(f: FrameView, sum: u32) -> Seq<u8> {
    header_bytes(f) + f.payload + spec_u32_to_le_bytes(sum) + zeros(CHUNK_SIZE - f.payload.len())
}

/// The `WAL_PAGE_SIZE` bytes that encode `f`, whose payload is at most
/// `CHUNK_SIZE` long.
pub open spec fn frame_bytes(f: FrameView) -> Seq<u8> {
    frame_bytes_with(f, crc32(f.payload))
}

/// The fields of the frame in `b` and the content of its CRC field, the CRC
/// not yet held against the payload.
///
/// There are none when `b` is not `WAL_PAGE_SIZE` long, when its kind byte is
/// neither 0 nor 1, when the magic differs, or when the payload length would
/// carry the frame past `WAL_PAGE_SIZE`.
pub open spec fn parse_fields(b: Seq<u8>) -> Option<(FrameView, u32)> {
    if b.len() != WAL_PAGE_SIZE {
        None
    } else if FrameType::spec_from_tag(b[0]) is None {
        None
    } else if le_u32_at(b, 1) != WAL_MAGIC {
        None
    } else if le_u32_at(b, 21) > CHUNK_SIZE {
        None
    } else {
        let len = le_u32_at(b, 21) as int;
        Some(
            (
                FrameView {
                    kind: FrameType::spec_from_tag(b[0])->0,
                    page_id: le_u64_at(b, 5),
                    chunk_index: le_u32_at(b, 13),
                    chunk_count: le_u32_at(b, 17),
                    payload: b.subrange(FRAME_HEADER_SIZE as int, FRAME_HEADER_SIZE + len),
                },
                le_u32_at(b, FRAME_HEADER_SIZE + len),
            ),
        )
    }
}

/// The frame with the given fields, if `stored`, the content of its CRC
/// field, is `computed`, the CRC of its payload.
pub open spec fn checked_frame(fields: FrameView, stored: u32, computed: u32) -> Option<
    FrameView,
> {
    if stored == computed {
        Some(fields)
    } else {
        None
    }
}

/// The frame that the bytes `b` encode, if they are one whole valid frame:
/// one whose fields parse and whose CRC field holds the CRC of its payload.
pub open spec fn parse_frame(b: Seq<u8>) -> Option<FrameView> {
    match parse_fields(b) {
        Some((fields, stored)) => checked_frame(fields, stored, crc32(fields.payload)),
        None => None,
    }
}

/// The view of an optional frame.
pub open spec fn frame_option_view(f: Option<Frame>) -> Option<FrameView> {
    match f {
        Some(f) => Some(f@),
        None => None,
    }
}

impl Frame {
    /// Encodes the frame into its `WAL_PAGE_SIZE` bytes, with `sum` in the
    /// CRC field.
    pub fn encode_with(&self, sum: u32) -> (out: Vec<u8>)
        requires
            self@.payload.len() <= CHUNK_SIZE,
        ensures
            out@ == frame_bytes_with(self@, sum),
            out@.len() == WAL_PAGE_SIZE,
    {
        proof {
            lemma_auto_spec_u32_to_from_le_bytes();
            lemma_auto_spec_u64_to_from_le_bytes();
        }
        let mut out: Vec<u8> = Vec::new();
        out.push(self.kind.tag());
        let magic = u32_to_le_bytes(WAL_MAGIC);
        append_bytes(&mut out, magic.as_slice());
        let page_id = u64_to_le_bytes(self.page_id);
        append_bytes(&mut out, page_id.as_slice());
        let chunk_index = u32_to_le_bytes(self.chunk_index);
        append_bytes(&mut out, chunk_index.as_slice());
        let chunk_count = u32_to_le_bytes(self.chunk_count);
        append_bytes(&mut out, chunk_count.as_slice());
        let len: usize = self.payload.len();
        let len_field = u32_to_le_bytes(len as u32);
        append_bytes(&mut out, len_field.as_slice());
        append_bytes(&mut out, self.payload.as_slice());
        let sum_field = u32_to_le_bytes(sum);
        append_bytes(&mut out, sum_field.as_slice());
        append_zeros(&mut out, CHUNK_SIZE - len);
        out
    }

    /// Encodes the frame into its `WAL_PAGE_SIZE` bytes.
    pub fn encode(&self) -> (out: Vec<u8>)
        requires
            self@.payload.len() <= CHUNK_SIZE,
        ensures
            out@ == frame_bytes(self@),
            out@.len() == WAL_PAGE_SIZE,
    {
        let sum = checksum(self.payload.as_slice());
        self.encode_with(sum)
    }

    /// Reads the fields of the frame in `buf` and the content of its CRC
    /// field, without holding the CRC against the payload.
    pub fn decode_fields(buf: &[u8]) -> (fields: Option<(Frame, u32)>)
        ensures
            fields is Some <==> parse_fields(buf@) is Some,
            fields matches Some((frame, stored)) ==> parse_fields(buf@) == Some((frame@, stored)),
    {
        if buf.len() != WAL_PAGE_SIZE {
            return None;
        }
        let kind = match FrameType::from_tag(buf[0]) {
            Some(kind) => kind,
            None => {
                return None;
            },
        };
        let magic = u32_from_le_bytes(slice_subrange(buf, 1, 5));
        if magic != WAL_MAGIC {
            return None;
        }
        let page_id = u64_from_le_bytes(slice_subrange(buf, 5, 13));
        let chunk_index = u32_from_le_bytes(slice_subrange(buf, 13, 17));
        let chunk_count = u32_from_le_bytes(slice_subrange(buf, 17, 21));
        let len_field = u32_from_le_bytes(slice_subrange(buf, 21, 25));
        if len_field as usize > CHUNK_SIZE {
            return None;
        }
        let len: usize = len_field as usize;
        let payload = slice_subrange(buf, FRAME_HEADER_SIZE, FRAME_HEADER_SIZE + len);
        let stored = u32_from_le_bytes(
            slice_subrange(buf, FRAME_HEADER_SIZE + len, FRAME_OVERHEAD + len),
        );
        Some(
            (
                Frame { kind, page_id, chunk_index, chunk_count, payload: slice_to_vec(payload) },
                stored,
            ),
        )
    }

    /// Accepts the frame if `stored`, the content of its CRC field, is
    /// `computed`, the CRC of its payload.
    pub fn check(self, stored: u32, computed: u32) -> (frame: Option<Frame>)
        ensures
            frame_option_view(frame) == checked_frame(self@, stored, computed),
    {
        if stored == computed {
            Some(self)
        } else {
            None
        }
    }

    /// Decodes one frame from `buf`; `None` when `buf` is not a whole valid
    /// frame.
    pub fn decode(buf: &[u8]) -> (frame: Option<Frame>)
        ensures
            frame_option_view(frame) == parse_frame(buf@),
    {
        match Frame::decode_fields(buf) {
            Some((fields, stored)) => {
                let computed = checksum(fields.payload.as_slice());
                fields.check(stored, computed)
            },
            None => None,
        }
    }
}

/// The sizes of the parts of a frame add up: the header and the CRC are the
/// overhead, and the overhead and the largest payload are the frame.
pub proof fn lemma_frame_sizes()
    ensures
        FRAME_HEADER_SIZE + 4 == FRAME_OVERHEAD,
        FRAME_OVERHEAD + CHUNK_SIZE == WAL_PAGE_SIZE,
{
}

/// Reading the fields of an encoded frame gives back the fields and the
/// content of the CRC field, whatever that is.
pub proof fn lemma_parse_fields_of_bytes(f: FrameView, sum: u32)
    requires
        f.payload.len() <= CHUNK_SIZE,
    ensures
        frame_bytes_with(f, sum).len() == WAL_PAGE_SIZE,
        parse_fields(frame_bytes_with(f, sum)) == Some((f, sum)),
{
    lemma_auto_spec_u32_to_from_le_bytes();
    lemma_auto_spec_u64_to_from_le_bytes();
    let b = frame_bytes_with(f, sum);
    let len = f.payload.len() as int;
    assert(b.subrange(1, 5) == spec_u32_to_le_bytes(WAL_MAGIC));
    assert(b.subrange(5, 13) == spec_u64_to_le_bytes(f.page_id));
    assert(b.subrange(13, 17) == spec_u32_to_le_bytes(f.chunk_index));
    assert(b.subrange(17, 21) == spec_u32_to_le_bytes(f.chunk_count));
    assert(b.subrange(21, 25) == spec_u32_to_le_bytes(len as u32));
    assert(b.subrange(25, 25 + len) == f.payload);
    assert(b.subrange(25 + len, 25 + len + 4) == spec_u32_to_le_bytes(sum));
}

/// Decoding the encoding of a frame gives the frame back.
pub proof fn lemma_parse_frame_bytes(f: FrameView)
    requires
        f.payload.len() <= CHUNK_SIZE,
    ensures
        frame_bytes(f).len() == WAL_PAGE_SIZE,
        parse_frame(frame_bytes(f)) == Some(f),
{
    lemma_parse_fields_of_bytes(f, crc32(f.payload));
}

} // verus!
