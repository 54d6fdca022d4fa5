use rusticdb_core::frame::{
    Frame, FrameType, CHUNK_SIZE, FRAME_HEADER_SIZE, FRAME_OVERHEAD, WAL_MAGIC, WAL_PAGE_SIZE,
};
use rusticdb_core::replay::{ReplaySession, ReplayStep};
use rusticdb_core::wal::{encode_checkpoint, encode_record, Wal};

fn replay_all(log: Vec<u8>) -> Vec<(usize, Vec<u8>)> {
    Wal::open(log).replay_from_offset(0)
}

fn patterned(len: usize) -> Vec<u8> {
    (0..len).map(|i| (i % 253 + 1) as u8).collect()
}

#[test]
fn test_append_and_replay_with_checkpoint() {
    let mut wal = Wal::open(Vec::new());

    let data1 = b"hello world".to_vec();
    let data2 = vec![42u8; WAL_PAGE_SIZE * 2];

    wal.append(1, &data1).unwrap();
    let mid_offset = wal.current_offset();
    wal.append_checkpoint(mid_offset);
    wal.append(2, &data2).unwrap();

    let wal = Wal::open(wal.into_bytes());
    let mut seen = vec![];

    for (pid, data) in wal.replay_from_offset(0) {
        seen.push((pid, data));
    }

    assert_eq!(seen.len(), 2);
    assert_eq!(seen[0].0, 1);
    assert_eq!(seen[0].1, data1);
    assert_eq!(seen[1].0, 2);
    assert_eq!(seen[1].1, data2);
}

#[test]
fn constants_of_the_frame_format() {
    assert_eq!(WAL_MAGIC, 0xC0DECAFE);
    assert_eq!(WAL_PAGE_SIZE, 4096);
    assert_eq!(FRAME_HEADER_SIZE, 25);
    assert_eq!(FRAME_OVERHEAD, 29);
    assert_eq!(CHUNK_SIZE, 4096 - 29);
    assert_eq!(FrameType::Data.tag(), 0);
    assert_eq!(FrameType::Checkpoint.tag(), 1);
    assert_eq!(FrameType::from_tag(0), Some(FrameType::Data));
    assert_eq!(FrameType::from_tag(1), Some(FrameType::Checkpoint));
    assert_eq!(FrameType::from_tag(2), None);
    assert_eq!(FrameType::from_tag(255), None);
}

#[test]
fn frame_is_laid_out_field_by_field() {
    let frame = Frame {
        kind: FrameType::Data,
        page_id: 0x0102030405060708,
        chunk_index: 0x0A0B0C0D,
        chunk_count: 0x11121314,
        payload: b"hello world".to_vec(),
    };
    let bytes = frame.encode();
    assert_eq!(bytes.len(), 4096);
    assert_eq!(bytes[0], 0);
    assert_eq!(&bytes[1..5], &[0xFE, 0xCA, 0xDE, 0xC0]);
    assert_eq!(&bytes[5..13], &[8, 7, 6, 5, 4, 3, 2, 1]);
    assert_eq!(&bytes[13..17], &[0x0D, 0x0C, 0x0B, 0x0A]);
    assert_eq!(&bytes[17..21], &[0x14, 0x13, 0x12, 0x11]);
    assert_eq!(&bytes[21..25], &[11, 0, 0, 0]);
    assert_eq!(&bytes[25..36], b"hello world");
    assert_eq!(&bytes[36..40], &0x0D4A1185u32.to_le_bytes());
    assert!(bytes[40..].iter().all(|&b| b == 0));
}

#[test]
fn frame_carries_the_crc_of_its_payload() {
    let empty = Frame {
        kind: FrameType::Data,
        page_id: 0,
        chunk_index: 0,
        chunk_count: 0,
        payload: Vec::new(),
    };
    assert_eq!(&empty.encode()[25..29], &[0, 0, 0, 0]);

    let digits = Frame {
        kind: FrameType::Checkpoint,
        page_id: 0,
        chunk_index: 0,
        chunk_count: 1,
        payload: b"123456789".to_vec(),
    };
    let bytes = digits.encode();
    assert_eq!(bytes[0], 1);
    assert_eq!(&bytes[34..38], &0xCBF43926u32.to_le_bytes());
}

#[test]
fn encode_with_puts_the_given_sum_in_the_crc_field() {
    let frame = Frame {
        kind: FrameType::Data,
        page_id: 3,
        chunk_index: 0,
        chunk_count: 1,
        payload: vec![7, 7],
    };
    let bytes = frame.encode_with(0xAABBCCDD);
    assert_eq!(&bytes[27..31], &[0xDD, 0xCC, 0xBB, 0xAA]);
    let (fields, stored) = Frame::decode_fields(&bytes).unwrap();
    assert_eq!(stored, 0xAABBCCDD);
    assert_eq!(fields.payload, vec![7, 7]);
    assert!(Frame::decode(&bytes).is_none());
    assert!(fields.check(stored, 0xAABBCCDD).is_some());
}

#[test]
fn check_accepts_a_frame_only_on_equal_sums() {
    let frame = Frame {
        kind: FrameType::Data,
        page_id: 3,
        chunk_index: 1,
        chunk_count: 2,
        payload: vec![1],
    };
    let kept = frame.check(5, 5).unwrap();
    assert_eq!(kept.page_id, 3);
    assert_eq!(kept.chunk_index, 1);
    assert_eq!(kept.chunk_count, 2);
    assert_eq!(kept.payload, vec![1]);
    assert!(kept.check(5, 6).is_none());
}

#[test]
fn decode_gives_back_what_was_encoded() {
    let frame = Frame {
        kind: FrameType::Checkpoint,
        page_id: u64::MAX,
        chunk_index: 7,
        chunk_count: u32::MAX,
        payload: patterned(CHUNK_SIZE),
    };
    let decoded = Frame::decode(&frame.encode()).unwrap();
    assert_eq!(decoded.kind, FrameType::Checkpoint);
    assert_eq!(decoded.page_id, u64::MAX);
    assert_eq!(decoded.chunk_index, 7);
    assert_eq!(decoded.chunk_count, u32::MAX);
    assert_eq!(decoded.payload, patterned(CHUNK_SIZE));
}

#[test]
fn decode_refuses_malformed_frames() {
    let good = Frame {
        kind: FrameType::Data,
        page_id: 1,
        chunk_index: 0,
        chunk_count: 1,
        payload: b"abc".to_vec(),
    }
    .encode();
    assert!(Frame::decode(&good).is_some());

    assert!(Frame::decode(&good[..4095]).is_none());
    assert!(Frame::decode(&[]).is_none());
    let mut longer = good.clone();
    longer.push(0);
    assert!(Frame::decode(&longer).is_none());

    let mut bad_kind = good.clone();
    bad_kind[0] = 2;
    assert!(Frame::decode(&bad_kind).is_none());

    let mut bad_magic = good.clone();
    bad_magic[4] ^= 1;
    assert!(Frame::decode(&bad_magic).is_none());

    let mut too_long = good.clone();
    too_long[21..25].copy_from_slice(&4068u32.to_le_bytes());
    assert!(Frame::decode(&too_long).is_none());
    assert!(Frame::decode_fields(&too_long).is_none());

    let mut bad_payload = good.clone();
    bad_payload[25] ^= 0xFF;
    assert!(Frame::decode(&bad_payload).is_none());
    assert!(Frame::decode_fields(&bad_payload).is_some());

    for j in 0..4 {
        let mut bad_crc = good.clone();
        bad_crc[28 + j] ^= 0x10;
        assert!(Frame::decode(&bad_crc).is_none());
    }

    let mut padded = good.clone();
    padded[4095] = 0xEE;
    assert!(Frame::decode(&padded).is_some());
}

#[test]
fn record_takes_one_frame_per_chunk() {
    for &(len, frames) in &[
        (0usize, 1usize),
        (1, 1),
        (4066, 1),
        (4067, 1),
        (4068, 2),
        (8192, 3),
        (3 * 4067, 3),
        (3 * 4067 + 1, 4),
    ] {
        let bytes = encode_record(FrameType::Data, 9, &patterned(len)).unwrap();
        assert_eq!(bytes.len(), frames * 4096);
        let expected_count = if len == 0 { 0 } else { frames as u32 };
        for i in 0..frames {
            let frame = Frame::decode(&bytes[i * 4096..(i + 1) * 4096]).unwrap();
            assert_eq!(frame.kind, FrameType::Data);
            assert_eq!(frame.page_id, 9);
            assert_eq!(frame.chunk_index, i as u32);
            assert_eq!(frame.chunk_count, expected_count);
            let start = i * 4067;
            let end = (start + 4067).min(len);
            assert_eq!(frame.payload, patterned(len)[start..end].to_vec());
        }
    }
}

#[test]
fn append_adds_the_frames_of_the_record_to_the_log() {
    let mut wal = Wal::open(vec![0xAB; 5]);
    assert_eq!(wal.current_offset(), 5);
    assert_eq!(wal.append(4, b"xyz"), Ok(()));
    assert_eq!(wal.current_offset(), 5 + 4096);
    let expected = encode_record(FrameType::Data, 4, b"xyz").unwrap();
    assert_eq!(&wal.as_bytes()[..5], &[0xAB; 5]);
    assert_eq!(&wal.as_bytes()[5..], &expected[..]);
}

#[test]
fn checkpoint_is_one_frame_with_the_offset_as_payload() {
    let mut wal = Wal::open(Vec::new());
    wal.append_checkpoint(0x0102030405060708);
    assert_eq!(wal.current_offset(), 4096);
    let frame = Frame::decode(wal.as_bytes()).unwrap();
    assert_eq!(frame.kind, FrameType::Checkpoint);
    assert_eq!(frame.page_id, 0);
    assert_eq!(frame.chunk_index, 0);
    assert_eq!(frame.chunk_count, 1);
    assert_eq!(frame.payload, vec![8, 7, 6, 5, 4, 3, 2, 1]);
    assert!(replay_all(wal.into_bytes()).is_empty());
}

#[test]
fn record_of_any_length_comes_back_once() {
    for &len in &[0usize, 1, CHUNK_SIZE - 1, CHUNK_SIZE, CHUNK_SIZE + 1, 3 * CHUNK_SIZE] {
        let data = patterned(len);
        let mut wal = Wal::open(Vec::new());
        wal.append(77, &data).unwrap();
        let records = wal.replay_from_offset(0);
        assert_eq!(records, vec![(77usize, data)]);
    }
}

#[test]
fn record_comes_back_from_the_offset_where_it_starts() {
    let mut wal = Wal::open(Vec::new());
    wal.append(1, &patterned(5000)).unwrap();
    let offset = wal.current_offset();
    assert_eq!(offset, 2 * 4096);
    wal.append(usize::MAX, &patterned(10)).unwrap();
    assert_eq!(wal.replay_from_offset(offset), vec![(usize::MAX, patterned(10))]);
    assert_eq!(
        wal.replay_from_offset(0),
        vec![(1usize, patterned(5000)), (usize::MAX, patterned(10))]
    );
}

#[test]
fn hello_checkpoint_and_two_pages_of_data() {
    let mut wal = Wal::open(Vec::new());
    wal.append(1, b"hello world").unwrap();
    let offset = wal.current_offset();
    assert_eq!(offset, 4096);
    wal.append_checkpoint(offset);
    wal.append(2, &[0x2A; 8192]).unwrap();
    assert_eq!(wal.current_offset(), 5 * 4096);
    let records = wal.replay_from_offset(0);
    assert_eq!(records.len(), 2);
    assert_eq!(records[0], (1usize, b"hello world".to_vec()));
    assert_eq!(records[1], (2usize, vec![0x2A; 8192]));
}

#[test]
fn replay_of_nothing_delivers_nothing() {
    assert!(replay_all(Vec::new()).is_empty());
    let mut wal = Wal::open(Vec::new());
    wal.append(1, b"a").unwrap();
    assert!(wal.replay_from_offset(4096).is_empty());
    assert!(wal.replay_from_offset(4097).is_empty());
    assert!(wal.replay_from_offset(u64::MAX).is_empty());
}

#[test]
fn replay_from_an_offset_within_a_frame_stops_at_once() {
    let mut wal = Wal::open(Vec::new());
    wal.append(1, b"a").unwrap();
    wal.append(2, b"b").unwrap();
    assert!(wal.replay_from_offset(1).is_empty());
    assert_eq!(wal.replay_from_offset(4096), vec![(2usize, b"b".to_vec())]);
}

#[test]
fn damaged_crc_ends_replay_before_the_frame() {
    let mut wal = Wal::open(Vec::new());
    wal.append(1, b"first").unwrap();
    wal.append(2, b"second").unwrap();
    wal.append(3, b"third").unwrap();
    let log = wal.into_bytes();
    assert_eq!(replay_all(log.clone()).len(), 3);

    for j in 0..4 {
        let mut damaged = log.clone();
        damaged[4096 + 25 + 6 + j] ^= 0x01;
        assert_eq!(replay_all(damaged), vec![(1usize, b"first".to_vec())]);
    }
    for j in 0..4 {
        let mut damaged = log.clone();
        damaged[25 + 5 + j] = damaged[25 + 5 + j].wrapping_add(1);
        assert!(replay_all(damaged).is_empty());
    }
    for j in 0..4 {
        let mut damaged = log.clone();
        damaged[2 * 4096 + 25 + 5 + j] ^= 0x80;
        assert_eq!(
            replay_all(damaged),
            vec![(1usize, b"first".to_vec()), (2usize, b"second".to_vec())]
        );
    }
}

#[test]
fn damaged_crc_in_a_later_chunk_loses_the_whole_record() {
    let mut wal = Wal::open(Vec::new());
    wal.append(1, b"kept").unwrap();
    wal.append(2, &patterned(3 * CHUNK_SIZE)).unwrap();
    wal.append(3, b"lost").unwrap();
    let mut log = wal.into_bytes();
    log[2 * 4096 + 25 + CHUNK_SIZE] ^= 0xFF;
    assert_eq!(replay_all(log), vec![(1usize, b"kept".to_vec())]);
}

#[test]
fn replay_stops_at_a_malformed_frame() {
    let mut wal = Wal::open(Vec::new());
    wal.append(1, b"one").unwrap();
    wal.append(2, b"two").unwrap();
    let log = wal.into_bytes();
    let first = vec![(1usize, b"one".to_vec())];

    let mut bad_kind = log.clone();
    bad_kind[4096] = 7;
    assert_eq!(replay_all(bad_kind), first);

    let mut bad_magic = log.clone();
    bad_magic[4096 + 1] = 0;
    assert_eq!(replay_all(bad_magic), first);

    let mut too_long = log.clone();
    too_long[4096 + 21..4096 + 25].copy_from_slice(&u32::MAX.to_le_bytes());
    assert_eq!(replay_all(too_long), first);

    let mut short_tail = log.clone();
    short_tail.truncate(4096 + 28);
    assert_eq!(replay_all(short_tail), first);

    let mut torn = log.clone();
    torn.truncate(4096 + 30);
    assert_eq!(replay_all(torn), first);
}

#[test]
fn torn_tail_that_still_holds_payload_and_crc_is_delivered() {
    let mut wal = Wal::open(Vec::new());
    wal.append(1, b"one").unwrap();
    wal.append(2, b"two").unwrap();
    let mut log = wal.into_bytes();
    log.truncate(4096 + 29 + 3);
    assert_eq!(
        replay_all(log),
        vec![(1usize, b"one".to_vec()), (2usize, b"two".to_vec())]
    );
}

#[test]
fn frame_for_another_page_discards_the_chunks_collected() {
    let two_chunks = encode_record(FrameType::Data, 1, &patterned(CHUNK_SIZE + 5)).unwrap();
    let other = encode_record(FrameType::Data, 2, b"other").unwrap();
    let mut log = Vec::new();
    log.extend_from_slice(&two_chunks[..4096]);
    log.extend_from_slice(&other);
    log.extend_from_slice(&two_chunks[4096..]);
    assert_eq!(replay_all(log), vec![(2usize, b"other".to_vec())]);
}

#[test]
fn checkpoint_between_chunks_does_not_disturb_the_record() {
    let two_chunks = encode_record(FrameType::Data, 1, &patterned(CHUNK_SIZE + 5)).unwrap();
    let marker = encode_record(FrameType::Checkpoint, 0, &[0; 8]).unwrap();
    let mut log = Vec::new();
    log.extend_from_slice(&two_chunks[..4096]);
    log.extend_from_slice(&marker);
    log.extend_from_slice(&two_chunks[4096..]);
    assert_eq!(replay_all(log), vec![(1usize, patterned(CHUNK_SIZE + 5))]);
}

#[test]
fn empty_chunk_in_a_longer_record_counts_as_not_received() {
    let first = Frame {
        kind: FrameType::Data,
        page_id: 5,
        chunk_index: 0,
        chunk_count: 2,
        payload: Vec::new(),
    };
    let second = Frame {
        kind: FrameType::Data,
        page_id: 5,
        chunk_index: 1,
        chunk_count: 2,
        payload: b"tail".to_vec(),
    };
    let mut log = first.encode();
    log.extend_from_slice(&second.encode());
    assert!(replay_all(log).is_empty());
}

#[test]
fn session_is_fed_read_by_read() {
    let record = encode_record(FrameType::Data, 6, &patterned(CHUNK_SIZE + 1)).unwrap();
    let marker = encode_record(FrameType::Checkpoint, 0, &[1; 8]).unwrap();
    let mut session = ReplaySession::new();
    assert!(matches!(session.feed(&record[..4096]), ReplayStep::Pending));
    assert!(matches!(session.feed(&marker), ReplayStep::Pending));
    match session.feed(&record[4096..]) {
        ReplayStep::Record(page_id, data) => {
            assert_eq!(page_id, 6);
            assert_eq!(data, patterned(CHUNK_SIZE + 1));
        }
        other => panic!("no record: {:?}", other),
    }
    assert!(matches!(session.feed(&[]), ReplayStep::Stop));
    assert!(matches!(session.feed(&record[..28]), ReplayStep::Stop));
}

#[test]
fn session_takes_chunks_in_any_order() {
    let mut session = ReplaySession::new();
    assert!(matches!(session.accept_chunk(1, 1, 2, vec![2, 2]), ReplayStep::Pending));
    assert!(matches!(session.accept_chunk(1, 5, 2, vec![9]), ReplayStep::Pending));
    match session.accept_chunk(1, 0, 2, vec![1]) {
        ReplayStep::Record(page_id, data) => {
            assert_eq!(page_id, 1);
            assert_eq!(data, vec![1, 2, 2]);
        }
        other => panic!("no record: {:?}", other),
    }
    match session.accept_chunk(1, 0, 0, Vec::new()) {
        ReplayStep::Record(page_id, data) => {
            assert_eq!(page_id, 1);
            assert!(data.is_empty());
        }
        other => panic!("no record: {:?}", other),
    }
}

#[test]
fn checkpoint_frame_is_what_append_checkpoint_appends() {
    let mut wal = Wal::open(Vec::new());
    wal.append_checkpoint(4096);
    assert_eq!(wal.as_bytes(), &encode_checkpoint(4096)[..]);
    assert_eq!(
        encode_checkpoint(4096),
        encode_record(FrameType::Checkpoint, 0, &4096u64.to_le_bytes()).unwrap()
    );
}

#[test]
fn log_made_by_appends_gives_back_what_was_appended() {
    let entries: Vec<(usize, Vec<u8>)> = vec![
        (3, patterned(10)),
        (3, patterned(2 * CHUNK_SIZE)),
        (0, Vec::new()),
        (9, patterned(CHUNK_SIZE + 1)),
        (9, patterned(1)),
        (usize::MAX, patterned(3 * CHUNK_SIZE + 7)),
    ];
    let mut wal = Wal::open(Vec::new());
    let mut offsets = Vec::new();
    for (i, (page_id, data)) in entries.iter().enumerate() {
        offsets.push(wal.current_offset());
        wal.append(*page_id, data).unwrap();
        if i % 2 == 1 {
            wal.append_checkpoint(wal.current_offset());
        }
    }
    assert_eq!(wal.replay_from_offset(0), entries);
    for (i, offset) in offsets.iter().enumerate() {
        assert_eq!(wal.replay_from_offset(*offset), entries[i..].to_vec());
    }
}

#[test]
fn damage_to_any_frame_loses_its_record_and_the_rest() {
    let entries: Vec<(usize, Vec<u8>)> = vec![
        (1, patterned(5)),
        (2, patterned(2 * CHUNK_SIZE + 3)),
        (3, patterned(CHUNK_SIZE)),
    ];
    let mut wal = Wal::open(Vec::new());
    let mut first_frame = Vec::new();
    for (page_id, data) in &entries {
        first_frame.push(wal.current_offset() as usize / 4096);
        wal.append(*page_id, data).unwrap();
    }
    let log = wal.into_bytes();
    let frames = log.len() / 4096;
    assert_eq!(frames, 5);
    for frame in 0..frames {
        let entry = first_frame.iter().rposition(|&first| first <= frame).unwrap();
        let len = u32::from_le_bytes(log[frame * 4096 + 21..frame * 4096 + 25].try_into().unwrap());
        for j in 0..4 {
            let mut damaged = log.clone();
            damaged[frame * 4096 + 25 + len as usize + j] ^= 0x55;
            assert_eq!(replay_all(damaged), entries[..entry].to_vec());
        }
    }
}

#[test]
fn frame_that_announces_a_huge_record_is_taken_in_stride() {
    let huge = Frame {
        kind: FrameType::Data,
        page_id: 1,
        chunk_index: u32::MAX - 1,
        chunk_count: u32::MAX,
        payload: b"x".to_vec(),
    };
    let mut log = huge.encode();
    log.extend_from_slice(&encode_record(FrameType::Data, 2, b"next").unwrap());
    assert_eq!(replay_all(log), vec![(2usize, b"next".to_vec())]);
}

#[test]
fn slot_is_emptied_by_an_empty_chunk_and_filled_again() {
    let mut session = ReplaySession::new();
    assert!(matches!(session.accept_chunk(4, 2, 3, vec![3]), ReplayStep::Pending));
    assert!(matches!(session.accept_chunk(4, 0, 3, vec![1]), ReplayStep::Pending));
    assert!(matches!(session.accept_chunk(4, 0, 3, Vec::new()), ReplayStep::Pending));
    assert!(matches!(session.accept_chunk(4, 1, 3, vec![2, 2]), ReplayStep::Pending));
    assert!(matches!(session.accept_chunk(4, 1, 3, vec![5]), ReplayStep::Pending));
    assert!(matches!(session.accept_chunk(4, 3, 3, vec![9]), ReplayStep::Pending));
    match session.accept_chunk(4, 0, 3, vec![7, 7]) {
        ReplayStep::Record(page_id, data) => {
            assert_eq!(page_id, 4);
            assert_eq!(data, vec![7, 7, 5, 3]);
        }
        other => panic!("no record: {:?}", other),
    }
}
