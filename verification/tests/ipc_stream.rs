use prescient::ipc::region::RegionHandle;
use prescient::ipc::stream::{
    align_up, arena_layout, checksum, checksum_scalar, checksum_wide, chunk_meta,
    claim_direction_role, consume_step, descriptor_capacity, frame_flags, produce_step, zeroed, Arena,
    Consume, ConsumePhase, ConsumeStep,
    Direction, DirectionConfig, DirectionHandle, DirectionRole, EndpointOptions, Ending, Frame,
    Kind, Loopback, PopStep, Produce, ProducePhase, ProduceStep, PushStep, StreamFlow, StreamShape,
    TransferReport, Words,
    ROLE_CLAIM_MASK,
};
use prescient::ipc::{Fault, FaultKind};

fn round_trip(bytes: Vec<u8>, shape: StreamShape) {
    let expected = bytes.clone();
    let mut transfer =
        Loopback::start(shape, 77, StreamFlow::ParentToWorker, Ending::Exact, bytes).ok().unwrap();
    transfer.run().unwrap();
    assert_eq!(transfer.output, expected);
    assert_eq!(transfer.producer.aggregate, transfer.consumer.aggregate);
    assert_eq!(transfer.producer.chunks, shape.chunks());
    assert_eq!(transfer.producer.phase, ProducePhase::Done);
    assert_eq!(transfer.consumer.phase, ConsumePhase::Done);
}

fn streaming_round_trip(bytes: Vec<u8>, shape: StreamShape) {
    let expected = bytes.clone();
    let mut transfer =
        Loopback::start(shape, 88, StreamFlow::WorkerToParent, Ending::AtEnd, bytes).ok().unwrap();
    transfer.run().unwrap();
    assert_eq!(transfer.output, expected);
    assert_eq!(transfer.producer.aggregate, transfer.consumer.aggregate);
    assert_eq!(transfer.producer.total, transfer.consumer.total);
    assert_eq!(transfer.producer.chunks, transfer.consumer.chunks);
    assert_eq!(transfer.producer.total, transfer.output.len() as u64);
}

#[test]
fn partial_tail_and_slot_generations_round_trip() {
    let bytes = (0..65_793).map(|value| value as u8).collect();
    round_trip(bytes, StreamShape { total_bytes: 65_793, chunk_bytes: 4_097, slots: 3 });
}

#[test]
fn empty_stream_has_a_terminal_custody_exchange() {
    round_trip(Vec::new(), StreamShape { total_bytes: 0, chunk_bytes: 4_096, slots: 2 });
}

#[test]
fn unknown_length_stream_stops_at_eof_below_its_ceiling() {
    let bytes = (0..70_013).map(|value| (value * 17) as u8).collect();
    streaming_round_trip(bytes, StreamShape { total_bytes: 1_000_000, chunk_bytes: 8_191, slots: 2 });
}

#[test]
fn unknown_length_stream_rejects_one_byte_over_its_ceiling() {
    let shape = StreamShape { total_bytes: 4_096, chunk_bytes: 1_024, slots: 2 };
    let mut transfer =
        Loopback::start(shape, 99, StreamFlow::WorkerToParent, Ending::AtEnd, vec![7u8; 4_097])
            .ok()
            .unwrap();
    let fault = transfer.run().unwrap_err();
    assert_eq!(fault.kind(), FaultKind::InvalidData);
    assert_eq!(fault.message(), "stream exceeded its byte ceiling");
    assert_ne!(transfer.consumer.phase, ConsumePhase::Done);
}

#[test]
fn a_source_that_ends_too_early_is_refused() {
    let shape = StreamShape { total_bytes: 10, chunk_bytes: 4, slots: 1 };
    let mut transfer =
        Loopback::start(shape, 1, StreamFlow::ParentToWorker, Ending::Exact, vec![1; 9]).ok().unwrap();
    assert_eq!(transfer.run(), Err(Fault::Truncated));
    assert!(transfer.output.len() <= 9);
}

#[test]
fn any_order_of_steps_delivers_the_source() {
    let shape = StreamShape { total_bytes: 11, chunk_bytes: 3, slots: 2 };
    for schedule in 0..1u32 << 12 {
        let input: Vec<u8> = (0..11).collect();
        let mut transfer =
            Loopback::start(shape, 5, StreamFlow::ParentToWorker, Ending::Exact, input.clone())
                .ok()
                .unwrap();
        for turn in 0..12 {
            if schedule >> turn & 1 == 0 {
                transfer.producer_step().unwrap();
            } else {
                transfer.consumer_step();
            }
            assert_eq!(transfer.output, input[..transfer.output.len()]);
        }
        transfer.run().unwrap();
        assert_eq!(transfer.output, input);
    }
}

#[test]
fn claim_state_allows_each_role_exactly_once() {
    let mut claims = 0;
    claim_direction_role(&mut claims, DirectionRole::Producer).unwrap();
    assert_eq!(
        claim_direction_role(&mut claims, DirectionRole::Producer).unwrap_err().kind(),
        FaultKind::AlreadyExists
    );
    let mut winners = 0;
    for _ in 0..2 {
        match claim_direction_role(&mut claims, DirectionRole::Consumer) {
            Ok(()) => winners += 1,
            Err(fault) => assert_eq!(fault.kind(), FaultKind::AlreadyExists),
        }
    }
    assert_eq!(winners, 1);
    assert_eq!(claims, ROLE_CLAIM_MASK);
    let mut invalid = ROLE_CLAIM_MASK << 1;
    assert_eq!(
        claim_direction_role(&mut invalid, DirectionRole::Producer).unwrap_err().kind(),
        FaultKind::InvalidData
    );
}

fn region(name: &str, len: usize) -> RegionHandle {
    RegionHandle::from_parts(name.into(), len).unwrap()
}

#[test]
fn mapped_direction_roles_are_permanent() {
    let config = DirectionConfig {
        shape: StreamShape { total_bytes: 4, chunk_bytes: 4, slots: 1 },
        transfer_id: 101,
        flow: StreamFlow::ParentToWorker,
        options: EndpointOptions::default(),
    };
    let (data_len, release_len) = Direction::extents(config).unwrap();
    let mut data_words = Words::zeroed();
    let mut data = zeroed(data_len);
    let mut release_words = Words::zeroed();
    let mut releases = zeroed(release_len);
    let (_producer, handle) = Direction::create(
        config,
        DirectionRole::Producer,
        region("data", data_len),
        &mut data_words,
        &mut data,
        region("releases", release_len),
        &mut release_words,
        &mut releases,
    )
    .unwrap();
    let mut open = |role| {
        Direction::open(
            &handle,
            config.options,
            role,
            &mut data_words,
            &data,
            &release_words,
            &releases,
        )
    };
    assert_eq!(
        open(DirectionRole::Producer).err().expect("duplicate producer role accepted").kind(),
        FaultKind::AlreadyExists
    );
    let consumer = open(DirectionRole::Consumer).unwrap();
    assert_eq!(consumer.shape(), config.shape);
    assert_eq!(
        open(DirectionRole::Consumer).err().expect("duplicate consumer role accepted").kind(),
        FaultKind::AlreadyExists
    );
}

#[test]
fn dimensions_and_handle_parts_are_validated() {
    let invalid = StreamShape { total_bytes: 1, chunk_bytes: 0, slots: 1 };
    assert!(invalid.validate().is_err());
    let handle = region("test", 10);
    let copy = handle.duplicate();
    assert!(
        DirectionHandle::from_parts(handle, copy, invalid, 1, StreamFlow::ParentToWorker).is_err()
    );
}

#[test]
fn frame_round_trip_is_native_layout_independent() {
    let frame = Frame {
        kind: Kind::Data,
        flags: frame_flags(StreamFlow::WorkerToParent),
        transfer_id: 9,
        offset: 65_537,
        slot: 3,
        generation: 7,
        len: 257,
        checksum: 0xDEAD_BEEF_CAFE_BABE,
    };
    assert_eq!(Frame::decode(&frame.encode()).unwrap(), frame);
}

#[test]
fn frames_have_a_fixed_layout() {
    let frame = Frame {
        kind: Kind::Released,
        flags: frame_flags(StreamFlow::ParentToWorker),
        transfer_id: 0x0102_0304_0506_0708,
        offset: 0x10,
        slot: 0x20,
        generation: 0x30,
        len: 0x40,
        checksum: 0xFF,
    };
    let bytes = frame.encode();
    assert_eq!(bytes.len(), 48);
    assert_eq!(&bytes[..8], &[0x54, 0x53, 0x53, 0x50, 2, 0, 2, 0x41]);
    assert_eq!(&bytes[8..16], &[8, 7, 6, 5, 4, 3, 2, 1]);
    assert_eq!(bytes[16], 0x10);
    assert_eq!(bytes[24], 0x20);
    assert_eq!(bytes[28], 0x30);
    assert_eq!(bytes[32], 0x40);
    assert_eq!(&bytes[36..40], &[0; 4]);
    assert_eq!(bytes[40], 0xFF);
    let mut broken = bytes.clone();
    broken[0] = 0;
    assert_eq!(Frame::decode(&broken), Err(Fault::FrameHeader));
    let mut broken = bytes.clone();
    broken[38] = 1;
    assert_eq!(Frame::decode(&broken), Err(Fault::FrameHeader));
    let mut broken = bytes.clone();
    broken[6] = 9;
    assert_eq!(Frame::decode(&broken), Err(Fault::FrameKind));
}

#[test]
fn checksums_are_stable() {
    assert_eq!(checksum(b""), 0x707f_322b_f7b7_5155);
    assert_eq!(checksum(b"a"), 0xa362_9554_83f4_17cb);
    let hundred: Vec<u8> = (0..100).collect();
    assert_eq!(checksum(&hundred), 0x6139_135e_7f60_1e18);
    let long: Vec<u8> = (0..4_097u32).map(|value| value as u8).collect();
    assert_eq!(checksum(&long), 0xb2ff_dc41_c5d4_b409);
    assert_eq!(checksum(&[0x5a; 32]), 0x7f14_9790_4a2d_f992);
    for len in [0usize, 1, 31, 32, 33, 127, 128, 129, 255, 256, 257, 1_000, 4_097] {
        let payload: Vec<u8> = (0..len).map(|value| (value * 31) as u8).collect();
        assert_eq!(checksum_scalar(&payload), checksum_wide(&payload));
        assert_eq!(checksum(&payload), checksum_wide(&payload));
    }
}

#[test]
fn a_corrupted_word_changes_the_checksum() {
    let payload: Vec<u8> = (0..75).collect();
    let sum = checksum_scalar(&payload);
    for word in 0..10 {
        for pattern in [0x01u8, 0x80, 0xff] {
            let mut corrupt = payload.clone();
            for byte in corrupt.iter_mut().skip(8 * word).take(8) {
                *byte ^= pattern;
            }
            assert_ne!(corrupt, payload);
            assert_ne!(checksum_scalar(&corrupt), sum);
        }
    }
}

#[test]
fn stream_checksums_fold_their_chunks() {
    let shape = StreamShape { total_bytes: 6, chunk_bytes: 4, slots: 2 };
    let mut transfer =
        Loopback::start(shape, 3, StreamFlow::ParentToWorker, Ending::Exact, b"abcdef".to_vec())
            .ok()
            .unwrap();
    transfer.run().unwrap();
    assert_eq!(transfer.consumer.aggregate, 0x7a66_bae5_bb8d_0ccf);
}

#[test]
fn shapes_name_their_defect() {
    let shape = |total_bytes, chunk_bytes, slots| StreamShape { total_bytes, chunk_bytes, slots };
    assert_eq!(shape(1, 0, 1).validate(), Err(Fault::ChunkBytes));
    assert_eq!(shape(1, 1 << 32, 1).validate(), Err(Fault::ChunkBytes));
    assert_eq!(shape(1, 1, 0).validate(), Err(Fault::SlotCount));
    assert_eq!(shape(1, 1, 1 << 32).validate(), Err(Fault::SlotCount));
    assert_eq!(
        shape(1, u32::MAX as usize, u32::MAX as usize).validate(),
        Err(Fault::ResidentSize)
    );
    assert_eq!(shape(u64::MAX, 1, 1).validate(), Err(Fault::Generations));
    assert_eq!(shape(u32::MAX as u64, 1, 1).validate(), Ok(()));
    assert_eq!(shape(65_793, 4_097, 3).chunks(), 17);
    assert_eq!(shape(0, 4_097, 3).chunks(), 0);
    assert_eq!(shape(65_793, 4_097, 3).resident_bytes(), 12_291);
}

#[test]
fn chunks_partition_the_stream() {
    let shape = StreamShape { total_bytes: 10, chunk_bytes: 4, slots: 2 };
    let metas: Vec<_> = (0..3).map(|index| chunk_meta(shape, index).unwrap()).collect();
    assert_eq!((metas[0].offset, metas[0].len, metas[0].slot, metas[0].generation), (0, 4, 0, 1));
    assert_eq!((metas[1].offset, metas[1].len, metas[1].slot, metas[1].generation), (4, 4, 1, 1));
    assert_eq!((metas[2].offset, metas[2].len, metas[2].slot, metas[2].generation), (8, 2, 0, 2));
    assert_eq!(chunk_meta(shape, 7).unwrap().len, 0);
    assert_eq!(chunk_meta(shape, u64::MAX), Err(Fault::OffsetOverflow));
    let narrow = StreamShape { total_bytes: 10, chunk_bytes: 1, slots: 1 };
    assert_eq!(chunk_meta(narrow, u32::MAX as u64), Err(Fault::GenerationExhausted));
}

#[test]
fn arenas_have_a_fixed_layout() {
    assert_eq!(descriptor_capacity(3), Ok(8));
    assert_eq!(descriptor_capacity(4), Ok(16));
    assert_eq!(descriptor_capacity(usize::MAX), Err(Fault::DescriptorCapacity));
    assert_eq!(align_up(449, 64), Ok(512));
    assert_eq!(align_up(512, 64), Ok(512));
    assert_eq!(align_up(usize::MAX, 64), Err(Fault::Alignment));
    assert_eq!(arena_layout(3, 4_097, 8), Ok((832 + 3 * 4_097, 832)));
    assert_eq!(arena_layout(0, 0, 8), Ok((832, 832)));
    assert_eq!(arena_layout(0, 1, 8), Err(Fault::ArenaDimensions));
    assert_eq!(arena_layout(1, 1, 6), Err(Fault::ArenaDimensions));
    assert_eq!(arena_layout(1 << 40, 1 << 40, 8), Err(Fault::ArenaPayload));
    assert_eq!(arena_layout(1, isize::MAX as usize, 8), Err(Fault::ArenaLength));
}

fn arena() -> (Arena, Words, Vec<u8>) {
    let (len, _) = arena_layout(1, 8, 2).unwrap();
    let mut words = Words::zeroed();
    let mut bytes = zeroed(len);
    let arena = Arena::create(1, 8, 2, 6, 1, &mut words, &mut bytes).unwrap();
    (arena, words, bytes)
}

#[test]
fn arenas_recognise_their_own_kind() {
    let (_, words, bytes) = arena();
    let open = |words: &Words, bytes: &[u8]| Arena::open(1, 8, 2, 6, 1, words, bytes).map(|_| ());
    assert_eq!(open(&words, &bytes), Ok(()));
    assert_eq!(Arena::open(1, 8, 2, 7, 1, &words, &bytes).err(), Some(Fault::ArenaContract));
    assert_eq!(Arena::open(1, 9, 2, 6, 1, &words, &bytes).err(), Some(Fault::ArenaContract));
    assert_eq!(Arena::open(1, 8, 2, 6, 2, &words, &bytes).err(), Some(Fault::ArenaContract));
    assert_eq!(open(&words, &bytes[..100]), Err(Fault::ArenaContract));
    assert_eq!(open(&Words::zeroed(), &bytes), Err(Fault::ArenaUninitialized));
    let mut quiet = words;
    quiet.space_ready.magic = 0;
    assert_eq!(open(&quiet, &bytes), Err(Fault::EventUninitialized));
    let mut other = bytes.clone();
    other[4] = 9;
    assert_eq!(open(&words, &other), Err(Fault::ArenaContract));
}

#[test]
fn descriptor_rings_are_first_in_first_out() {
    let (arena, mut words, mut bytes) = arena();
    let frame = |id| Frame {
        kind: Kind::Data,
        flags: 0x41,
        transfer_id: id,
        offset: 0,
        slot: 0,
        generation: 1,
        len: 1,
        checksum: 0,
    };
    for round in 0..5 {
        assert_eq!(arena.pop(&mut words, &bytes), PopStep::Empty);
        for step in 0..2 {
            assert_eq!(
                arena.push(&mut words, &mut bytes, frame(round * 2 + step)),
                PushStep::Pushed { wake: false }
            );
        }
        assert_eq!(arena.push(&mut words, &mut bytes, frame(99)), PushStep::Full);
        for step in 0..2 {
            assert_eq!(
                arena.pop(&mut words, &bytes),
                PopStep::Popped { frame: Ok(frame(round * 2 + step)), wake: false }
            );
        }
    }
    assert_eq!(words.data_ready.sequence, 10);
    words.data_ready.waiters = 1;
    assert_eq!(arena.push(&mut words, &mut bytes, frame(1)), PushStep::Pushed { wake: true });
    assert_eq!(words.data_ready.waiters, 0);
}

#[test]
fn slots_are_bounded() {
    let (arena, _, mut bytes) = arena();
    assert_eq!(arena.write_slot(&mut bytes, 0, b"12345678"), Ok(()));
    assert_eq!(arena.slot(&bytes, 0, 4), Ok(&b"1234"[..]));
    assert_eq!(arena.slot(&bytes, 0, 9), Err(Fault::SlotBounds));
    assert_eq!(arena.slot(&bytes, 1, 1), Err(Fault::SlotBounds));
    assert_eq!(arena.slot(&bytes, 0, 0), Err(Fault::SlotBounds));
}

#[test]
fn sides_refuse_frames_of_another_transfer() {
    let shape = StreamShape { total_bytes: 4, chunk_bytes: 4, slots: 1 };
    let (data_len, payload) = arena_layout(1, 4, 4).unwrap();
    let mut words = Words::zeroed();
    let mut bytes = zeroed(data_len);
    let arena = Arena::create(1, 4, 4, 6, 1, &mut words, &mut bytes).unwrap();
    bytes[payload..].copy_from_slice(b"abcd");
    for ending in [Ending::Exact, Ending::AtEnd] {
        let mut side = Produce::start(shape, 6, 0x41, ending);
        side.filled(b"abcd").unwrap();
        let good = side.frame().unwrap();
        let strange = Frame { transfer_id: 7, ..good };
        let mut consumer = Consume::start(shape, 6, 0x41, ending);
        let (data, released, complete) = match ending {
            Ending::Exact => (Fault::Data, Fault::Released, Fault::Complete),
            Ending::AtEnd => {
                (Fault::DynamicData, Fault::DynamicReleased, Fault::DynamicComplete)
            }
        };
        assert_eq!(consumer.received(strange, &arena, &bytes), Err(data));
        let corrupt = Frame { checksum: good.checksum ^ 1, ..good };
        assert_eq!(consumer.received(corrupt, &arena, &bytes), Err(data));
        assert_eq!(consumer.received(good, &arena, &bytes), Ok(()));
        side.pushed();
        if ending == Ending::AtEnd {
            assert_eq!(side.probed(1), Err(Fault::ByteCeiling));
            side.probed(0).unwrap();
        }
        assert_eq!(side.released(good), Err(released));
        assert_eq!(side.released(Frame { kind: Kind::Released, ..good }), Ok(()));
        let farewell = side.frame().unwrap();
        side.pushed();
        let wrong = Frame { checksum: farewell.checksum ^ 1, ..farewell };
        assert_eq!(side.confirmed(wrong), Err(complete));
        assert_eq!(side.confirmed(farewell), Ok(()));
        assert_eq!(side.phase, ProducePhase::Done);
    }
}

#[test]
fn reports_say_what_was_transferred() {
    let config = DirectionConfig {
        shape: StreamShape { total_bytes: 0, chunk_bytes: 16, slots: 4 },
        transfer_id: 2,
        flow: StreamFlow::WorkerToParent,
        options: EndpointOptions::default(),
    };
    let (data_len, release_len) = Direction::extents(config).unwrap();
    let mut data_words = Words::zeroed();
    let mut data = zeroed(data_len);
    let mut release_words = Words::zeroed();
    let mut releases = zeroed(release_len);
    let (mut direction, _) = Direction::create(
        config,
        DirectionRole::Consumer,
        region("data", data_len),
        &mut data_words,
        &mut data,
        region("releases", release_len),
        &mut release_words,
        &mut releases,
    )
    .unwrap();
    let mut side = direction.produce();
    let farewell = side.frame().unwrap();
    side.pushed();
    side.confirmed(farewell).unwrap();
    let report = direction.produced(&side);
    assert_eq!((report.total_bytes, report.chunks, report.checksum), (0, 0, 0));
    assert_eq!(report.resident_bytes, 64);
    assert!(!report.memory_locked);
    direction.lock();
    assert!(direction.produced(&side).memory_locked);
}

#[test]
fn configurations_are_validated_in_order() {
    let good = DirectionConfig {
        shape: StreamShape { total_bytes: 1, chunk_bytes: 1, slots: 1 },
        transfer_id: 1,
        flow: StreamFlow::ParentToWorker,
        options: EndpointOptions::default(),
    };
    assert_eq!(good.options.timeout_nanos, 30_000_000_000);
    assert!(!good.options.lock_memory);
    assert!(good.validate().is_ok());
    let nameless = DirectionConfig { transfer_id: 0, ..good };
    assert_eq!(nameless.validate(), Err(Fault::TransferIdZero));
    let hasty = DirectionConfig {
        options: EndpointOptions { timeout_nanos: 0, ..good.options },
        ..good
    };
    assert_eq!(hasty.validate(), Err(Fault::TimeoutZero));
    assert_eq!(StreamFlow::from_code(3), Err(Fault::UnknownFlow));
    assert_eq!(StreamFlow::from_code(2), Ok(StreamFlow::WorkerToParent));
}

/// Run a transfer over a created and an opened direction, and give back what arrived and
/// both reports.
fn driven(
    config: DirectionConfig,
    ending: Ending,
    source: &[u8],
) -> (Vec<u8>, TransferReport, TransferReport) {
    let (data_len, release_len) = Direction::extents(config).unwrap();
    let mut data_words = Words::zeroed();
    let mut data = zeroed(data_len);
    let mut release_words = Words::zeroed();
    let mut releases = zeroed(release_len);
    let (sender, handle) = Direction::create(
        config,
        DirectionRole::Producer,
        region("data", data_len),
        &mut data_words,
        &mut data,
        region("releases", release_len),
        &mut release_words,
        &mut releases,
    )
    .unwrap();
    let receiver = Direction::open(
        &handle,
        config.options,
        DirectionRole::Consumer,
        &mut data_words,
        &data,
        &release_words,
        &releases,
    )
    .unwrap();
    let (mut producer, mut consumer) = match ending {
        Ending::Exact => (sender.produce(), receiver.consume()),
        Ending::AtEnd => (sender.produce_to_end(), receiver.consume_to_end()),
    };
    let (data_arena, release_arena) = sender.arenas();
    assert_eq!(receiver.arenas(), sender.arenas());
    let mut read = 0;
    let mut output = Vec::new();
    let mut rounds = 0;
    loop {
        rounds += 1;
        assert!(rounds < 100_000);
        let produced = produce_step(
            &mut producer,
            &data_arena,
            &mut data_words,
            &mut data,
            &release_arena,
            &mut release_words,
            &releases,
        );
        match produced.unwrap() {
            ProduceStep::Fill { slot, len } => {
                let at = data_arena.slot_offset(slot, len).unwrap();
                let count = len.min(source.len() - read);
                data[at..at + count].copy_from_slice(&source[read..read + count]);
                read += count;
                producer.filled(&data[at..at + count]).unwrap();
            }
            ProduceStep::Probe => producer.probed(0).unwrap(),
            _ => {}
        }
        let consumed = consume_step(
            &mut consumer,
            &data_arena,
            &mut data_words,
            &data,
            &release_arena,
            &mut release_words,
            &mut releases,
        );
        match consumed.unwrap() {
            ConsumeStep::Write { at, len } => {
                output.extend_from_slice(&data[at..at + len]);
                consumer.written();
            }
            ConsumeStep::Done if producer.phase == ProducePhase::Done => break,
            _ => {}
        }
    }
    (output, sender.produced(&producer), receiver.consumed(&consumer))
}

#[test]
fn both_ends_of_a_direction_report_the_same_transfer() {
    for (total, chunk_bytes, slots) in [(0, 16, 2), (1, 16, 2), (1_000, 64, 3), (4_097, 1_024, 1)] {
        let shape = StreamShape { total_bytes: total, chunk_bytes, slots };
        let config = DirectionConfig {
            shape,
            transfer_id: 31,
            flow: StreamFlow::ParentToWorker,
            options: EndpointOptions::default(),
        };
        let source: Vec<u8> = (0..total).map(|k| (k * 7 + 3) as u8).collect();
        let mut reference =
            Loopback::start(shape, 31, StreamFlow::ParentToWorker, Ending::Exact, source.clone())
                .ok()
                .unwrap();
        reference.run().unwrap();
        let expected = TransferReport {
            total_bytes: total,
            chunks: shape.chunks(),
            checksum: reference.producer.aggregate,
            resident_bytes: chunk_bytes * slots,
            memory_locked: false,
        };
        let (output, produced, consumed) = driven(config, Ending::Exact, &source);
        assert_eq!(output, source);
        assert_eq!(produced, expected);
        assert_eq!(consumed, expected);
    }
}

#[test]
fn both_ends_of_a_direction_agree_on_where_it_ended() {
    for (held, limit) in [(0, 100), (99, 100), (100, 100), (5, 4_096)] {
        let shape = StreamShape { total_bytes: limit, chunk_bytes: 10, slots: 2 };
        let config = DirectionConfig {
            shape,
            transfer_id: 8,
            flow: StreamFlow::WorkerToParent,
            options: EndpointOptions::default(),
        };
        let source: Vec<u8> = (0..held).map(|k| (k * 11) as u8).collect();
        let mut reference =
            Loopback::start(shape, 8, StreamFlow::WorkerToParent, Ending::AtEnd, source.clone())
                .ok()
                .unwrap();
        reference.run().unwrap();
        let expected = TransferReport {
            total_bytes: held,
            chunks: held.div_ceil(10),
            checksum: reference.producer.aggregate,
            resident_bytes: 20,
            memory_locked: false,
        };
        let (output, produced, consumed) = driven(config, Ending::AtEnd, &source);
        assert_eq!(output, source);
        assert_eq!(produced, expected);
        assert_eq!(consumed, expected);
    }
}
