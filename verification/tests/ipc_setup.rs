use prescient::ipc::region::{RegionHandle, MAX_REGION_NAME};
use prescient::ipc::setup::{
    acknowledged, read_frame, setup_magic, write_frame, write_payload, DuplexHandle, ACCEPTED,
    REJECTED, SETUP_VERSION,
};
use prescient::ipc::stream::{
    zeroed, Direction, DirectionHandle, EndpointOptions, StreamFlow, StreamShape, Words,
};
use prescient::ipc::{
    attach_peer, check_setup, create, paired_configs, setup_answer, ByteOrder, Fault, FaultKind, IpcPod,
    PayloadContract,
};

fn direction(flow: StreamFlow, transfer_id: u64, prefix: &str) -> DirectionHandle {
    DirectionHandle::from_parts(
        RegionHandle::from_parts(format!("{prefix}-data"), 4096).unwrap(),
        RegionHandle::from_parts(format!("{prefix}-release"), 512).unwrap(),
        StreamShape { total_bytes: 1024, chunk_bytes: 256, slots: 4 },
        transfer_id,
        flow,
    )
    .unwrap()
}

fn handle() -> DuplexHandle {
    DuplexHandle {
        parent_to_worker: direction(StreamFlow::ParentToWorker, 41, "forward"),
        worker_to_parent: direction(StreamFlow::WorkerToParent, 42, "reverse"),
        payload: PayloadContract::bytes(),
    }
}

fn same(a: &DirectionHandle, b: &DirectionHandle) -> bool {
    a.data_region().locates(b.data_region())
        && a.release_region().locates(b.release_region())
        && a.shape() == b.shape()
        && a.transfer_id() == b.transfer_id()
        && a.flow() == b.flow()
}

#[test]
fn setup_round_trip_requires_acceptance() {
    let expected = handle();
    let frame = write_frame(&expected);
    let (received, end) = read_frame(&frame).unwrap();
    assert_eq!(end, frame.len());
    assert_eq!(acknowledged(setup_answer(check_setup(&received, PayloadContract::bytes()).is_ok())), Ok(()));
    assert_eq!(received.payload, expected.payload);
    assert!(same(&received.parent_to_worker, &expected.parent_to_worker));
    assert!(same(&received.worker_to_parent, &expected.worker_to_parent));
}

#[test]
fn malformed_magic_and_truncated_frames_are_rejected() {
    let error = read_frame(b"NOT-IPC!").unwrap_err();
    assert_eq!(error.kind(), FaultKind::InvalidData);

    let error = read_frame(&setup_magic()[..3]).unwrap_err();
    assert_eq!(error.kind(), FaultKind::UnexpectedEof);
}

#[test]
fn oversized_region_name_is_rejected_before_allocation() {
    let mut frame = Vec::new();
    frame.extend_from_slice(&setup_magic());
    frame.extend_from_slice(&SETUP_VERSION.to_le_bytes());
    write_payload(&mut frame, PayloadContract::bytes());
    frame.extend_from_slice(&((MAX_REGION_NAME + 1) as u16).to_le_bytes());

    let error = read_frame(&frame).unwrap_err();
    assert_eq!(error.kind(), FaultKind::InvalidData);
}

#[test]
fn rejected_and_unknown_acknowledgements_fail_closed() {
    for acknowledgement in [REJECTED, 0xff] {
        let error = acknowledged(acknowledgement).unwrap_err();
        assert_eq!(error.kind(), FaultKind::InvalidData);
    }
    assert_eq!(acknowledged(ACCEPTED), Ok(()));
    assert_eq!(acknowledged(REJECTED), Err(Fault::SetupRejected));
    assert_eq!(acknowledged(0), Err(Fault::SetupAcknowledgement));
}

#[test]
fn every_prefix_of_a_frame_is_truncated() {
    let frame = write_frame(&handle());
    for len in 0..frame.len() {
        assert_eq!(read_frame(&frame[..len]).unwrap_err(), Fault::Truncated);
    }
    let mut longer = frame.clone();
    longer.push(9);
    assert_eq!(read_frame(&longer).unwrap().1, frame.len());
}

#[test]
fn frames_have_a_fixed_beginning() {
    let frame = write_frame(&handle());
    assert_eq!(&frame[..10], b"PSCIPC\0\0\x01\0");
    assert_eq!(frame[10], 1);
    assert_eq!(&frame[11..19], &[0; 8]);
    assert_eq!(&frame[35..37], &[12, 0]);
    assert_eq!(&frame[37..49], b"forward-data");
}

#[test]
fn broken_frames_name_their_defect() {
    let good = write_frame(&handle());
    let broken = |at: usize, byte: u8| {
        let mut frame = good.clone();
        frame[at] = byte;
        read_frame(&frame).unwrap_err()
    };
    assert_eq!(broken(0, b'X'), Fault::SetupMagic);
    assert_eq!(broken(8, 2), Fault::SetupVersion);
    assert_eq!(broken(10, 9), Fault::SetupPayloadKind);
    assert_eq!(broken(11, 1), Fault::PayloadContract);
    assert_eq!(broken(35, 0), Fault::SetupRegionName);
    assert_eq!(broken(37, 0xff), Fault::SetupRegionUtf8);
    assert_eq!(broken(50, 0), Fault::RegionLength);
    let flow = 35 + (2 + 12 + 8) + (2 + 15 + 8) + 32;
    assert_eq!(broken(flow, 7), Fault::UnknownFlow);
}

#[test]
fn setups_are_checked_before_anything_is_mapped() {
    let bytes = PayloadContract::bytes();
    assert_eq!(check_setup(&handle(), bytes), Ok(()));
    assert_eq!(check_setup(&handle(), PayloadContract::pod::<u64>()), Err(Fault::PayloadMismatch));
    let mut crossed = handle();
    crossed.worker_to_parent = direction(StreamFlow::WorkerToParent, 43, "reverse");
    assert_eq!(check_setup(&crossed, bytes), Err(Fault::Unpaired));
    let mut crossed = handle();
    crossed.worker_to_parent = direction(StreamFlow::ParentToWorker, 42, "reverse");
    assert_eq!(check_setup(&crossed, bytes), Err(Fault::Unpaired));
    let mut odd = handle();
    let wide = PayloadContract::pod::<Triple>();
    odd.payload = wide;
    assert_eq!(check_setup(&odd, wide), Err(Fault::PodShape));
    assert_eq!(setup_answer(false), REJECTED);
}

#[derive(Clone, Copy)]
struct Triple([u8; 3]);

impl IpcPod for Triple {
    fn schema_id() -> u64 {
        77
    }

    fn size() -> usize {
        3
    }

    fn encode(self, _order: ByteOrder, out: &mut Vec<u8>) {
        out.extend_from_slice(&self.0);
    }

    fn decode(bytes: &[u8], _order: ByteOrder) -> Self {
        Triple([bytes[0], bytes[1], bytes[2]])
    }
}

#[test]
fn channels_have_two_transfers() {
    let shape = StreamShape { total_bytes: 1, chunk_bytes: 1, slots: 1 };
    let (out, back) = paired_configs(shape, 5, EndpointOptions::default()).unwrap();
    assert_eq!((out.transfer_id, out.flow), (5, StreamFlow::ParentToWorker));
    assert_eq!((back.transfer_id, back.flow), (6, StreamFlow::WorkerToParent));
    assert_eq!(
        paired_configs(shape, u64::MAX, EndpointOptions::default()).err(),
        Some(Fault::TransferIdOverflow)
    );
}

#[test]
fn a_created_channel_is_joined_once() {
    let shape = StreamShape { total_bytes: 64, chunk_bytes: 16, slots: 2 };
    let options = EndpointOptions::default();
    let (out, _) = paired_configs(shape, 5, options).unwrap();
    let (data_len, release_len) = Direction::extents(out).unwrap();
    let region = |name: &str, len| RegionHandle::from_parts(name.into(), len).unwrap();
    let mut words = [Words::zeroed(); 4];
    let [a, b, c, d] = &mut words;
    let (mut out_data, mut out_releases) = (zeroed(data_len), zeroed(release_len));
    let (mut back_data, mut back_releases) = (zeroed(data_len), zeroed(release_len));
    let payload = PayloadContract::bytes();
    let (creator, handle) = create(
        shape,
        5,
        options,
        payload,
        region("out", data_len),
        a,
        &mut out_data,
        region("out-releases", release_len),
        b,
        &mut out_releases,
        region("back", data_len),
        c,
        &mut back_data,
        region("back-releases", release_len),
        d,
        &mut back_releases,
    )
    .unwrap();
    assert_eq!(creator.shape(), shape);
    let mut join = |expected| {
        attach_peer(
            &handle,
            options,
            expected,
            a,
            &out_data,
            b,
            &out_releases,
            c,
            &back_data,
            d,
            &back_releases,
        )
    };
    assert_eq!(join(PayloadContract::pod::<u8>()), Err(Fault::PayloadMismatch));
    let peer = join(payload).unwrap();
    assert_eq!(peer.shape(), shape);
    assert_eq!(peer.receive().transfer_id, creator.send().transfer_id);
    assert_eq!(peer.send().transfer_id, creator.receive().transfer_id);
    assert_eq!(join(payload), Err(Fault::RoleClaimed));
}
