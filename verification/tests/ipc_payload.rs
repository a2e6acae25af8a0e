use prescient::ipc::control::{
    accept_step, connect_step, deadline, endpoint_file, Attempt, Rendezvous,
};
use prescient::ipc::destination::{bytes_of, PodDestination};
use prescient::ipc::region::RegionHandle;
use prescient::ipc::stream::{
    zeroed, Direction, DirectionConfig, DirectionRole, EndpointOptions, Ending, StreamFlow,
    StreamShape, Words,
};
use prescient::ipc::{
    ByteOrder, CodecDuplex, Duplex, Fault, FaultKind, IpcCodec, IpcPod, PayloadContract,
    PayloadKind, PodDuplex,
};

#[test]
fn endpoint_names_are_bounded_and_path_safe() {
    for invalid in ["", "slash/name", "white space", "123456789012345678901"] {
        assert_eq!(endpoint_file(invalid).unwrap_err().kind(), FaultKind::InvalidInput);
    }
    assert!(endpoint_file("orders.v2_live-1").is_ok());
    assert_eq!(endpoint_file("orders").unwrap(), "prescient-orders.sock");
    assert!(endpoint_file("na\u{ef}ve").is_err());
}

#[test]
fn rendezvous_retries_until_the_deadline() {
    assert_eq!(deadline(5, 7), Ok(12));
    assert_eq!(deadline(u128::MAX, 1), Err(Fault::DeadlineOverflow));
    assert_eq!(accept_step(Attempt::Connected, 9, 5), Rendezvous::Met);
    assert_eq!(accept_step(Attempt::WouldBlock, 4, 5), Rendezvous::Retry);
    assert_eq!(
        accept_step(Attempt::WouldBlock, 5, 5),
        Rendezvous::Fail(Fault::AcceptTimedOut)
    );
    assert_eq!(accept_step(Attempt::NotFound, 0, 5), Rendezvous::Pass);
    for attempt in [Attempt::NotFound, Attempt::ConnectionRefused, Attempt::AddrNotAvailable] {
        assert_eq!(connect_step(attempt, 4, 5), Rendezvous::Retry);
        assert_eq!(connect_step(attempt, 6, 5), Rendezvous::Fail(Fault::ConnectTimedOut));
    }
    assert_eq!(connect_step(Attempt::Failed, 0, 5), Rendezvous::Pass);
}

#[derive(Clone, Copy, Debug, PartialEq)]
struct Aligned([u8; 64]);

impl IpcPod for Aligned {
    fn schema_id() -> u64 {
        0x5053_5445_5354_0001
    }

    fn size() -> usize {
        64
    }

    fn encode(self, _order: ByteOrder, out: &mut Vec<u8>) {
        out.extend_from_slice(&self.0);
    }

    fn decode(bytes: &[u8], _order: ByteOrder) -> Self {
        let mut value = [0; 64];
        value.copy_from_slice(bytes);
        Aligned(value)
    }
}

#[test]
fn fragmented_bytes_commit_the_original_aligned_allocation() {
    let input: Vec<u8> = (0..128).map(|i| i as u8).collect();
    for chunk in [1, 3, 7, 63, 64, 65, 127, 128] {
        let mut out = PodDestination::<Aligned>::new(input.len(), ByteOrder::Little).ok().unwrap();
        for part in input.chunks(chunk) {
            out.write_all(part).unwrap();
        }
        let values = out.finish().unwrap();
        assert_eq!(values.len(), 2);
        assert_eq!(values[0].0, input[..64]);
        assert_eq!(values[1].0, input[64..]);
    }
}

#[test]
fn short_or_abandoned_prefix_never_exposes_uninitialized_values() {
    for written in 0..16 {
        let mut out = PodDestination::<u64>::new(16, ByteOrder::Little).ok().unwrap();
        out.write_all(&[0xab; 16][..written]).unwrap();
        assert_eq!(out.finish().unwrap_err().kind(), FaultKind::UnexpectedEof);
        let mut abandoned = PodDestination::<Aligned>::new(64, ByteOrder::Little).ok().unwrap();
        abandoned.write_all(&[0xff; 64][..written]).unwrap();
        drop(abandoned);
    }
}

#[test]
fn write_all_matches_bounded_slice_prefix_semantics() {
    for bytes in [0usize, 1, 8, 16] {
        for input_len in 0..=24 {
            let input = vec![0xab; input_len];
            let mut reference = vec![0; bytes];
            let expected = if input_len > bytes { Some(FaultKind::WriteZero) } else { None };
            let kept = bytes.min(input_len);
            reference[..kept].copy_from_slice(&input[..kept]);
            let mut out = PodDestination::<u8>::new(bytes, ByteOrder::Little).ok().unwrap();
            let actual = out.write_all(&input);
            assert_eq!(actual.err().map(|e| e.kind()), expected);
            assert_eq!(out.written(), bytes.min(input_len));
            if input_len >= bytes {
                assert_eq!(out.finish().unwrap(), reference);
            } else {
                assert_eq!(out.finish().unwrap_err().kind(), FaultKind::UnexpectedEof);
            }
        }
    }
}

#[test]
fn bounded_write_empty_destination_and_invalid_shape() {
    let mut out = PodDestination::<u64>::new(8, ByteOrder::Little).ok().unwrap();
    assert_eq!(out.write(&[0xff; 9]), 8);
    assert_eq!(out.write(&[1]), 0);
    assert_eq!(out.write_all(&[1]).unwrap_err().kind(), FaultKind::WriteZero);
    assert_eq!(out.finish().unwrap(), [u64::MAX]);
    let mut empty = PodDestination::<Aligned>::new(0, ByteOrder::Little).ok().unwrap();
    assert_eq!(empty.write(&[]), 0);
    assert!(empty.finish().unwrap().is_empty());
    assert!(PodDestination::<u64>::new(7, ByteOrder::Little).is_err());
}

fn survives<P: IpcPod + PartialEq + std::fmt::Debug>(values: &[P], image: &[u8]) {
    let bytes = bytes_of(values, ByteOrder::Little);
    assert_eq!(&bytes[..image.len()], image);
    let mut out = PodDestination::<P>::new(bytes.len(), ByteOrder::Little).ok().unwrap();
    out.write_all(&bytes).unwrap();
    assert_eq!(out.finish().unwrap(), values);
    let reversed = bytes_of(values, ByteOrder::Big);
    let size = P::size();
    for (one, other) in bytes.chunks(size).zip(reversed.chunks(size)) {
        assert!(one.iter().eq(other.iter().rev()));
    }
    let mut out = PodDestination::<P>::new(bytes.len(), ByteOrder::Big).ok().unwrap();
    out.write_all(&reversed).unwrap();
    assert_eq!(out.finish().unwrap(), values);
}

#[test]
fn plain_values_are_their_bytes() {
    survives(&[0u8, 255], &[0, 255]);
    survives(&[-1i8, 127, -128], &[255, 127, 128]);
    survives(&[0x0102u16], &[2, 1]);
    survives(&[-2i16, i16::MIN, i16::MAX], &[0xfe, 0xff]);
    survives(&[0x0102_0304u32, u32::MAX], &[4, 3, 2, 1]);
    survives(&[-3i32, i32::MIN, i32::MAX, 0], &[0xfd, 0xff, 0xff, 0xff]);
    survives(&[0x0102_0304_0506_0708u64], &[8, 7, 6, 5, 4, 3, 2, 1]);
    survives(&[-4i64, i64::MIN, i64::MAX], &[0xfc, 0xff]);
    survives(&[1u128 << 120, u128::MAX], &[0; 15]);
    survives(&[-5i128, i128::MIN, i128::MAX, 6], &[0xfb, 0xff]);
}

#[test]
fn contracts_describe_their_payload() {
    let bytes = PayloadContract::bytes();
    assert_eq!(bytes.kind(), PayloadKind::Bytes);
    assert_eq!((bytes.schema_id(), bytes.element_size(), bytes.element_align()), (0, 1, 1));
    assert_eq!(bytes.validate(), Ok(()));
    let pod = PayloadContract::pod::<u32>();
    assert_eq!(pod.kind(), PayloadKind::Pod);
    assert_eq!(pod.schema_id(), 0x5053_0000_0000_0005);
    assert_eq!((pod.element_size(), pod.element_align()), (4, 4));
    assert_eq!(pod.validate(), Ok(()));
    let encoded = PayloadContract::codec::<u32, Decimal>();
    assert_eq!(encoded.kind(), PayloadKind::Codec);
    assert_eq!(
        (encoded.schema_id(), encoded.element_size(), encoded.element_align()),
        (3, 0, 0)
    );
    assert_eq!(encoded.validate(), Ok(()));
    let odd = PayloadContract::from_parts(PayloadKind::Pod, 1, 4, 3);
    assert_eq!(odd.validate(), Err(Fault::PayloadContract));
}

struct Decimal;

/// What the codec says of a failure: a class and a text of its own.
#[derive(Debug, PartialEq)]
struct Misread(FaultKind, String);

impl IpcCodec<u32> for Decimal {
    type Error = Misread;

    fn schema_id() -> u64 {
        3
    }

    fn encode(value: &u32, output: &mut Vec<u8>) -> Result<(), Misread> {
        if *value > 999 {
            return Err(Misread(FaultKind::InvalidInput, format!("{value} has too many digits")));
        }
        output.extend_from_slice(value.to_string().as_bytes());
        Ok(())
    }

    fn decode(input: &[u8]) -> Result<u32, Misread> {
        let mut value = 0;
        for byte in input {
            if !byte.is_ascii_digit() {
                return Err(Misread(FaultKind::InvalidData, format!("{byte} is no digit")));
            }
            value = value * 10 + u32::from(byte - b'0');
        }
        Ok(value)
    }
}

fn direction(total_bytes: u64) -> Direction {
    let config = DirectionConfig {
        shape: StreamShape { total_bytes, chunk_bytes: 8, slots: 1 },
        transfer_id: 4,
        flow: StreamFlow::ParentToWorker,
        options: EndpointOptions::default(),
    };
    let (data_len, release_len) = Direction::extents(config).unwrap();
    Direction::create(
        config,
        DirectionRole::Producer,
        RegionHandle::from_parts("data".into(), data_len).unwrap(),
        &mut Words::zeroed(),
        &mut zeroed(data_len),
        RegionHandle::from_parts("releases".into(), release_len).unwrap(),
        &mut Words::zeroed(),
        &mut zeroed(release_len),
    )
    .unwrap()
    .0
}

#[test]
fn pod_channels_send_whole_values() {
    let pods = PodDuplex::<u32>::new(Duplex::new(direction(8), direction(8)), ByteOrder::Little);
    let (bytes, side) = pods.send(&[1, 2]).unwrap();
    assert_eq!(bytes, [1, 0, 0, 0, 2, 0, 0, 0]);
    assert_eq!(side.ending, Ending::Exact);
    assert_eq!(pods.send(&[1]).err(), Some(Fault::PodSliceShape));
    let (mut destination, _) = pods.receive().ok().unwrap();
    destination.write_all(&bytes).unwrap();
    assert_eq!(destination.finish().unwrap(), [1, 2]);
    let odd = PodDuplex::<u32>::new(Duplex::new(direction(6), direction(6)), ByteOrder::Little);
    assert_eq!(odd.receive().err(), Some(Fault::PodDestinationShape));
}

#[test]
fn codec_channels_encode_and_decode() {
    let words = CodecDuplex::<u32, Decimal>::new(Duplex::new(direction(8), direction(8)));
    let (bytes, side) = words.send(&742).unwrap();
    assert_eq!(bytes, b"742");
    assert_eq!(side.ending, Ending::AtEnd);
    assert_eq!(words.receive().ending, Ending::AtEnd);
    assert_eq!(words.received(&bytes), Ok(742));
    assert_eq!(
        words.received(b"x"),
        Err(Misread(FaultKind::InvalidData, "120 is no digit".into()))
    );
    assert_eq!(
        words.send(&1_000).err(),
        Some(Misread(FaultKind::InvalidInput, "1000 has too many digits".into()))
    );
}

#[test]
fn channels_split_into_halves() {
    let duplex = Duplex::new(direction(8), direction(16));
    assert_eq!(duplex.shape().total_bytes, 8);
    let (sender, receiver) = duplex.split();
    assert_eq!(sender.shape().total_bytes, 8);
    assert_eq!(receiver.shape().total_bytes, 16);
    assert_eq!(sender.send(), duplex.send());
    assert_eq!(receiver.receive_to_end(), duplex.receive_to_end());
}

#[test]
fn faults_have_a_class_and_a_message() {
    assert_eq!(Fault::TransferIdZero.kind(), FaultKind::InvalidInput);
    assert_eq!(Fault::TransferIdZero.message(), "transfer id zero is reserved");
    assert_eq!(Fault::WaitTimedOut.kind(), FaultKind::TimedOut);
    assert_eq!(Fault::PeerClosed.kind(), FaultKind::UnexpectedEof);
    assert_eq!(Fault::RegionRandomness { code: 1 }.kind(), FaultKind::Other);
}

#[test]
fn values_cross_in_the_order_of_the_machine() {
    let value = 0x0102_0304u32;
    assert_eq!(bytes_of(&[value], ByteOrder::Little), value.to_le_bytes());
    assert_eq!(bytes_of(&[value], ByteOrder::Big), value.to_be_bytes());
    assert_eq!(bytes_of(&[-2i64], ByteOrder::Big), (-2i64).to_be_bytes());
    assert_eq!(bytes_of(&[i128::MIN], ByteOrder::Big), i128::MIN.to_be_bytes());
    let native = if 1u16.to_ne_bytes() == [1, 0] { ByteOrder::Little } else { ByteOrder::Big };
    assert_eq!(bytes_of(&[value, 7], native), [value.to_ne_bytes(), 7u32.to_ne_bytes()].concat());
    let pods = PodDuplex::<u32>::new(Duplex::new(direction(8), direction(8)), ByteOrder::Big);
    let (bytes, _) = pods.send(&[1, 2]).unwrap();
    assert_eq!(bytes, [0, 0, 0, 1, 0, 0, 0, 2]);
    let (mut destination, _) = pods.receive().ok().unwrap();
    destination.write_all(&bytes).unwrap();
    assert_eq!(destination.finish().unwrap(), [1, 2]);
}

#[test]
fn randomness_faults_tell_their_cause() {
    assert_eq!(Fault::TransferIdZero.description(), "transfer id zero is reserved");
    assert_eq!(Fault::EventRandomness { code: 0 }.description(), "event name randomness failed");
    let unsupported = 1u32 << 31;
    assert_eq!(
        Fault::RegionRandomness { code: unsupported }.description(),
        "region name randomness failed: getrandom: this target is not supported"
    );
    assert_eq!(
        Fault::EventRandomness { code: unsupported + 2 }.description(),
        "event name randomness failed: unexpected situation"
    );
    assert_eq!(
        Fault::RegionRandomness { code: u32::MAX }.description(),
        "region name randomness failed: Unknown Error: 4294967295"
    );
    let system = Fault::RegionRandomness { code: 2 }.description();
    assert!(system.starts_with("region name randomness failed: "));
    assert!(system.len() > "region name randomness failed: ".len());
}
