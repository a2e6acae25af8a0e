use prescient::backend::{Ring, Seg};
use prescient::capacity::{
    automatic, automatic_for, automatic_lane, leased, plateau, selected, selected_array, selected_plain,
    selected_pool,
};
use prescient::ipc;
use prescient::mpmc::{broadcast, brokered, brokerless, lanes};
use prescient::routing::Router;
use prescient::{engine, execution, membership, topology, wait, Channel, Shape};

#[test]
fn declarations_start_from_the_documented_defaults() {
    let channel = Channel::<u64>::new();
    assert_eq!(channel.shape.producers, 1);
    assert_eq!(channel.shape.consumers, 1);
    assert_eq!(channel.shape.brokers, 1);
    assert_eq!(channel.shape.capacity, None);
    assert_eq!(channel.shape.batch, 64);
    assert_eq!(channel.shape.max_producers, 64);
    assert_eq!(channel.shape.max_readers, 64);
    assert_eq!(channel.shape.recycling, None);
    assert_eq!(channel.shape.timeout_nanos, 30_000_000_000);
    assert!(!channel.shape.lock_memory);
    assert_eq!(channel.shape.total_bytes, 0);
    assert_eq!(channel.shape.chunk_bytes, 64 * 1024);
    assert_eq!(channel.shape.slots, 8);
    assert_eq!(channel.shape.transfer_id, 1);
    assert_eq!(channel.shape, Shape::default());
    assert_eq!(channel.shape, Channel::<u64>::default().shape);
}

#[test]
fn builders_set_one_number_each() {
    let channel = Channel::<u64>::new().capacity(256).batch(8).mpsc_fixed().producers(4);
    assert_eq!(
        channel.shape,
        Shape { capacity: Some(256), batch: 8, producers: 4, ..Shape::default() }
    );
    let pool = Channel::<u64>::new().mpsc_pool().max_producers(3);
    assert_eq!(pool.shape, Shape { max_producers: 3, ..Shape::default() });
    let dynamic = Channel::<u64>::new()
        .mpsc_dynamic()
        .membership::<membership::LockFree>()
        .expected_producers(5)
        .recycling(2);
    assert_eq!(dynamic.shape, Shape { producers: 5, recycling: Some(2), ..Shape::default() });
    let broadcast = Channel::<u64>::new().broadcast().max_readers(7);
    assert_eq!(broadcast.shape, Shape { max_readers: 7, ..Shape::default() });
    let brokered = Channel::<u64>::new().mpmc_brokered().producers(2).consumers(3).brokers(4).manual();
    assert_eq!(
        brokered.shape,
        Shape { producers: 2, consumers: 3, brokers: 4, ..Shape::default() }
    );
    let array = Channel::<u64>::new().mpmc_dynamic_array(9).consumers(2);
    assert_eq!(array.shape, Shape { array_producers: 9, consumers: 2, ..Shape::default() });
}

fn returns_to_park(
    channel: Channel<u64, topology::MpscFixed, prescient::backend::Ring, execution::Sync, wait::Park>,
) -> Shape {
    channel.shape
}

#[test]
fn leaving_asynchronous_execution_restores_the_default_waiter() {
    let channel = Channel::<u64>::new().wait::<wait::Spin>().asynchronous().sync();
    assert_eq!(returns_to_park(channel), Shape::default());
}

#[derive(Clone)]
struct First;

impl Router<u64> for First {
    fn target(&mut self, _item: &u64, _consumers: usize) -> usize {
        0
    }
}

#[test]
fn namespaces_declare_the_same_channels() {
    let direct: Channel<u64, topology::Mpmc<engine::Claim>, _, _, wait::SpinYield> =
        brokerless::channel::<u64>();
    assert_eq!(direct.shape, Shape::default());
    assert_eq!(lanes::channel::<u64>().shape, Shape::default());
    assert_eq!(broadcast::channel::<u64>().shape, Shape::default());
    assert_eq!(brokered::channel::<u64>().route(First).shape, Shape::default());
    assert_eq!(brokerless::dynamic::locked::<u64>().expected_producers(3).shape.producers, 3);
    assert_eq!(brokerless::dynamic::array::<u64>(6).shape.array_producers, 6);
    assert_eq!(brokerless::leased::channel::<u64>().shape, Shape::default());
}

#[test]
fn process_channels_meet_at_an_endpoint() {
    let creator = ipc::channel().shape(4_096, 512, 4).transfer_id(9).timeout(7).lock_memory(true);
    assert_eq!(creator.transport.endpoint, "default");
    assert_eq!(
        creator.shape,
        Shape {
            total_bytes: 4_096,
            chunk_bytes: 512,
            slots: 4,
            transfer_id: 9,
            timeout_nanos: 7,
            lock_memory: true,
            ..Shape::default()
        }
    );
    assert_eq!(ipc::attach().endpoint("orders".into()).transport.endpoint, "orders");
    assert_eq!(ipc::pod::channel::<u64>().transport.endpoint, "default");
    assert_eq!(
        ipc::pod::attach::<u64>().endpoint("pods".into()).transport.endpoint,
        "pods"
    );
    assert_eq!(ipc::channel().endpoint("kept".into()).attach().transport.endpoint, "kept");
}

#[test]
fn automatic_capacities_have_four_plateaus() {
    assert_eq!(plateau(0), 64);
    assert_eq!(plateau(127), 64);
    assert_eq!(plateau(128), 256);
    assert_eq!(plateau(511), 256);
    assert_eq!(plateau(512), 1_024);
    assert_eq!(plateau(2_047), 1_024);
    assert_eq!(plateau(2_048), 4_096);
    assert_eq!(automatic_for::<u64>(1, 1), 4_096);
    assert_eq!(automatic(8, 100, 1), 1_024);
    assert_eq!(automatic(0, 0, 0), 4_096);
    assert_eq!(automatic(4_096, 1, 4), 64);
    assert_eq!(selected::<u64, Ring>(&Shape::default()), 4_096);
    assert_eq!(selected::<u64, Ring>(&Shape { capacity: Some(3), ..Shape::default() }), 3);
}

#[test]
fn channels_that_are_not_sized_by_their_values_have_a_plain_capacity() {
    let chosen = Shape { capacity: Some(3), ..Shape::default() };
    assert_eq!(selected::<u64, Seg>(&Shape::default()), 1_024);
    assert_eq!(selected::<u64, Seg>(&chosen), 3);
    assert_eq!(selected_plain(&Shape::default()), 1_024);
    assert_eq!(selected_plain(&chosen), 3);
}

#[test]
fn pools_and_bounded_channels_count_all_their_producers() {
    let array = Channel::<u64>::new().mpmc_dynamic_array(4_096);
    assert_eq!(selected_array::<u64, Ring>(&array.shape), 64);
    let pool = Channel::<u64>::new().mpsc_pool().max_producers(1_024);
    assert_eq!(selected_pool::<u64, Ring>(&pool.shape), 256);
    let expected = Channel::<u64>::new().mpmc_dynamic_locked().expected_producers(256);
    assert_eq!(selected::<u64, Ring>(&expected.shape), 1_024);
    assert_eq!(selected_pool::<u64, Ring>(&pool.capacity(5).shape), 5);
}

#[test]
fn lanes_share_the_capacity_of_their_producer() {
    assert_eq!(automatic_lane::<u64>(1, 1), 4_096);
    assert_eq!(automatic_lane::<u64>(4, 4), 1_024);
    assert_eq!(automatic_lane::<u64>(1, 3), 1_365);
}

#[test]
fn leased_capacities_are_whole_batches() {
    assert_eq!(leased(8, 1, 1, 64), Some(4_096));
    assert_eq!(leased(65, 1, 1, 64), Some(1_024));
    assert_eq!(leased(8, 1, 1, 1_000), Some(5_000));
    assert_eq!(leased(1_048_576, 4, 1, 3), Some(66));
    assert_eq!(leased(8, 1, 1, usize::MAX - 1), Some(usize::MAX - 1));
}
