use prescient::backend::{Ring, Seg};
use prescient::mpmc::brokered::{open, BrokerStep, Consumer, Shared, Targets};
use prescient::mpmc::brokerless::{RecvStep, SendStep};
use prescient::pause::Backoff;
use prescient::routing::{PubSub, Route, RoundRobin, Router, Subscriber};
use std::rc::Rc;

#[derive(Clone)]
struct Parity;

impl Router<u32> for Parity {
    fn target(&mut self, item: &u32, _consumers: usize) -> usize {
        *item as usize % 2
    }
}

#[derive(Clone)]
struct Everyone;

impl Subscriber<u32> for Everyone {
    fn targets(&mut self, _item: &u32, consumers: usize) -> Targets {
        Targets::all(consumers)
    }
}

fn drain(consumer: &mut Consumer, shared: &mut Shared<u32, Ring>) -> Vec<u32> {
    let mut got = Vec::new();
    while let Some(value) = consumer.try_recv(shared) {
        got.push(value);
    }
    got
}

#[test]
fn round_robin_spreads_values() {
    let (mut shared, mut producers, mut consumers, mut brokers) =
        open::<u32, Ring, RoundRobin>(1, 2, 1, 8, RoundRobin::default());
    for value in 0..4 {
        assert!(producers[0].try_send(&mut shared, value).is_ok());
    }
    for _ in 0..16 {
        brokers[0].step(&mut shared);
    }
    assert_eq!(drain(&mut consumers[0], &mut shared), [0, 2]);
    assert_eq!(drain(&mut consumers[1], &mut shared), [1, 3]);
}

#[test]
fn routes_choose_the_consumer() {
    let (mut shared, mut producers, mut consumers, mut brokers) =
        open::<u32, Ring, Route<Parity>>(1, 2, 1, 8, Route { router: Parity });
    for value in [4, 6, 7, 8] {
        assert!(producers[0].try_send(&mut shared, value).is_ok());
    }
    for _ in 0..16 {
        brokers[0].step(&mut shared);
    }
    assert_eq!(drain(&mut consumers[0], &mut shared), [4, 6, 8]);
    assert_eq!(drain(&mut consumers[1], &mut shared), [7]);
}

#[test]
fn published_values_reach_every_target() {
    let (mut shared, mut producers, mut consumers, mut brokers) = open::<u32, Ring, PubSub<Everyone>>(
        1,
        3,
        1,
        8,
        PubSub { subscribe: Everyone, consumer_mask: 0 },
    );
    for value in 0..3 {
        assert!(producers[0].try_send(&mut shared, value).is_ok());
    }
    for _ in 0..64 {
        brokers[0].step(&mut shared);
    }
    for consumer in consumers.iter_mut() {
        assert_eq!(drain(consumer, &mut shared), [0, 1, 2]);
    }
}

#[test]
fn brokers_finish_after_their_producers() {
    let (mut shared, mut producers, mut consumers, mut brokers) =
        open::<u32, Ring, RoundRobin>(1, 1, 1, 2, RoundRobin::default());
    let mut backoff = Backoff::new();
    assert!(matches!(producers[0].send(&mut shared, &mut backoff, 5), SendStep::Sent));
    producers.pop().unwrap().disconnect(&mut shared);
    let mut steps = 0;
    while brokers[0].step(&mut shared) != BrokerStep::Finished {
        steps += 1;
        assert!(steps < 100);
    }
    assert!(matches!(consumers[0].recv(&mut shared, &mut backoff), RecvStep::Value(5)));
    assert!(matches!(consumers[0].recv(&mut shared, &mut backoff), RecvStep::Finished));
}

#[test]
fn targets_are_sets_of_consumers() {
    assert_eq!(Targets::none().bits(), 0);
    assert_eq!(Targets::all(3).bits(), 0b111);
    assert_eq!(Targets::all(64).bits(), u64::MAX);
    assert_eq!(Targets::one(5).bits(), 0b10_0000);
    assert_eq!(Targets::one(0).with(2).bits(), 0b101);
    assert_eq!(Targets::of(&[1, 1, 3]).bits(), 0b1010);
}

#[test]
fn values_come_back_once_the_broker_is_gone() {
    let (mut shared, mut producers, mut consumers, mut brokers) =
        open::<u32, Ring, RoundRobin>(1, 1, 1, 2, RoundRobin::default());
    brokers.pop().unwrap().disconnect(&mut shared);
    assert_eq!(producers[0].try_send(&mut shared, 5), Err(5));
    let mut backoff = Backoff::new();
    assert!(matches!(producers[0].send(&mut shared, &mut backoff, 6), SendStep::Discarded));
    assert!(consumers[0].is_disconnected(&shared));
    assert!(matches!(consumers[0].recv(&mut shared, &mut backoff), RecvStep::Finished));
}

#[test]
fn a_departed_consumer_holds_nobody_up() {
    let (mut shared, mut producers, mut consumers, mut brokers) =
        open::<u32, Ring, RoundRobin>(1, 2, 1, 1, RoundRobin::default());
    consumers.pop().unwrap().disconnect(&mut shared);
    let mut got = Vec::new();
    let mut sent = 0;
    while got.len() < 6 {
        if sent < 6 && producers[0].try_send(&mut shared, sent).is_ok() {
            sent += 1;
        }
        brokers[0].step(&mut shared);
        got.extend(drain(&mut consumers[0], &mut shared));
    }
    assert_eq!(got, [0, 1, 2, 3, 4, 5]);
}

#[test]
fn values_for_departed_consumers_are_dropped() {
    let (mut shared, mut producers, mut consumers, mut brokers) =
        open::<u32, Ring, Route<Parity>>(1, 2, 1, 4, Route { router: Parity });
    for value in [1, 2, 3, 4] {
        assert!(producers[0].try_send(&mut shared, value).is_ok());
    }
    consumers.pop().unwrap().disconnect(&mut shared);
    for _ in 0..16 {
        brokers[0].step(&mut shared);
    }
    assert_eq!(drain(&mut consumers[0], &mut shared), [2, 4]);
}

#[derive(Clone)]
struct Alternating(usize);

impl Router<u32> for Alternating {
    fn target(&mut self, _item: &u32, _consumers: usize) -> usize {
        self.0 += 1;
        self.0
    }
}

#[test]
fn routers_are_asked_once_for_each_value_and_wrap_around() {
    let (mut shared, mut producers, mut consumers, mut brokers) =
        open::<u32, Ring, Route<Alternating>>(1, 3, 1, 8, Route { router: Alternating(1) });
    for value in 0..6 {
        assert!(producers[0].try_send(&mut shared, value).is_ok());
    }
    for _ in 0..32 {
        brokers[0].step(&mut shared);
    }
    assert_eq!(drain(&mut consumers[0], &mut shared), [1, 4]);
    assert_eq!(drain(&mut consumers[1], &mut shared), [2, 5]);
    assert_eq!(drain(&mut consumers[2], &mut shared), [0, 3]);
}

#[derive(Clone)]
struct Even;

impl Subscriber<u32> for Even {
    fn targets(&mut self, item: &u32, _consumers: usize) -> Targets {
        if *item % 2 == 0 { Targets::of(&[0, 2, 9]) } else { Targets::none() }
    }
}

#[test]
fn subscribers_decide_who_gets_a_value() {
    let (mut shared, mut producers, mut consumers, mut brokers) = open::<u32, Ring, PubSub<Even>>(
        1,
        3,
        1,
        8,
        PubSub { subscribe: Even, consumer_mask: 0 },
    );
    for value in 0..4 {
        assert!(producers[0].try_send(&mut shared, value).is_ok());
    }
    for _ in 0..64 {
        brokers[0].step(&mut shared);
    }
    assert_eq!(drain(&mut consumers[0], &mut shared), [0, 2]);
    assert_eq!(drain(&mut consumers[1], &mut shared), [0; 0]);
    assert_eq!(drain(&mut consumers[2], &mut shared), [0, 2]);
}

#[test]
fn a_broker_frees_the_slots_of_a_batch_at_once() {
    let (mut shared, mut producers, mut consumers, mut brokers) =
        open::<u32, Ring, RoundRobin>(1, 1, 1, 2, RoundRobin::default());
    for value in [1, 2] {
        assert!(producers[0].try_send(&mut shared, value).is_ok());
    }
    for _ in 0..32 {
        brokers[0].step(&mut shared);
    }
    for value in [3, 4] {
        assert!(producers[0].try_send(&mut shared, value).is_ok());
    }
    for _ in 0..32 {
        brokers[0].step(&mut shared);
    }
    assert_eq!(brokers[0].step(&mut shared), BrokerStep::Blocked);
    assert_eq!(producers[0].try_send(&mut shared, 5), Err(5));
    assert_eq!(consumers[0].try_recv(&mut shared), Some(1));
    for _ in 0..32 {
        brokers[0].step(&mut shared);
    }
    assert_eq!(brokers[0].step(&mut shared), BrokerStep::Blocked);
    assert_eq!(producers[0].try_send(&mut shared, 5), Err(5));
    assert_eq!(consumers[0].try_recv(&mut shared), Some(2));
    for _ in 0..32 {
        brokers[0].step(&mut shared);
    }
    assert_eq!(producers[0].try_send(&mut shared, 5), Ok(()));
    for _ in 0..32 {
        brokers[0].step(&mut shared);
    }
    assert_eq!(drain(&mut consumers[0], &mut shared), [3, 4]);
    for _ in 0..32 {
        brokers[0].step(&mut shared);
    }
    assert_eq!(drain(&mut consumers[0], &mut shared), [5]);
}

#[test]
fn a_consumer_that_leaves_a_ring_drops_its_values() {
    let (mut shared, mut producers, mut consumers, mut brokers) =
        open::<Rc<()>, Ring, RoundRobin>(1, 1, 1, 4, RoundRobin::default());
    let token = Rc::new(());
    assert!(producers[0].try_send(&mut shared, Rc::clone(&token)).is_ok());
    for _ in 0..32 {
        brokers[0].step(&mut shared);
    }
    assert_eq!(Rc::strong_count(&token), 2);
    consumers.pop().unwrap().disconnect(&mut shared);
    assert_eq!(Rc::strong_count(&token), 1);
}

#[test]
fn a_consumer_that_leaves_a_segment_queue_keeps_its_values() {
    let (mut shared, mut producers, mut consumers, mut brokers) =
        open::<Rc<()>, Seg, RoundRobin>(1, 1, 1, 4, RoundRobin::default());
    let token = Rc::new(());
    assert!(producers[0].try_send(&mut shared, Rc::clone(&token)).is_ok());
    for _ in 0..32 {
        brokers[0].step(&mut shared);
    }
    assert_eq!(Rc::strong_count(&token), 2);
    consumers.pop().unwrap().disconnect(&mut shared);
    assert_eq!(Rc::strong_count(&token), 2);
    drop(shared);
    assert_eq!(Rc::strong_count(&token), 1);
}

#[test]
fn a_batch_moves_what_was_there_when_it_started() {
    let (mut shared, mut producers, mut consumers, mut brokers) =
        open::<u32, Ring, RoundRobin>(1, 1, 1, 8, RoundRobin::default());
    assert!(producers[0].try_send(&mut shared, 1).is_ok());
    assert!(producers[0].try_send(&mut shared, 2).is_ok());
    assert_eq!(brokers[0].step(&mut shared), BrokerStep::Moved);
    assert!(producers[0].try_send(&mut shared, 3).is_ok());
    assert_eq!(brokers[0].step(&mut shared), BrokerStep::Moved);
    assert_eq!(brokers[0].step(&mut shared), BrokerStep::Moved);
    assert_eq!(brokers[0].step(&mut shared), BrokerStep::Moved);
    assert_eq!(brokers[0].step(&mut shared), BrokerStep::Turned);
    assert_eq!(drain(&mut consumers[0], &mut shared), [1, 2]);
    assert_eq!(brokers[0].step(&mut shared), BrokerStep::Turned);
    assert_eq!(brokers[0].step(&mut shared), BrokerStep::Moved);
    assert_eq!(brokers[0].step(&mut shared), BrokerStep::Moved);
    assert_eq!(drain(&mut consumers[0], &mut shared), [3]);
}
