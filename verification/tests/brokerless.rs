use prescient::backend::{Batch, Ring, Seg};
use prescient::mpmc::brokerless::dynamic::{open_array, open_locked};
use prescient::mpmc::brokerless::leased;
use prescient::mpmc::brokerless::{open, BatchStep, RecvStep, SendStep};
use prescient::open::{InvalidShape, OpenError};
use prescient::pause::{Backoff, Pause};

#[test]
fn each_value_goes_to_one_consumer() {
    let (mut shared, mut producers, first) = open::<u32, Ring>(2, 4);
    let mut consumers = Vec::new();
    consumers.push(first.duplicate(&mut shared));
    consumers.push(first);
    assert!(producers[0].try_send(&mut shared, 1).is_ok());
    assert!(producers[1].try_send(&mut shared, 2).is_ok());
    let mut got = Vec::new();
    for consumer in consumers.iter_mut() {
        while let Some(value) = consumer.try_recv(&mut shared) {
            got.push(value);
        }
    }
    got.sort_unstable();
    assert_eq!(got, [1, 2]);
    assert!(!consumers[0].is_disconnected(&shared));
    while let Some(producer) = producers.pop() {
        producer.disconnect(&mut shared);
    }
    assert!(consumers[0].is_disconnected(&shared));
}

#[test]
fn a_full_ring_asks_to_wait_and_a_lone_producer_loses() {
    let (mut shared, mut producers, consumer) = open::<u32, Ring>(1, 1);
    let mut backoff = Backoff::new();
    assert!(matches!(producers[0].send(&mut shared, &mut backoff, 1), SendStep::Sent));
    assert!(matches!(
        producers[0].send(&mut shared, &mut backoff, 2),
        SendStep::Wait(2, Pause::Spin)
    ));
    consumer.disconnect(&mut shared);
    assert!(matches!(producers[0].send(&mut shared, &mut backoff, 3), SendStep::Discarded));
    let mut source = Batch::new();
    source.push_back(4);
    assert_eq!(
        producers[0].send_batch(&mut shared, &mut backoff, &mut source),
        BatchStep::Disconnected
    );
    assert_eq!(source.len(), 1);
}

#[test]
fn receiving_finishes_after_the_last_value() {
    let (mut shared, mut producers, mut consumer) = open::<u32, Seg>(1, 2);
    for value in 0..10 {
        assert!(producers[0].try_send(&mut shared, value).is_ok());
    }
    producers.pop().unwrap().disconnect(&mut shared);
    consumer.set_batch(3);
    let mut backoff = Backoff::new();
    for value in 0..10 {
        assert!(matches!(
            consumer.recv(&mut shared, &mut backoff),
            RecvStep::Value(got) if got == value
        ));
    }
    assert!(matches!(consumer.recv(&mut shared, &mut backoff), RecvStep::Finished));
}

#[test]
fn producers_join_locked_membership_at_any_time() {
    let (mut shared, registrar, mut consumer) = open_locked::<u32, Ring>(4);
    assert_eq!(consumer.try_recv(&mut shared.pool), None);
    let mut one = registrar.register(&mut shared);
    let mut two = registrar.register(&mut shared);
    assert!(one.try_send(&mut shared.pool, 1).is_ok());
    assert!(two.try_send(&mut shared.pool, 2).is_ok());
    let mut got = Vec::new();
    while let Some(value) = consumer.try_recv(&mut shared.pool) {
        got.push(value);
    }
    got.sort_unstable();
    assert_eq!(got, [1, 2]);
}

#[test]
fn array_membership_is_bounded_and_hides_unpublished_rings() {
    let (mut shared, registrar, mut consumer) = open_array::<u32, Ring>(4, 2);
    let mut hidden = registrar.reserve(&mut shared).unwrap();
    assert!(hidden.try_send(&mut shared.pool, 7).is_ok());
    assert_eq!(consumer.try_recv(&mut shared.pool), None);
    registrar.publish(&mut shared, &hidden);
    assert_eq!(consumer.try_recv(&mut shared.pool), Some(7));
    assert!(registrar.reserve(&mut shared).is_some());
    assert!(registrar.reserve(&mut shared).is_none());
}

#[test]
fn leased_blocks_travel_and_come_back() {
    let (mut shared, mut producers, mut consumers) = leased::open::<u32>(1, 1, 4, 2).ok().unwrap();
    for round in 0..5 {
        let mut lease = producers[0].try_reserve(&mut shared).unwrap();
        assert_eq!(lease.capacity(), 2);
        assert!(lease.push(round).is_ok());
        assert!(lease.push(round + 100).is_ok());
        assert_eq!(lease.push(9), Err(9));
        assert!(matches!(lease.commit(&mut producers[0], &mut shared), Ok(2)));
        let mut block = consumers[0].try_recv(&mut shared).unwrap();
        assert_eq!(block.as_slice(), [round, round + 100]);
        assert_eq!(block.drain(), [round, round + 100]);
        block.release(&mut consumers[0], &mut shared);
    }
    let first = producers[0].try_reserve(&mut shared).unwrap();
    let second = producers[0].try_reserve(&mut shared).unwrap();
    assert!(producers[0].try_reserve(&mut shared).is_none());
    first.rollback(&mut producers[0], &shared);
    assert!(producers[0].try_reserve(&mut shared).is_some());
    second.rollback(&mut producers[0], &shared);
}

#[test]
fn leased_shapes_are_refused_with_their_reason() {
    let refused = |producers, consumers, capacity, batch| {
        match leased::open::<u64>(producers, consumers, capacity, batch) {
            Ok(_) => None,
            Err(OpenError::Invalid(reason)) => Some(reason),
        }
    };
    assert_eq!(refused(0, 1, 4, 2), Some(InvalidShape::LeasedWorkers));
    assert_eq!(refused(1, 1, 5, 2), Some(InvalidShape::LeasedWorkers));
    assert_eq!(refused(1, 1, 4, 0), Some(InvalidShape::LeasedWorkers));
    assert_eq!(
        refused(1, 1, usize::MAX, 1),
        Some(InvalidShape::LeasedDescriptors)
    );
    assert_eq!(
        refused(usize::MAX, 1, 4, 2),
        Some(InvalidShape::LeasedPayloads)
    );
    assert_eq!(refused(1, 1, 4, 2), None);
    assert_eq!(
        OpenError::Invalid(InvalidShape::LeasedWorkers).message(),
        "leased channels require non-zero workers and capacity divisible by batch"
    );
}

#[test]
fn committed_blocks_are_received_by_any_consumer() {
    let (mut shared, mut producers, mut consumers) = leased::open::<u32>(2, 2, 8, 2).unwrap();
    let mut backoff = Backoff::new();
    for round in 0..20u32 {
        for (index, producer) in producers.iter_mut().enumerate() {
            let mut lease = producer.try_reserve(&mut shared).unwrap();
            lease.push(round).unwrap();
            lease.push(index as u32).unwrap();
            assert_eq!(lease.commit(producer, &mut shared).ok(), Some(2));
        }
        let mut got = Vec::new();
        for consumer in consumers.iter_mut() {
            match consumer.recv(&mut shared, &mut backoff) {
                RecvStep::Value(lease) => {
                    got.push(lease.as_slice().to_vec());
                    lease.release(consumer, &mut shared);
                }
                _ => panic!("a committed block was not found"),
            }
        }
        got.sort();
        assert_eq!(got, [vec![round, 0], vec![round, 1]]);
    }
    for producer in producers.iter_mut() {
        assert_eq!(producer.flush(&mut shared, &mut backoff), leased::FlushStep::Flushed);
    }
    assert!(consumers[0].try_recv(&mut shared).is_none());
}

#[test]
fn a_consumer_that_leaves_or_waits_keeps_the_rings_open() {
    let (mut shared, mut producers, mut consumers) = leased::open::<u32>(1, 2, 4, 2).unwrap();
    let mut backoff = Backoff::new();
    assert!(matches!(consumers[0].recv(&mut shared, &mut backoff), RecvStep::Wait(_)));
    assert!(!producers[0].is_disconnected(&shared));
    consumers.remove(0).disconnect(&mut shared);
    let mut lease = producers[0].try_reserve(&mut shared).unwrap();
    lease.push(5).unwrap();
    assert!(lease.commit(&mut producers[0], &mut shared).is_ok());
    producers.remove(0).disconnect(&mut shared);
    match consumers[0].recv(&mut shared, &mut backoff) {
        RecvStep::Value(lease) => {
            assert_eq!(lease.as_slice(), [5]);
            lease.release(&mut consumers[0], &mut shared);
        }
        _ => panic!("a committed block was not found"),
    }
    assert!(matches!(consumers[0].recv(&mut shared, &mut backoff), RecvStep::Finished));
}

#[test]
fn a_batch_receive_takes_everything_that_was_sent() {
    let (mut shared, mut producers, mut consumer) = open::<u32, Ring>(1, 8);
    let mut out = Batch::new();
    for value in [1, 2] {
        assert!(producers[0].try_send(&mut shared, value).is_ok());
    }
    assert_eq!(consumer.try_recv_batch(&mut shared, &mut out), 2);
    consumer.set_batch(1);
    for value in [3, 4] {
        assert!(producers[0].try_send(&mut shared, value).is_ok());
    }
    assert_eq!(consumer.try_recv_batch(&mut shared, &mut out), 1);
    consumer.set_batch(64);
    assert!(producers[0].try_send(&mut shared, 5).is_ok());
    assert_eq!(consumer.try_recv_batch(&mut shared, &mut out), 1);
    assert_eq!(out.pop_front(), Some(4));
    assert_eq!(consumer.try_recv_batch(&mut shared, &mut out), 1);
    assert_eq!(out.pop_front(), Some(5));
}
