use prescient::backend::{Batch, Ring};
use prescient::mpmc::brokerless::{BatchStep, RecvStep, SendStep};
use prescient::mpmc::lanes::{open, Consumer, Producer, Shared};
use prescient::pause::Backoff;

fn send(tx: &mut Producer<usize, Ring>, shared: &mut Shared<usize, Ring>, value: usize) -> bool {
    let mut backoff = Backoff::new();
    match tx.send(shared, &mut backoff, value) {
        SendStep::Sent => true,
        SendStep::Discarded => false,
        SendStep::Wait(_, _) => panic!("no room"),
    }
}

fn recv(rx: &mut Consumer<usize>, shared: &mut Shared<usize, Ring>) -> Option<usize> {
    let mut backoff = Backoff::new();
    match rx.recv(shared, &mut backoff) {
        RecvStep::Value(value) => Some(value),
        RecvStep::Finished => None,
        RecvStep::Wait(_) => panic!("nothing there"),
    }
}

#[test]
fn surviving_consumer_adopts_buffered_lanes() {
    let (mut shared, mut producers, mut consumers) = open::<usize, Ring>(1, 2, 2);
    for value in 0..4 {
        assert!(send(&mut producers[0], &mut shared, value));
    }
    producers.pop().unwrap().disconnect(&mut shared);
    consumers.pop().unwrap().disconnect(&mut shared);
    let mut consumer = consumers.pop().unwrap();
    let mut values = Vec::new();
    while let Some(value) = recv(&mut consumer, &mut shared) {
        values.push(value);
    }
    values.sort_unstable();
    assert_eq!(values, (0..4).collect::<Vec<_>>());
}

#[test]
fn full_grid_returns_batch_suffix_after_all_consumers_drop() {
    let (mut shared, mut producers, mut consumers) = open::<usize, Ring>(1, 2, 1);
    while let Some(consumer) = consumers.pop() {
        consumer.disconnect(&mut shared);
    }
    assert!(send(&mut producers[0], &mut shared, 7));
    assert!(send(&mut producers[0], &mut shared, 8));
    assert!(!send(&mut producers[0], &mut shared, 9));
    let mut source = Batch::new();
    source.push_back(10);
    let mut backoff = Backoff::new();
    assert_eq!(
        producers[0].send_batch(&mut shared, &mut backoff, &mut source),
        BatchStep::Disconnected
    );
    assert_eq!(source.pop_front(), Some(10));
}

#[test]
fn every_value_is_delivered_once_across_the_grid() {
    let (mut shared, mut producers, mut consumers) = open::<usize, Ring>(3, 5, 4);
    let mut delivered = vec![0; 300];
    let mut sent = [0; 3];
    let mut turn = 0;
    while sent.iter().any(|count| *count < 100) || turn % 8 != 0 {
        for producer in 0..3 {
            let value = producer * 100 + sent[producer];
            if sent[producer] < 100
                && producers[producer].try_send(&mut shared, value).is_ok()
            {
                sent[producer] += 1;
            }
        }
        let taker = turn % 5;
        if let Some(value) = consumers[taker].try_recv(&mut shared) {
            delivered[value] += 1;
        }
        turn += 1;
    }
    while let Some(producer) = producers.pop() {
        producer.disconnect(&mut shared);
    }
    for consumer in consumers.iter_mut() {
        while let Some(value) = consumer.try_recv(&mut shared) {
            delivered[value] += 1;
        }
    }
    assert!(delivered.iter().all(|count| *count == 1));
    assert!(consumers[0].is_disconnected(&shared));
}

#[test]
fn batches_drain_one_lane_at_a_time() {
    let (mut shared, mut producers, mut consumers) = open::<usize, Ring>(1, 1, 8);
    let mut source = Batch::new();
    for value in 0..5 {
        source.push_back(value);
    }
    let mut backoff = Backoff::new();
    assert_eq!(
        producers[0].send_batch(&mut shared, &mut backoff, &mut source),
        BatchStep::Sent
    );
    let mut out = Batch::new();
    assert_eq!(consumers[0].try_recv_batch(&mut shared, &mut out), 5);
    assert_eq!(out.as_slice(), [0, 1, 2, 3, 4]);
    assert_eq!(consumers[0].try_recv_batch(&mut shared, &mut out), 0);
}

#[test]
fn batches_fill_one_lane_after_the_other() {
    let (mut shared, mut producers, mut consumers) = open::<usize, Ring>(1, 3, 2);
    let mut source = Batch::new();
    for value in 0..7 {
        source.push_back(value);
    }
    let mut backoff = Backoff::new();
    assert!(matches!(
        producers[0].send_batch(&mut shared, &mut backoff, &mut source),
        BatchStep::Wait(_)
    ));
    assert_eq!(source.as_slice(), [6]);
    for (index, expected) in [[0, 1], [2, 3], [4, 5]].iter().enumerate() {
        let mut out = Batch::new();
        assert_eq!(consumers[index].try_recv_batch(&mut shared, &mut out), 2);
        assert_eq!(out.as_slice(), expected);
    }
    assert!(send(&mut producers[0], &mut shared, 6));
    assert_eq!(consumers[0].try_recv(&mut shared), Some(6));
}
