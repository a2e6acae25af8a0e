use prescient::backend::Batch;
use prescient::mpmc::broadcast::{open, PublishBatchStep, PublishStep};
use prescient::mpmc::brokerless::RecvStep;
use prescient::pause::{Backoff, Pause};

#[test]
fn loom_broadcast_activation_and_reuse() {
    for order in 0..6 {
        let (mut shared, mut publisher, mut dormant) = open::<usize>(1, 3);
        dormant.suspend(&mut shared);
        let mut first = None;
        let mut second = None;
        let mut sent = false;
        let turns = [[0, 1, 2], [0, 2, 1], [1, 0, 2], [1, 2, 0], [2, 0, 1], [2, 1, 0]][order];
        for turn in turns {
            match turn {
                0 => first = dormant.subscribe(&mut shared),
                1 => second = dormant.subscribe(&mut shared),
                _ => {
                    assert_eq!(publisher.try_send(&mut shared, 0), Ok(()));
                    sent = true;
                }
            }
        }
        assert!(sent);
        let mut first = first.expect("first reader slot");
        let mut second = second.expect("second reader slot");
        let published_last = turns[2] == 2;
        let seen = [first.try_recv(&mut shared), second.try_recv(&mut shared)];
        if published_last {
            assert_eq!(seen, [Some(0), Some(0)]);
        }
        assert_eq!(publisher.try_send(&mut shared, 1), Ok(()));
        assert_eq!(first.try_recv(&mut shared), Some(1));
        assert_eq!(publisher.try_send(&mut shared, 2), Err(2));
        assert_eq!(second.try_recv(&mut shared), Some(1));
    }
}

#[test]
fn every_active_reader_receives_each_value() {
    let (mut shared, mut publisher, mut first) = open::<u32>(4, 4);
    let mut second = publisher.subscribe(&mut shared).unwrap();
    for value in 0..4 {
        assert!(publisher.try_send(&mut shared, value).is_ok());
    }
    assert_eq!(publisher.try_send(&mut shared, 4), Err(4));
    let mut out: Vec<u32> = Vec::new();
    assert_eq!(first.drain(&mut shared, 8, &mut out), 4);
    assert_eq!(out, [0, 1, 2, 3]);
    assert_eq!(publisher.try_send(&mut shared, 4), Err(4));
    assert_eq!(second.try_recv(&mut shared), Some(0));
    assert!(publisher.try_send(&mut shared, 4).is_ok());
}

#[test]
fn a_publisher_without_readers_is_never_held_up() {
    let (mut shared, mut publisher, reader) = open::<u32>(1, 1);
    reader.disconnect(&mut shared);
    let mut backoff = Backoff::new();
    for value in 0..100 {
        assert!(matches!(publisher.send(&mut shared, &mut backoff, value), PublishStep::Sent));
    }
}

#[test]
fn slow_readers_hold_the_publisher_up_until_they_suspend() {
    let (mut shared, mut publisher, mut reader) = open::<u32>(2, 2);
    let mut values = Batch::new();
    for value in 0..3 {
        values.push_back(value);
    }
    let mut backoff = Backoff::new();
    assert_eq!(
        publisher.send_batch(&mut shared, &mut backoff, &mut values),
        PublishBatchStep::Wait(Pause::Spin)
    );
    assert_eq!(values.as_slice(), [2]);
    reader.suspend(&mut shared);
    assert_eq!(
        publisher.send_batch(&mut shared, &mut backoff, &mut values),
        PublishBatchStep::Sent
    );
    reader.resume(&mut shared);
    assert_eq!(reader.try_recv(&mut shared), None);
    publisher.close(&mut shared);
    assert!(reader.is_disconnected(&shared));
    assert!(matches!(reader.recv(&mut shared, &mut backoff), RecvStep::Finished));
}

#[test]
fn readers_finish_when_they_have_seen_everything() {
    let (mut shared, mut publisher, mut reader) = open::<u32>(4, 2);
    let mut backoff = Backoff::new();
    let mut out: Vec<u32> = Vec::new();
    assert!(publisher.try_send(&mut shared, 9).is_ok());
    publisher.close(&mut shared);
    assert!(!reader.is_disconnected(&shared));
    assert!(matches!(
        reader.for_each(&mut shared, &mut backoff, 8, &mut out),
        RecvStep::Value(1)
    ));
    assert!(reader.is_disconnected(&shared));
    assert!(matches!(
        reader.for_each(&mut shared, &mut backoff, 8, &mut out),
        RecvStep::Finished
    ));
    assert_eq!(out, [9]);
}

#[test]
fn a_suspended_reader_is_behind_what_it_misses() {
    let (mut shared, mut publisher, mut reader) = open::<u32>(2, 1);
    reader.suspend(&mut shared);
    assert!(publisher.try_send(&mut shared, 1).is_ok());
    publisher.close(&mut shared);
    assert!(!reader.is_disconnected(&shared));
    reader.resume(&mut shared);
    assert!(reader.is_disconnected(&shared));
}
