use prescient::ipc::event::{
    event_name, park_outcome, poll_millis, random_suffix, read_name, seconds_and_nanos, wait_millis, write_name, ParkResult,
    ProcessEvent, SharedEventState, WaitOutcome, WaitPhase, WaitStep,
};
use prescient::ipc::region::Platform;
use prescient::ipc::stream::{
    after_wait, peer_closed, read_chunk, wait_budget, Peek, ReadOutcome, ReadStep,
};
use prescient::ipc::Fault;

fn fresh() -> (SharedEventState, ProcessEvent) {
    let mut shared = SharedEventState { magic: 0, sequence: 9, waiters: 9 };
    assert_eq!(ProcessEvent::open(&shared), Err(Fault::EventUninitialized));
    let event = ProcessEvent::create(&mut shared);
    assert!(ProcessEvent::open(&shared).is_ok());
    (shared, event)
}

#[test]
fn notification_before_registration_is_not_lost() {
    let (mut shared, mut event) = fresh();
    assert!(!event.notify(&mut shared, 7));
    assert_eq!(event.wait(&mut shared, 0), Ok(WaitStep::Done(WaitOutcome::Changed)));
}

#[test]
fn waiter_claim_exchange_closes_the_lost_wakeup_gap() {
    for schedule in 0..1u32 << 6 {
        let (mut shared, mut waiter) = fresh();
        let publisher = ProcessEvent::open(&shared).unwrap();
        let mut parked = false;
        let mut woke = false;
        let mut published = 0;
        for turn in 0..12 {
            if turn >= 6 || schedule >> turn & 1 == 0 {
                if published == 0 {
                    publisher.store(&mut shared, 1);
                    published = 1;
                } else if published == 1 {
                    woke = publisher.claim(&mut shared);
                    published = 2;
                }
            } else if !parked && waiter.wait(&mut shared, 0) == Ok(WaitStep::Park) {
                parked = true;
            }
        }
        assert_eq!(published, 2);
        assert!(!parked || woke, "waiter decided to park but publisher missed it");
    }
}

#[test]
fn a_wait_runs_through_its_phases() {
    let (mut shared, mut event) = fresh();
    assert_eq!(event.wait(&mut shared, 0), Ok(WaitStep::Continue));
    assert_eq!(event.wait(&mut shared, 0), Ok(WaitStep::Continue));
    assert_eq!(event.wait(&mut shared, 0), Ok(WaitStep::Park));
    assert_eq!(event.phase, WaitPhase::Parked);
    let mut other = ProcessEvent::open(&shared).unwrap();
    assert_eq!(other.wait(&mut shared, 0), Ok(WaitStep::Continue));
    assert_eq!(other.wait(&mut shared, 0), Err(Fault::EventWaiter));
    event.unpark(Some(WaitOutcome::TimedOut));
    assert_eq!(event.wait(&mut shared, 0), Ok(WaitStep::Continue));
    assert_eq!(event.wait(&mut shared, 0), Ok(WaitStep::Done(WaitOutcome::TimedOut)));
    assert!(event.notify(&mut shared, 1) == false);
    assert_eq!(event.observe(&shared), 1);
}

#[test]
fn a_late_change_beats_the_timeout() {
    let (mut shared, mut event) = fresh();
    for _ in 0..3 {
        event.wait(&mut shared, 0).unwrap();
    }
    event.unpark(Some(WaitOutcome::TimedOut));
    assert_eq!(event.wait(&mut shared, 0), Ok(WaitStep::Continue));
    event.store(&mut shared, 0x1_0000_0005);
    assert_eq!(event.observe(&shared), 5);
    assert_eq!(event.wait(&mut shared, 0), Ok(WaitStep::Done(WaitOutcome::Changed)));
}

#[test]
fn event_names_fit_their_area() {
    let mut area = vec![0xffu8; 96];
    assert_eq!(write_name(&mut area, ""), Err(Fault::EventName));
    assert_eq!(write_name(&mut area, &"n".repeat(96)), Err(Fault::EventName));
    assert_eq!(write_name(&mut area, "/tmp/psi-1"), Ok(10));
    assert_eq!(area[10], 0);
    assert_eq!(area[11], 0xff);
    assert_eq!(read_name(&area, 10).unwrap(), "/tmp/psi-1");
    assert_eq!(read_name(&area, 0).err(), Some(Fault::EventNameLength));
    assert_eq!(read_name(&area, 96).err(), Some(Fault::EventNameLength));
    assert_eq!(read_name(&area, 20).err(), Some(Fault::EventNameUtf8));
}

#[test]
fn waiting_is_bounded_and_looks_for_the_peer() {
    assert_eq!(wait_budget(0, 30_000_000_000), Ok(10_000_000));
    assert_eq!(wait_budget(29_995_000_000, 30_000_000_000), Ok(5_000_000));
    assert_eq!(wait_budget(30, 30), Err(Fault::WaitTimedOut));
    assert_eq!(after_wait(WaitOutcome::TimedOut, true), Err(Fault::PeerClosed));
    assert_eq!(after_wait(WaitOutcome::Changed, true), Ok(()));
    assert_eq!(after_wait(WaitOutcome::TimedOut, false), Ok(()));
    assert_eq!(peer_closed(Peek::Ready(0)), Some(true));
    assert_eq!(peer_closed(Peek::Ready(1)), Some(false));
    assert_eq!(peer_closed(Peek::WouldBlock), Some(false));
    assert_eq!(peer_closed(Peek::Interrupted), Some(false));
    assert_eq!(peer_closed(Peek::Failed), None);
}

#[test]
fn chunks_fill_until_the_source_ends() {
    assert_eq!(read_chunk(0, 8, ReadOutcome::Read(3)), ReadStep::More(3));
    assert_eq!(read_chunk(3, 8, ReadOutcome::Interrupted), ReadStep::More(3));
    assert_eq!(read_chunk(3, 8, ReadOutcome::Read(5)), ReadStep::Stop(8));
    assert_eq!(read_chunk(3, 8, ReadOutcome::Read(0)), ReadStep::Stop(3));
    assert_eq!(read_chunk(3, 8, ReadOutcome::Failed), ReadStep::Failed);
}

#[test]
fn parking_ends_in_a_change_or_a_timeout() {
    for result in [ParkResult::Woken, ParkResult::Stale, ParkResult::Interrupted] {
        assert_eq!(park_outcome(result), Some(WaitOutcome::Changed));
    }
    assert_eq!(park_outcome(ParkResult::TimedOut), Some(WaitOutcome::TimedOut));
    assert_eq!(park_outcome(ParkResult::Failed), None);
}

#[test]
fn times_fit_the_system_calls() {
    assert_eq!(seconds_and_nanos(3_000_000_007, u64::MAX), (3, 7));
    assert_eq!(seconds_and_nanos(3_000_000_007, 2), (2, 7));
    assert_eq!(poll_millis(0), 0);
    assert_eq!(poll_millis(1), 1);
    assert_eq!(poll_millis(10_999_999), 10);
    assert_eq!(poll_millis(u128::MAX), i32::MAX);
    assert_eq!(wait_millis(999_999), 0);
    assert_eq!(wait_millis(10_999_999), 10);
    assert_eq!(wait_millis(u128::from(u32::MAX) * 1_000_000), u32::MAX - 1);
    assert_eq!(wait_millis(u128::MAX), u32::MAX - 1);
}

#[test]
fn parking_places_have_random_names() {
    let one = random_suffix().unwrap();
    let two = random_suffix().unwrap();
    assert_eq!(one.len(), 32);
    assert_ne!(one, two);
    assert!(one.bytes().all(|byte| matches!(byte, b'0'..=b'9' | b'a'..=b'f')));
}

#[test]
fn parking_places_are_named_after_their_system() {
    assert_eq!(event_name(Platform::Posix, "0f", 255), "/tmp/psi-0f-ff");
    assert_eq!(event_name(Platform::Posix, "", 0), "/tmp/psi--0");
    let platform = Platform::Windows { process_id: 3 };
    assert_eq!(event_name(platform, "0f", 16), "Local\\prescient-event-0f-10");
    let longest = event_name(platform, &random_suffix().unwrap(), u64::MAX);
    assert!(longest.ends_with("-ffffffffffffffff"));
    let mut area = vec![0u8; 96];
    assert_eq!(write_name(&mut area, &longest), Ok(71));
    assert_eq!(read_name(&area, 71).unwrap(), longest);
}
