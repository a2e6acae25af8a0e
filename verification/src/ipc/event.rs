//! Process-shared blocking event of the process transport.
//!
//! The shared sequence is the protocol. The primitive of the operating system is only
//! a way to park. A publisher stores its new cursor, then takes the registration of a
//! waiter in one exchange, and only enters the kernel if there was one. A waiter
//! registers in one exchange, looks at the sequence again, and only then parks. Either
//! the waiter sees the cursor or the publisher sees the waiter.
//!
//! Every call that takes the shared state makes one access to it, so the calls of two
//! processes interleave freely.
use super::text::text_of;
use super::region::Platform;
use super::token::{
    hex, hex_digits, lemma_hex_digits, lemma_hexadecimal_len, lemma_numeral_is_ascii, numeral,
    numeral_text, random_bytes,
};
use super::Fault;
use vstd::prelude::*;
use vstd::slice::slice_subrange;
use vstd::string::StringExecFns;
use vstd::utf8::{encode_utf8, is_ascii_chars, is_ascii_chars_encode_utf8, valid_utf8};

verus! {

/// What an initialized event starts with.
pub const EVENT_MAGIC: u32 = 0x5053_4556;

/// The bytes that an event has for the name of its parking place.
pub const EVENT_NAME_LEN: usize = 96;

/// The bytes of an event in a mapping: four words, the name, and padding.
pub const EVENT_LEN: usize = 128;

/// The words of an event that processes share.
#[derive(Clone, Copy, Debug, PartialEq, Eq, Structural)]
pub struct SharedEventState {
    /// [`EVENT_MAGIC`] once the event can be used.
    pub magic: u32,
    /// The low half of the last published cursor.
    pub sequence: u32,
    /// Not zero while a waiter is registered.
    pub waiters: u32,
}

/// Result of one bounded park attempt.
#[derive(Clone, Copy, Debug, PartialEq, Eq, Structural)]
pub enum WaitOutcome {
    /// The sequence may have changed.
    Changed,
    /// The time is over.
    TimedOut,
}

/// How far a waiter has come.
#[derive(Clone, Copy, Debug, PartialEq, Eq, Structural)]
pub enum WaitPhase {
    /// It is not waiting.
    Idle,
    /// It has seen the sequence that it waits on.
    Checked,
    /// It is registered.
    Registered,
    /// It has decided to park.
    Parked,
    /// It is back, and still registered.
    Leaving(Option<WaitOutcome>),
    /// It was parked for too long, and no longer registered.
    Late,
}

/// What a waiter does next.
#[derive(Clone, Copy, Debug, PartialEq, Eq, Structural)]
pub enum WaitStep {
    /// Take the next step.
    Continue,
    /// Park until woken, or for the given time.
    Park,
    /// The wait is over.
    Done(WaitOutcome),
    /// Parking has failed.
    Failed,
}

/// A process-local handle to one event embedded in shared memory.
#[derive(Clone, Copy, Debug, PartialEq, Eq, Structural)]
pub struct ProcessEvent {
    /// How far the waiter of this process has come.
    pub phase: WaitPhase,
}

/// What a waiter's next access leaves behind: its phase and the shared state.
pub open spec fn waited(
    phase: WaitPhase,
    shared: SharedEventState,
    observed: u32,
) -> (WaitPhase, SharedEventState) {
    match phase {
        WaitPhase::Idle => (
            if shared.sequence != observed {
                WaitPhase::Idle
            } else {
                WaitPhase::Checked
            },
            shared,
        ),
        WaitPhase::Checked => (
            if shared.waiters != 0 {
                WaitPhase::Idle
            } else {
                WaitPhase::Registered
            },
            SharedEventState { waiters: 1, ..shared },
        ),
        WaitPhase::Registered => (
            if shared.sequence != observed {
                WaitPhase::Leaving(Some(WaitOutcome::Changed))
            } else {
                WaitPhase::Parked
            },
            shared,
        ),
        WaitPhase::Parked => (WaitPhase::Parked, shared),
        WaitPhase::Leaving(outcome) => (
            if outcome == Some(WaitOutcome::TimedOut) {
                WaitPhase::Late
            } else {
                WaitPhase::Idle
            },
            SharedEventState { waiters: 0, ..shared },
        ),
        WaitPhase::Late => (WaitPhase::Idle, shared),
    }
}

/// What a waiter's next access tells it, or why it cannot wait.
pub open spec fn wait_answer(
    phase: WaitPhase,
    shared: SharedEventState,
    observed: u32,
) -> Result<WaitStep, Fault> {
    match phase {
        WaitPhase::Idle => Ok(
            if shared.sequence != observed {
                WaitStep::Done(WaitOutcome::Changed)
            } else {
                WaitStep::Continue
            },
        ),
        WaitPhase::Checked => if shared.waiters != 0 {
            Err(Fault::EventWaiter)
        } else {
            Ok(WaitStep::Continue)
        },
        WaitPhase::Registered => Ok(
            if shared.sequence != observed {
                WaitStep::Continue
            } else {
                WaitStep::Park
            },
        ),
        WaitPhase::Parked => Ok(WaitStep::Park),
        WaitPhase::Leaving(outcome) => Ok(
            match outcome {
                Some(WaitOutcome::TimedOut) => WaitStep::Continue,
                Some(WaitOutcome::Changed) => WaitStep::Done(WaitOutcome::Changed),
                None => WaitStep::Failed,
            },
        ),
        WaitPhase::Late => Ok(
            WaitStep::Done(
                if shared.sequence != observed {
                    WaitOutcome::Changed
                } else {
                    WaitOutcome::TimedOut
                },
            ),
        ),
    }
}

/// The state after a publisher has stored its cursor.
pub open spec fn stored(shared: SharedEventState, cursor: u64) -> SharedEventState {
    SharedEventState { sequence: (cursor % 0x1_0000_0000) as u32, ..shared }
}

/// The state after a publisher has taken the registration.
pub open spec fn claimed(shared: SharedEventState) -> SharedEventState {
    SharedEventState { waiters: 0, ..shared }
}

impl SharedEventState {
    /// An event that nobody has published to.
    pub open spec fn fresh() -> SharedEventState {
        SharedEventState { magic: EVENT_MAGIC, sequence: 0, waiters: 0 }
    }
}

impl ProcessEvent {
    /// Initialize a new event.
    pub fn create(shared: &mut SharedEventState) -> (event: ProcessEvent)
        ensures
            *final(shared) == SharedEventState::fresh(),
            event.phase == WaitPhase::Idle,
    {
        *shared = SharedEventState { magic: EVENT_MAGIC, sequence: 0, waiters: 0 };
        ProcessEvent { phase: WaitPhase::Idle }
    }

    /// Open an event initialized by another process.
    pub fn open(shared: &SharedEventState) -> (result: Result<ProcessEvent, Fault>)
        ensures
            result is Ok <==> shared.magic == EVENT_MAGIC,
            result matches Ok(event) ==> event.phase == WaitPhase::Idle,
            result matches Err(fault) ==> fault == Fault::EventUninitialized,
    {
        if shared.magic != EVENT_MAGIC {
            return Err(Fault::EventUninitialized);
        }
        Ok(ProcessEvent { phase: WaitPhase::Idle })
    }

    /// The last published sequence.
    pub fn observe(&self, shared: &SharedEventState) -> (sequence: u32)
        ensures
            sequence == shared.sequence,
    {
        shared.sequence
    }

    /// Publish a new cursor. The next call is [`ProcessEvent::claim`].
    pub fn store(&self, shared: &mut SharedEventState, cursor: u64)
        ensures
            *final(shared) == stored(*old(shared), cursor),
    {
        shared.sequence = (cursor % 0x1_0000_0000) as u32;
    }

    /// Take the registration of a waiter, and say whether there was one to wake.
    pub fn claim(&self, shared: &mut SharedEventState) -> (wake: bool)
        ensures
            wake == (old(shared).waiters != 0),
            *final(shared) == claimed(*old(shared)),
    {
        let wake: bool = shared.waiters != 0;
        shared.waiters = 0;
        wake
    }

    /// Publish a new cursor, and say whether a registered peer has to be woken.
    pub fn notify(&self, shared: &mut SharedEventState, cursor: u64) -> (wake: bool)
        ensures
            wake == (old(shared).waiters != 0),
            *final(shared) == claimed(stored(*old(shared), cursor)),
    {
        self.store(shared, cursor);
        self.claim(shared)
    }

    /// Make the next access of a wait for a sequence other than `observed`.
    pub fn wait(&mut self, shared: &mut SharedEventState, observed: u32) -> (step: Result<
        WaitStep,
        Fault,
    >)
        ensures
            step == wait_answer(old(self).phase, *old(shared), observed),
            (final(self).phase, *final(shared)) == waited(old(self).phase, *old(shared), observed),
    {
        match self.phase {
            WaitPhase::Idle => {
                if shared.sequence != observed {
                    return Ok(WaitStep::Done(WaitOutcome::Changed));
                }
                self.phase = WaitPhase::Checked;
                Ok(WaitStep::Continue)
            },
            WaitPhase::Checked => {
                let before: u32 = shared.waiters;
                shared.waiters = 1;
                if before != 0 {
                    self.phase = WaitPhase::Idle;
                    return Err(Fault::EventWaiter);
                }
                self.phase = WaitPhase::Registered;
                Ok(WaitStep::Continue)
            },
            WaitPhase::Registered => {
                if shared.sequence != observed {
                    self.phase = WaitPhase::Leaving(Some(WaitOutcome::Changed));
                    return Ok(WaitStep::Continue);
                }
                self.phase = WaitPhase::Parked;
                Ok(WaitStep::Park)
            },
            WaitPhase::Parked => Ok(WaitStep::Park),
            WaitPhase::Leaving(outcome) => {
                shared.waiters = 0;
                match outcome {
                    Some(WaitOutcome::TimedOut) => {
                        self.phase = WaitPhase::Late;
                        Ok(WaitStep::Continue)
                    },
                    Some(WaitOutcome::Changed) => {
                        self.phase = WaitPhase::Idle;
                        Ok(WaitStep::Done(WaitOutcome::Changed))
                    },
                    None => {
                        self.phase = WaitPhase::Idle;
                        Ok(WaitStep::Failed)
                    },
                }
            },
            WaitPhase::Late => {
                self.phase = WaitPhase::Idle;
                if shared.sequence != observed {
                    Ok(WaitStep::Done(WaitOutcome::Changed))
                } else {
                    Ok(WaitStep::Done(WaitOutcome::TimedOut))
                }
            },
        }
    }

    /// Say how parking has ended. Nothing stands for a failure.
    pub fn unpark(&mut self, outcome: Option<WaitOutcome>)
        requires
            old(self).phase == WaitPhase::Parked,
        ensures
            final(self).phase == WaitPhase::Leaving(outcome),
    {
        self.phase = WaitPhase::Leaving(outcome);
    }
}

/// A waiter and a publisher at one event.
pub ghost struct Meeting {
    /// The shared words.
    pub shared: SharedEventState,
    /// How far the waiter has come.
    pub phase: WaitPhase,
    /// The sequence that the waiter has seen.
    pub observed: u32,
    /// Whether the publisher has stored a cursor and not yet looked for a waiter.
    pub publishing: bool,
    /// Whether the waiter has been woken since it registered.
    pub woken: bool,
}

/// One access of one of the two.
pub ghost enum Move {
    /// The waiter starts over with another sequence.
    Observe(u32),
    /// The waiter makes its next access.
    Wait,
    /// Parking ends.
    Unpark(Option<WaitOutcome>),
    /// The publisher stores a cursor.
    Store(u64),
    /// The publisher takes the registration.
    Claim,
}

impl Meeting {
    /// A waiter and a publisher at a fresh event.
    pub open spec fn fresh() -> Meeting {
        Meeting {
            shared: SharedEventState::fresh(),
            phase: WaitPhase::Idle,
            observed: 0,
            publishing: false,
            woken: false,
        }
    }

    /// The meeting after one access. An access out of turn changes nothing.
    pub open spec fn after(self, step: Move) -> Meeting {
        match step {
            Move::Observe(observed) => if self.phase == WaitPhase::Idle {
                Meeting { observed, ..self }
            } else {
                self
            },
            Move::Wait => {
                let (phase, shared) = waited(self.phase, self.shared, self.observed);
                let registers = self.phase == WaitPhase::Checked && phase == WaitPhase::Registered;
                Meeting { phase, shared, woken: self.woken && !registers, ..self }
            },
            Move::Unpark(outcome) => if self.phase == WaitPhase::Parked {
                Meeting { phase: WaitPhase::Leaving(outcome), ..self }
            } else {
                self
            },
            Move::Store(cursor) => if self.publishing {
                self
            } else {
                Meeting { shared: stored(self.shared, cursor), publishing: true, ..self }
            },
            Move::Claim => if !self.publishing {
                self
            } else {
                Meeting {
                    woken: self.woken || self.shared.waiters != 0,
                    shared: claimed(self.shared),
                    publishing: false,
                    ..self
                }
            },
        }
    }

    /// The meeting after a row of accesses.
    pub open spec fn run(self, moves: Seq<Move>) -> Meeting
        decreases moves.len(),
    {
        if moves.len() == 0 {
            self
        } else {
            self.run(moves.drop_last()).after(moves.last())
        }
    }

    /// What holds after every access.
    pub open spec fn sound(self) -> bool {
        &&& (self.phase == WaitPhase::Registered || self.phase == WaitPhase::Parked) && !self.woken
            ==> self.shared.waiters != 0
        &&& self.phase == WaitPhase::Parked && !self.woken ==> self.shared.sequence == self.observed
            || self.publishing
    }
}

/// Every row of accesses keeps the meeting sound.
proof fn lemma_meeting_stays_sound(moves: Seq<Move>)
    ensures
        Meeting::fresh().run(moves).sound(),
    decreases moves.len(),
{
    if moves.len() > 0 {
        lemma_meeting_stays_sound(moves.drop_last());
    }
}

/// No wakeup is lost. However the accesses of a waiter and a publisher interleave, a
/// waiter that has parked is woken once the publisher of a new sequence is done.
pub proof fn law_no_wakeup_is_lost(moves: Seq<Move>)
    ensures
        ({
            let met = Meeting::fresh().run(moves);
            met.phase == WaitPhase::Parked && !met.publishing && met.shared.sequence != met.observed
                ==> met.woken
        }),
{
    lemma_meeting_stays_sound(moves);
}

/// A notification that comes before the waiter registers is seen without parking.
pub proof fn law_early_notifications_are_seen(shared: SharedEventState, cursor: u64, observed: u32)
    requires
        (cursor % 0x1_0000_0000) != observed,
    ensures
        wait_answer(WaitPhase::Idle, claimed(stored(shared, cursor)), observed) == Ok::<
            WaitStep,
            Fault,
        >(WaitStep::Done(WaitOutcome::Changed)),
{
}

/// The bytes of the name area after a name has been written.
pub open spec fn named(area: Seq<u8>, name: Seq<u8>) -> Seq<u8> {
    name + seq![0u8] + area.skip(name.len() as int + 1)
}

/// Write the name of a parking place into the name area of an event, and return its
/// length.
pub fn write_name(area: &mut Vec<u8>, name: &str) -> (result: Result<u32, Fault>)
    requires
        old(area)@.len() == EVENT_NAME_LEN,
    ensures
        final(area)@.len() == EVENT_NAME_LEN,
        result is Ok <==> 0 < encode_utf8(name@).len() < EVENT_NAME_LEN,
        result matches Ok(len) ==> len == encode_utf8(name@).len() && final(area)@ == named(
            old(area)@,
            encode_utf8(name@),
        ),
        result matches Err(fault) ==> fault == Fault::EventName && final(area)@ == old(area)@,
{
    let ghost before = area@;
    let bytes: &[u8] = name.as_bytes();
    let len: usize = bytes.len();
    if len == 0 || len >= EVENT_NAME_LEN {
        return Err(Fault::EventName);
    }
    let mut k: usize = 0;
    while k < len
        invariant
            k <= len,
            len == bytes@.len(),
            0 < len < EVENT_NAME_LEN,
            area@.len() == EVENT_NAME_LEN,
            before.len() == EVENT_NAME_LEN,
            area@ == bytes@.take(k as int) + before.skip(k as int),
        decreases len - k,
    {
        area.set(k, bytes[k]);
        k = k + 1;
        assert(area@ =~= bytes@.take(k as int) + before.skip(k as int));
    }
    area.set(len, 0);
    assert(area@ =~= named(before, bytes@));
    Ok(len as u32)
}

/// Read the name of a parking place out of the name area of an event.
pub fn read_name(area: &Vec<u8>, len: u32) -> (result: Result<String, Fault>)
    requires
        area@.len() == EVENT_NAME_LEN,
    ensures
        result is Ok <==> 0 < len < EVENT_NAME_LEN && valid_utf8(area@.take(len as int)),
        result matches Ok(name) ==> encode_utf8(name@) == area@.take(len as int),
        result matches Err(fault) ==> fault == if 0 < len < EVENT_NAME_LEN {
            Fault::EventNameUtf8
        } else {
            Fault::EventNameLength
        },
{
    let len: usize = len as usize;
    if len == 0 || len >= EVENT_NAME_LEN {
        return Err(Fault::EventNameLength);
    }
    match text_of(slice_subrange(area.as_slice(), 0, len)) {
        Some(name) => Ok(name),
        None => Err(Fault::EventNameUtf8),
    }
}

/// What a call that parks has come to.
#[derive(Clone, Copy, Debug, PartialEq, Eq, Structural)]
pub enum ParkResult {
    /// Someone has woken the caller.
    Woken,
    /// The sequence had already changed.
    Stale,
    /// A signal has come.
    Interrupted,
    /// The time is over.
    TimedOut,
    /// The call has failed.
    Failed,
}

/// How parking has ended. A wakeup without a reason counts as a change: the waiter looks
/// again anyway.
pub fn park_outcome(result: ParkResult) -> (outcome: Option<WaitOutcome>)
    ensures
        outcome == match result {
            ParkResult::Woken | ParkResult::Stale | ParkResult::Interrupted => Some(
                WaitOutcome::Changed,
            ),
            ParkResult::TimedOut => Some(WaitOutcome::TimedOut),
            ParkResult::Failed => None,
        },
{
    match result {
        ParkResult::Woken | ParkResult::Stale | ParkResult::Interrupted => Some(
            WaitOutcome::Changed,
        ),
        ParkResult::TimedOut => Some(WaitOutcome::TimedOut),
        ParkResult::Failed => None,
    }
}

/// Split a time into seconds and nanoseconds, with no more seconds than `most`.
pub fn seconds_and_nanos(nanos: u128, most: u64) -> (parts: (u64, u32))
    ensures
        parts.0 == if nanos / 1_000_000_000 < most {
            nanos / 1_000_000_000
        } else {
            most as u128
        },
        parts.1 == nanos % 1_000_000_000,
{
    let seconds: u128 = nanos / 1_000_000_000;
    let rest: u32 = (nanos % 1_000_000_000) as u32;
    if seconds < most as u128 {
        (seconds as u64, rest)
    } else {
        (most, rest)
    }
}

/// A time in whole milliseconds, for a call that polls: none for no time, and at least one
/// for any time at all.
pub fn poll_millis(nanos: u128) -> (millis: i32)
    ensures
        nanos == 0 ==> millis == 0,
        nanos > 0 ==> millis == if nanos / 1_000_000 < 1 {
            1
        } else if nanos / 1_000_000 > i32::MAX as u128 {
            i32::MAX as u128
        } else {
            nanos / 1_000_000
        },
{
    if nanos == 0 {
        return 0;
    }
    let millis: u128 = nanos / 1_000_000;
    if millis < 1 {
        1
    } else if millis > i32::MAX as u128 {
        i32::MAX
    } else {
        millis as i32
    }
}

/// A time in whole milliseconds, for a call to which the greatest number means forever: less
/// than a millisecond is none, and no time is forever.
pub fn wait_millis(nanos: u128) -> (millis: u32)
    ensures
        millis == if nanos / 1_000_000 < u32::MAX - 1 {
            nanos / 1_000_000
        } else {
            (u32::MAX - 1) as u128
        },
{
    let millis: u128 = nanos / 1_000_000;
    if millis < (u32::MAX - 1) as u128 {
        millis as u32
    } else {
        u32::MAX - 1
    }
}

/// Random digits for the name of a parking place.
pub fn random_suffix() -> (result: Result<String, Fault>)
    ensures
        result matches Ok(suffix) ==> exists|token: Seq<u8>|
            token.len() == 16 && suffix@ == #[trigger] hex_digits(token),
        result matches Err(fault) ==> fault is EventRandomness && fault.cause_code() is Some,
{
    match random_bytes(16) {
        Ok(token) => Ok(hex(token.as_slice())),
        Err(code) => Err(Fault::EventRandomness { code }),
    }
}

/// What the name of a parking place starts with.
pub open spec fn event_prefix(platform: Platform) -> Seq<char> {
    match platform {
        Platform::Posix => "/tmp/psi-"@,
        Platform::Windows { .. } => "Local\\prescient-event-"@,
    }
}

/// The name of the parking place with a suffix and a running number.
pub open spec fn place_name(platform: Platform, suffix: Seq<char>, id: u64) -> Seq<char> {
    event_prefix(platform) + suffix + seq!['-'] + numeral(id as nat, 16)
}

/// The name of the parking place with a suffix and a running number. Where the system parks
/// on the shared words themselves, no place is needed.
pub fn event_name(platform: Platform, suffix: &str, id: u64) -> (name: String)
    ensures
        name@ == place_name(platform, suffix@, id),
{
    let mut name: String = match platform {
        Platform::Posix => String::from_str("/tmp/psi-"),
        Platform::Windows { .. } => String::from_str("Local\\prescient-event-"),
    };
    name.append(suffix);
    name.append("-");
    proof {
        reveal_strlit("-");
        assert("-"@ =~= seq!['-']);
    }
    let number: String = numeral_text(id, 16);
    name.append(number.as_str());
    name
}

/// The name of a parking place always fits into an event.
pub proof fn law_place_names_fit(platform: Platform, token: Seq<u8>, id: u64)
    requires
        token.len() == 16,
    ensures
        0 < encode_utf8(place_name(platform, hex_digits(token), id)).len() < EVENT_NAME_LEN,
{
    let name = place_name(platform, hex_digits(token), id);
    let number = numeral(id as nat, 16);
    let prefix = event_prefix(platform);
    lemma_hex_digits(token);
    lemma_numeral_is_ascii(id as nat, 16);
    lemma_hexadecimal_len(id);
    reveal_strlit("/tmp/psi-");
    reveal_strlit("Local\\prescient-event-");
    assert(is_ascii_chars(prefix));
    assert(is_ascii_chars(name)) by {
        assert forall|i: int| 0 <= i < name.len() implies '\0' <= #[trigger] name[i]
            <= '\u{7f}' by {
            let from = prefix.len() as int;
            if i < from {
                assert(name[i] == prefix[i]);
            } else if i < from + 32 {
                assert(name[i] == hex_digits(token)[i - from]);
            } else if i > from + 32 {
                assert(name[i] == number[i - from - 33]);
            }
        }
    }
    is_ascii_chars_encode_utf8(name);
}


/// Parking places have names of their own: two that were made with the same suffix differ
/// wherever their running numbers do.
pub proof fn law_place_names_are_distinct(platform: Platform, suffix: Seq<char>, a: u64, b: u64)
    requires
        a != b,
    ensures
        place_name(platform, suffix, a) != place_name(platform, suffix, b),
{
    let head = event_prefix(platform) + suffix + seq!['-'];
    let x = place_name(platform, suffix, a);
    let y = place_name(platform, suffix, b);
    crate::ipc::token::law_numerals_read_as_their_number(a as nat, 16);
    crate::ipc::token::law_numerals_read_as_their_number(b as nat, 16);
    assert(x.skip(head.len() as int) =~= numeral(a as nat, 16));
    assert(y.skip(head.len() as int) =~= numeral(b as nat, 16));
}

/// A wait ends truthfully: the waiter is told of a change at once where there already is one, it
/// is told that nothing came only where nothing has, and it parks only where it has seen no
/// change since it registered.
pub proof fn law_waits_end_truthfully(phase: WaitPhase, shared: SharedEventState, observed: u32)
    ensures
        wait_answer(phase, shared, observed) == Ok::<WaitStep, Fault>(
            WaitStep::Done(WaitOutcome::TimedOut),
        ) ==> shared.sequence == observed,
        phase == WaitPhase::Idle && shared.sequence != observed ==> wait_answer(
            phase,
            shared,
            observed,
        ) == Ok::<WaitStep, Fault>(WaitStep::Done(WaitOutcome::Changed)) && waited(
            phase,
            shared,
            observed,
        ).1 == shared,
        phase == WaitPhase::Registered ==> (wait_answer(phase, shared, observed) == Ok::<
            WaitStep,
            Fault,
        >(WaitStep::Park) <==> shared.sequence == observed),
        wait_answer(phase, shared, observed) is Err <==> phase == WaitPhase::Checked
            && shared.waiters != 0,
        phase is Leaving ==> waited(phase, shared, observed).1.waiters == 0,
        waited(phase, shared, observed).1.sequence == shared.sequence,
{
}

/// A publisher makes its cursor seen and takes the registration: whoever waits for another number
/// sees the change, unless the cursors are a whole round of 32 bits apart.
pub proof fn law_published_cursors_are_seen(shared: SharedEventState, before: u64, after: u64)
    requires
        before < after < before + 0x1_0000_0000,
    ensures
        stored(shared, after).sequence != stored(shared, before).sequence,
        stored(shared, after).waiters == shared.waiters,
        claimed(stored(shared, after)).waiters == 0,
        claimed(stored(shared, after)).sequence == stored(shared, after).sequence,
{
    let m = 0x1_0000_0000int;
    vstd::arithmetic::div_mod::lemma_fundamental_div_mod(before as int, m);
    vstd::arithmetic::div_mod::lemma_fundamental_div_mod(after as int, m);
}

/// A name that was written into an event is read back from it.
pub proof fn law_written_names_are_read_back(area: Seq<u8>, name: Seq<u8>)
    requires
        area.len() == EVENT_NAME_LEN,
        name.len() < EVENT_NAME_LEN,
    ensures
        named(area, name).len() == area.len(),
        named(area, name).take(name.len() as int) == name,
        named(area, name)[name.len() as int] == 0,
{
    assert(named(area, name).take(name.len() as int) =~= name);
}

} // verus!
