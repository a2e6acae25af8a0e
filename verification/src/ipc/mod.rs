//! Typed process channels over the shared-memory transport.
use crate::backend::Ring;
use crate::codec::Bytes;
use crate::execution::Sync;
use crate::routing::RoundRobin;
use crate::topology::ProcessDuplex;
use crate::transport::{ProcessAttach, ProcessCreate};
use crate::wait::Park;
use crate::{Channel, Shape};
use vstd::prelude::*;

mod fault;
pub use fault::{law_faults_are_classed_by_their_origin, Fault, FaultKind};
pub mod codec;
pub mod control;
pub mod destination;
mod duplex;
pub use duplex::{
    announces, attach_peer, check_setup, create, create_defect,
    law_both_ends_speak_of_one_stream, law_lists_are_sent_where_they_fill_the_stream, law_new_channels_are_paired,
    law_peers_take_only_what_they_expect, law_plain_data_channels_are_joined,
    law_possible_channels_are_created, paired, paired_configs, receiving, sending, setup_answer, setup_defect, slice_defect, CodecDuplex,
    Duplex, PodDuplex, Receiver, Sender,
};
pub mod event;
pub mod payload;
pub mod pod;
pub use payload::{faithful, sound_contract, IpcCodec, IpcPod, PayloadContract, PayloadKind};
pub mod region;
pub mod setup;
pub mod stream;
mod text;
mod token;
pub use token::{
    cause_text, digit, digit_value, hex_digits, law_hex_digits_tell_their_bytes,
    law_numerals_read_as_their_number, numeral, reading,
};
pub mod wire;
pub use wire::ByteOrder;

verus! {

/// Creating-side raw-byte declaration.
pub type Create = Channel<
    u8,
    ProcessDuplex,
    Ring,
    Sync,
    Park,
    RoundRobin,
    ProcessCreate,
    Bytes,
>;

/// Attaching-side raw-byte declaration.
pub type Attach = Channel<
    u8,
    ProcessDuplex,
    Ring,
    Sync,
    Park,
    RoundRobin,
    ProcessAttach,
    Bytes,
>;

/// Declare the creating side of a raw-byte process channel.
pub fn channel() -> (channel: Create)
    ensures
        channel.shape == Shape::initial(),
        channel.transport.endpoint@ == "default"@,
{
    Channel::<u8>::new().ipc()
}

/// Declare the attaching side of a raw-byte process channel.
pub fn attach() -> (channel: Attach)
    ensures
        channel.shape == Shape::initial(),
        channel.transport.endpoint@ == "default"@,
{
    Channel::<u8>::new().ipc().attach()
}

} // verus!
