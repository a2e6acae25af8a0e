//! Meeting the peer of a process channel.
//!
//! The two processes meet at a named endpoint. What is here decides on names and on how
//! long to try. Sockets are up to the caller.
use super::Fault;
use vstd::prelude::*;
use vstd::string::{StringExecFns, StringSliceAdditionalSpecFns};

verus! {

/// The longest endpoint name, in bytes.
pub const MAX_ENDPOINT_NAME: usize = 20;

/// The pause between two attempts to meet, in nanoseconds.
pub const RENDEZVOUS_RETRY_NANOS: u128 = 1_000_000;

/// Whether a byte can stand in an endpoint name.
pub open spec fn plain(byte: u8) -> bool {
    ||| 0x30 <= byte <= 0x39
    ||| 0x41 <= byte <= 0x5a
    ||| 0x61 <= byte <= 0x7a
    ||| byte == 0x2d
    ||| byte == 0x5f
    ||| byte == 0x2e
}

/// Whether bytes can be an endpoint name: not empty, short, and only ASCII letters,
/// digits, dashes, underscores and dots.
pub open spec fn plain_name(name: Seq<u8>) -> bool {
    &&& 0 < name.len() <= MAX_ENDPOINT_NAME
    &&& forall|i: int| 0 <= i < name.len() ==> plain(#[trigger] name[i])
}

/// The file name of the socket of an endpoint.
pub fn endpoint_file(name: &str) -> (result: Result<String, Fault>)
    ensures
        result is Ok <==> plain_name(name.spec_bytes()),
        result matches Ok(file) ==> file@ == "prescient-"@ + name@ + ".sock"@,
        result matches Err(fault) ==> fault == Fault::EndpointName,
{
    let bytes: &[u8] = name.as_bytes();
    let len: usize = bytes.len();
    if len == 0 || len > MAX_ENDPOINT_NAME {
        return Err(Fault::EndpointName);
    }
    let mut k: usize = 0;
    while k < len
        invariant
            k <= len,
            len == bytes@.len(),
            bytes@ == name.spec_bytes(),
            0 < len <= MAX_ENDPOINT_NAME,
            forall|i: int| 0 <= i < k ==> plain(#[trigger] bytes@[i]),
        decreases len - k,
    {
        let byte: u8 = bytes[k];
        let fits: bool = (0x30 <= byte && byte <= 0x39) || (0x41 <= byte && byte <= 0x5a) || (0x61
            <= byte && byte <= 0x7a) || byte == 0x2d || byte == 0x5f || byte == 0x2e;
        if !fits {
            assert(!plain(bytes@[k as int]));
            return Err(Fault::EndpointName);
        }
        k = k + 1;
    }
    let mut file: String = String::from_str("prescient-");
    file.append(name);
    file.append(".sock");
    Ok(file)
}

/// When to stop trying.
pub fn deadline(now_nanos: u128, timeout_nanos: u128) -> (result: Result<u128, Fault>)
    ensures
        result is Ok <==> now_nanos + timeout_nanos <= u128::MAX,
        result matches Ok(end) ==> end == now_nanos + timeout_nanos,
        result matches Err(fault) ==> fault == Fault::DeadlineOverflow,
{
    match now_nanos.checked_add(timeout_nanos) {
        Some(end) => Ok(end),
        None => Err(Fault::DeadlineOverflow),
    }
}

/// What an attempt to meet has come to.
#[derive(Clone, Copy, Debug, PartialEq, Eq, Structural)]
pub enum Attempt {
    /// The peer is there.
    Connected,
    /// No peer is waiting yet.
    WouldBlock,
    /// The endpoint is not there.
    NotFound,
    /// Nobody listens at the endpoint.
    ConnectionRefused,
    /// The endpoint has no address yet.
    AddrNotAvailable,
    /// The attempt has failed for good.
    Failed,
}

/// What to do after an attempt.
#[derive(Clone, Copy, Debug, PartialEq, Eq, Structural)]
pub enum Rendezvous {
    /// Go on with the connection.
    Met,
    /// Pause, and try again.
    Retry,
    /// Give up.
    Fail(Fault),
    /// Pass the failure of the attempt on.
    Pass,
}

/// Go on waiting for a peer to connect.
pub fn accept_step(attempt: Attempt, now_nanos: u128, deadline_nanos: u128) -> (step: Rendezvous)
    ensures
        step == match attempt {
            Attempt::Connected => Rendezvous::Met,
            Attempt::WouldBlock => if now_nanos >= deadline_nanos {
                Rendezvous::Fail(Fault::AcceptTimedOut)
            } else {
                Rendezvous::Retry
            },
            _ => Rendezvous::Pass,
        },
{
    match attempt {
        Attempt::Connected => Rendezvous::Met,
        Attempt::WouldBlock => if now_nanos >= deadline_nanos {
            Rendezvous::Fail(Fault::AcceptTimedOut)
        } else {
            Rendezvous::Retry
        },
        _ => Rendezvous::Pass,
    }
}

/// Go on trying to connect.
pub fn connect_step(attempt: Attempt, now_nanos: u128, deadline_nanos: u128) -> (step: Rendezvous)
    ensures
        step == match attempt {
            Attempt::Connected => Rendezvous::Met,
            Attempt::NotFound | Attempt::ConnectionRefused | Attempt::AddrNotAvailable => if now_nanos
                >= deadline_nanos {
                Rendezvous::Fail(Fault::ConnectTimedOut)
            } else {
                Rendezvous::Retry
            },
            _ => Rendezvous::Pass,
        },
{
    match attempt {
        Attempt::Connected => Rendezvous::Met,
        Attempt::NotFound | Attempt::ConnectionRefused | Attempt::AddrNotAvailable => if now_nanos
            >= deadline_nanos {
            Rendezvous::Fail(Fault::ConnectTimedOut)
        } else {
            Rendezvous::Retry
        },
        _ => Rendezvous::Pass,
    }
}


/// An endpoint can have every name of one to twenty letters, digits, dots, dashes and underscores,
/// and no name that has anything else in it, such as a separator of paths.
pub proof fn law_endpoint_names_are_plain(name: Seq<u8>)
    ensures
        plain_name(name) <==> 1 <= name.len() <= 20 && forall|i: int|
            0 <= i < name.len() ==> {
                let c = #[trigger] name[i] as char;
                'a' <= c <= 'z' || 'A' <= c <= 'Z' || '0' <= c <= '9' || c == '.' || c == '-' || c
                    == '_'
            },
        plain_name(name) ==> !name.contains(0x2f) && !name.contains(0x5c) && !name.contains(0),
{
    if plain_name(name) {
        assert forall|i: int| 0 <= i < name.len() implies {
            let c = #[trigger] name[i] as char;
            'a' <= c <= 'z' || 'A' <= c <= 'Z' || '0' <= c <= '9' || c == '.' || c == '-' || c == '_'
        } by {
            assert(plain(name[i]));
        }
        assert forall|i: int| 0 <= i < name.len() implies name[i] != 0x2f && name[i] != 0x5c
            && name[i] != 0 by {
            assert(plain(name[i]));
        }
    }
}

} // verus!
