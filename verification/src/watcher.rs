use crate::item::Item;
use vstd::prelude::*;

verus! {

/// Classification of a failed watch invocation.  `Desync` means the server
/// reported that the client's resume position is no longer available, so only
/// a full resync can recover; `Other` covers transient failures that the
/// driving loop simply retries.
#[derive(Clone, Copy, Debug, PartialEq, Eq, Structural)]
pub enum InvocationErrorKind {
    Desync,
    Other,
}

/// Error returned when a watch invocation fails to establish a stream.
///
/// The classification is the one fact the driving loop needs from such an
/// error, and no wrapping layer may lose it; the inner cause is carried as an
/// opaque token.
#[derive(Clone, Copy, Debug, PartialEq, Eq, Structural)]
pub struct InvocationError {
    pub kind: InvocationErrorKind,
    pub cause: u64,
}

impl InvocationError {
    /// A desync-classified invocation error with the given cause.
    pub fn desync(cause: u64) -> (r: InvocationError)
        ensures
            r == (InvocationError { kind: InvocationErrorKind::Desync, cause }),
    {
        InvocationError { kind: InvocationErrorKind::Desync, cause }
    }

    /// An invocation error of the transient kind with the given cause.
    pub fn other(cause: u64) -> (r: InvocationError)
        ensures
            r == (InvocationError { kind: InvocationErrorKind::Other, cause }),
    {
        InvocationError { kind: InvocationErrorKind::Other, cause }
    }
}

/// Error encountered while consuming an already-established stream.  It is a
/// distinct type from [`InvocationError`] because the recovery policy
/// differs: a stream error ends the current stream and the loop re-invokes,
/// without forcing a full resync.
#[derive(Clone, Copy, Debug, PartialEq, Eq, Structural)]
pub struct StreamError {
    pub cause: u64,
}

/// One change event delivered by the watch stream.
///
/// `Bookmark` carries only a resource version, so that the loop can advance
/// its resume position without any object changing; `Status` is an in-band
/// error payload from the server, which ends the current stream.
#[derive(Clone, Copy, Debug, PartialEq, Eq, Structural)]
pub enum WatchEvent {
    Added(Item),
    Modified(Item),
    Deleted(Item),
    Bookmark(u64),
    Status(u64),
}

/// One step of consuming an established stream: an event, a mid-stream
/// failure, or the server closing the connection without error.  The last is
/// a retryable end of stream, not a failure.
#[derive(Clone, Copy, Debug, PartialEq, Eq, Structural)]
pub enum StreamItem {
    Event(WatchEvent),
    Failed(StreamError),
    End,
}

/// Parameters of one watch invocation: the resume token, absent for "start
/// from now".  Server-side filtering and timeout hints belong to the
/// transport and are not modelled here.
#[derive(Clone, Copy, Debug, PartialEq, Eq)]
pub struct WatchOptions {
    pub resume_version: Option<u64>,
}

} // verus!
