//! The decisions of the task that reads a connection's WebSocket messages
//! and forwards their payloads to the server. The task waits for whichever
//! comes first (the abort signal has priority, the keep-alive timeout comes
//! last) and hands each outcome here.
use vstd::prelude::*;

verus! {

/// What ended one wait of the reader task.
pub enum ReaderEvent {
    /// The server asked the reader to stop, or dropped the way to ask.
    Abort,
    /// A binary message arrived, with its payload.
    Binary(Vec<u8>),
    /// A message of another kind arrived.
    NonBinary,
    /// Reading the socket failed.
    ReadError,
    /// No message arrived within the keep-alive time.
    TimedOut,
    /// Nothing is left to wait for.
    Exhausted,
}

/// What the reader task does next.
pub enum ReaderAction {
    /// End the task.
    Stop,
    /// Pass the payload on to the server.
    Forward(Vec<u8>),
    /// Wait again, without restarting the keep-alive timer.
    Ignore,
}

/// How passing a payload on to the server went.
#[derive(Clone, Copy, Debug, PartialEq, Eq, Structural)]
pub enum ForwardOutcome {
    /// The server's queue took it.
    Sent,
    /// The server's queue was full and the payload was dropped.
    Full,
    /// The server is gone.
    Disconnected,
}

/// What the reader task does after passing a payload on.
#[derive(Clone, Copy, Debug, PartialEq, Eq, Structural)]
pub enum ReaderFlow {
    /// End the task.
    Stop,
    /// Restart the keep-alive timer and wait again.
    ResetTimer,
}

/// Decides what the reader does with the outcome of a wait: a binary
/// payload is passed on, another kind of message is ignored (and does not
/// count as a sign of life), and anything else ends the task.
pub fn reader_action(event: ReaderEvent) -> (a: ReaderAction)
    ensures
        match event {
            ReaderEvent::Binary(data) => a matches ReaderAction::Forward(d) && d@ == data@,
            ReaderEvent::NonBinary => a is Ignore,
            _ => a is Stop,
        },
{
    match event {
        ReaderEvent::Binary(data) => ReaderAction::Forward(data),
        ReaderEvent::NonBinary => ReaderAction::Ignore,
        ReaderEvent::Abort => ReaderAction::Stop,
        ReaderEvent::ReadError => ReaderAction::Stop,
        ReaderEvent::TimedOut => ReaderAction::Stop,
        ReaderEvent::Exhausted => ReaderAction::Stop,
    }
}

/// Decides what the reader does after passing a payload on: it stops only
/// when the server is gone; a full queue drops the payload but keeps the
/// connection alive.
pub fn reader_after_forward(outcome: ForwardOutcome) -> (f: ReaderFlow)
    ensures
        f == ReaderFlow::Stop <==> outcome == ForwardOutcome::Disconnected,
{
    match outcome {
        ForwardOutcome::Disconnected => ReaderFlow::Stop,
        ForwardOutcome::Full => ReaderFlow::ResetTimer,
        ForwardOutcome::Sent => ReaderFlow::ResetTimer,
    }
}

} // verus!
