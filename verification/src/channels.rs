//! The channels, tasks and counters that connect the server's bookkeeping to
//! the tasks that accept connections and move packets. What comes out of
//! them depends on other tasks, so nothing is stated of it; each handle
//! keeps, as ghost state, a record of the calls made through it and their
//! answers, so that the server's contracts can say which calls it made and
//! what it did with each answer.
use std::sync::atomic::{AtomicU64, AtomicUsize, Ordering};
use std::sync::Arc;
use vstd::prelude::*;

verus! {

#[verifier::external_type_specification]
#[verifier::external_body]
#[verifier::reject_recursive_types(T)]
pub struct ExCrossbeamReceiver<T>(crossbeam::channel::Receiver<T>);

#[verifier::external_type_specification]
#[verifier::external_body]
#[verifier::reject_recursive_types(T)]
pub struct ExTokioSender<T>(tokio::sync::mpsc::Sender<T>);

#[verifier::external_type_specification]
#[verifier::external_body]
#[verifier::reject_recursive_types(T)]
pub struct ExTokioUnboundedSender<T>(tokio::sync::mpsc::UnboundedSender<T>);

#[verifier::external_type_specification]
#[verifier::external_body]
#[verifier::reject_recursive_types(T)]
pub struct ExTokioJoinHandle<T>(tokio::task::JoinHandle<T>);

/// Declared because the `Future` impl of `JoinHandle` names it; Verus
/// refuses `JoinHandle` without it.
#[verifier::external_type_specification]
#[verifier::external_body]
pub struct ExTokioJoinError(tokio::task::JoinError);

#[verifier::external_type_specification]
#[verifier::external_body]
pub struct ExTokioAbortHandle(tokio::task::AbortHandle);

/// Why a value could not be put into a bounded channel.
#[derive(Clone, Copy, Debug, PartialEq, Eq, Structural)]
pub enum TrySendFailure {
    /// The channel holds as many values as it can.
    Full,
    /// The receiving side is gone.
    Closed,
}

/// The receiving end of a channel, with, as ghost state, the values taken
/// from it through [`try_recv`] so far, oldest first.
#[verifier::reject_recursive_types(T)]
pub struct Inbox<T> {
    receiver: crossbeam::channel::Receiver<T>,
    taken: Ghost<Seq<T>>,
}

impl<T> Inbox<T> {
    /// The values taken from the channel through [`try_recv`], oldest first.
    pub closed spec fn taken(&self) -> Seq<T> {
        self.taken@
    }

    /// The receiving end `receiver`, from which nothing has been taken yet.
    pub fn new(receiver: crossbeam::channel::Receiver<T>) -> (s: Self)
        ensures
            s.taken() == Seq::<T>::empty(),
    {
        Inbox { receiver, taken: Ghost(Seq::empty()) }
    }
}

/// Takes the next value waiting in a channel, if there is one, with
/// `crossbeam::channel::Receiver::try_recv`. Whether one is waiting depends
/// on the senders, so nothing is stated of whether a value comes back; a
/// value that comes back is appended to the inbox's ghost record of values
/// taken, which has no part at run time.
#[verifier::external_body]
pub(crate) fn try_recv<T>(inbox: &mut Inbox<T>) -> (r: Option<T>)
    ensures
        match r {
            Some(v) => final(inbox).taken() == old(inbox).taken().push(v),
            None => final(inbox).taken() == old(inbox).taken(),
        },
{
    inbox.receiver.try_recv().ok()
}

/// The sending end of a bounded channel, with, as ghost state, the values
/// offered to it through [`try_send`] and how each offer went, oldest first.
#[verifier::reject_recursive_types(T)]
pub struct Outbox<T> {
    sender: tokio::sync::mpsc::Sender<T>,
    offered: Ghost<Seq<T>>,
    reports: Ghost<Seq<Result<(), TrySendFailure>>>,
}

impl<T> Outbox<T> {
    /// The values offered to the channel through [`try_send`], oldest first.
    pub closed spec fn offered(&self) -> Seq<T> {
        self.offered@
    }

    /// How each offer of [`Self::offered`] went.
    pub closed spec fn reports(&self) -> Seq<Result<(), TrySendFailure>> {
        self.reports@
    }

    /// The sending end `sender`, to which nothing has been offered yet.
    pub fn new(sender: tokio::sync::mpsc::Sender<T>) -> (s: Self)
        ensures
            s.offered() == Seq::<T>::empty(),
            s.reports() == Seq::<Result<(), TrySendFailure>>::empty(),
    {
        Outbox { sender, offered: Ghost(Seq::empty()), reports: Ghost(Seq::empty()) }
    }
}

/// Offers a value to a bounded channel without waiting, with
/// `tokio::sync::mpsc::Sender::try_send`, and tells the two failures apart.
/// Whether there is room depends on the receiver, so nothing is stated of
/// which answer comes back; the value and the answer are appended to the
/// outbox's ghost record, which has no part at run time.
#[verifier::external_body]
pub(crate) fn try_send<T>(outbox: &mut Outbox<T>, value: T) -> (r: Result<(), TrySendFailure>)
    ensures
        final(outbox).offered() == old(outbox).offered().push(value),
        final(outbox).reports() == old(outbox).reports().push(r),
{
    match outbox.sender.try_send(value) {
        Ok(()) => Ok(()),
        Err(tokio::sync::mpsc::error::TrySendError::Full(_)) => Err(TrySendFailure::Full),
        Err(tokio::sync::mpsc::error::TrySendError::Closed(_)) => Err(TrySendFailure::Closed),
    }
}

/// Sends a unit signal on an unbounded channel with
/// `tokio::sync::mpsc::UnboundedSender::send`; a closed channel is ignored.
#[verifier::external_body]
pub(crate) fn send_signal(sender: &tokio::sync::mpsc::UnboundedSender<()>) {
    let _ = sender.send(());
}

/// The handle of a running task, with, as ghost state, the answers of every
/// check through [`task_finished`] of whether the task has ended, oldest
/// first.
pub struct TaskWatch {
    handle: tokio::task::JoinHandle<()>,
    checks: Ghost<Seq<bool>>,
}

impl TaskWatch {
    /// The answers of the checks made through [`task_finished`], oldest
    /// first.
    pub closed spec fn checks(&self) -> Seq<bool> {
        self.checks@
    }

    /// A watch on the task behind `handle`, not checked yet.
    pub fn new(handle: tokio::task::JoinHandle<()>) -> (s: Self)
        ensures
            s.checks() == Seq::<bool>::empty(),
    {
        TaskWatch { handle, checks: Ghost(Seq::empty()) }
    }
}

/// Whether a task has ended, with `tokio::task::JoinHandle::is_finished`.
/// That depends on the task, so nothing is stated of the answer; it is
/// appended to the watch's ghost record of checks, which has no part at run
/// time.
#[verifier::external_body]
pub(crate) fn task_finished(watch: &mut TaskWatch) -> (r: bool)
    ensures
        final(watch).checks() == old(watch).checks().push(r),
{
    watch.handle.is_finished()
}

/// The handle that aborts a task, with, as ghost state, whether it has been
/// used to abort the task.
pub struct TaskStopper {
    handle: tokio::task::AbortHandle,
    used: Ghost<bool>,
}

impl TaskStopper {
    /// Whether [`abort_task`] has been called with this stopper.
    pub closed spec fn used(&self) -> bool {
        self.used@
    }

    /// A stopper for the task behind `handle`, not used yet.
    pub fn new(handle: tokio::task::AbortHandle) -> (s: Self)
        ensures
            !s.used(),
    {
        TaskStopper { handle, used: Ghost(false) }
    }
}

/// Aborts the task behind `stopper` with `tokio::task::AbortHandle::abort`,
/// and records in the stopper's ghost state that it was used. The ghost
/// state has no part at run time; the contract says only that the call was
/// made through this stopper, not when the task ends.
#[verifier::external_body]
pub(crate) fn abort_task(stopper: &mut TaskStopper)
    ensures
        final(stopper).used(),
{
    stopper.handle.abort();
    stopper.used = Ghost(true);
}

/// Adds one to the shared count of clients the server holds.
pub(crate) fn count_up(counter: &Arc<AtomicUsize>) {
    let c: &AtomicUsize = &**counter;
    c.fetch_add(1, Ordering::Release);
}

/// Takes one from the shared count of clients the server holds.
pub(crate) fn count_down(counter: &Arc<AtomicUsize>) {
    let c: &AtomicUsize = &**counter;
    c.fetch_sub(1, Ordering::Release);
}

/// Reads the next client index that the accepting side will hand out.
pub(crate) fn next_client_index(iterator: &Arc<AtomicU64>) -> u64 {
    let c: &AtomicU64 = &**iterator;
    c.load(Ordering::Relaxed)
}

} // verus!
