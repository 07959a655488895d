//! The bookkeeping of a WebSocket server socket: which connections are
//! pending a verdict from netcode, which are established, which client id
//! each connection holds, and which connections are to be dropped.
//!
//! Tasks outside this module accept connections and move packets; they hand
//! the server connection requests and established connections through
//! channels, and the server answers through channels of its own.
use std::collections::{BTreeMap, HashMap, HashSet};
use std::sync::atomic::{AtomicU64, AtomicUsize};
use std::sync::Arc;
use vstd::prelude::*;
use vstd::std_specs::btree::{increasing_seq, spec_keys_iter};
use vstd::std_specs::hash::spec_hash_keys_iter;
use vstd::std_specs::iter::IteratorSpec;

use crate::channels::{
    abort_task, TaskStopper, count_down, count_up, next_client_index, send_signal, task_finished, try_recv,
    try_send, Inbox, Outbox, TaskWatch, TrySendFailure,
};

verus! {

/// How connections are accepted, over the types `N` and `R` of a native-TLS
/// and of a rustls acceptor. Without TLS in the local server, connections are
/// encrypted by netcode itself.
#[derive(Clone)]
pub enum WebSocketAcceptor<N, R> {
    /// No TLS in the local server.
    Plain {
        /// Whether a TLS proxy stands in front of the local server.
        has_tls_proxy: bool,
    },
    /// TLS in the local server through a native-TLS acceptor.
    NativeTls(N),
    /// TLS in the local server through a rustls acceptor.
    Rustls(R),
}

impl<N, R> WebSocketAcceptor<N, R> {
    /// Whether clients reach the server over TLS: every acceptor but a plain
    /// one without a TLS proxy.
    pub open spec fn spec_has_tls(self) -> bool {
        !(self matches WebSocketAcceptor::Plain { has_tls_proxy: false })
    }

    /// Whether clients reach the server over TLS.
    pub fn has_tls(&self) -> (r: bool)
        ensures
            r == self.spec_has_tls(),
    {
        match self {
            WebSocketAcceptor::Plain { has_tls_proxy } => *has_tls_proxy,
            WebSocketAcceptor::NativeTls(_) => true,
            WebSocketAcceptor::Rustls(_) => true,
        }
    }
}

/// Settings for a [`WebSocketServer`], over the type `A` of the address to
/// listen on and the types `N` and `R` of the TLS acceptors.
pub struct WebSocketServerConfig<A, N, R> {
    /// How connections are accepted.
    pub acceptor: WebSocketAcceptor<N, R>,
    /// The address to listen on.
    pub listen: A,
    /// The most clients that may be active at once.
    pub max_clients: usize,
}

impl<A, N, R> WebSocketServerConfig<A, N, R> {
    /// A config without TLS and without a TLS proxy.
    pub fn new(listen: A, max_clients: usize) -> (c: Self)
        ensures
            c.acceptor == (WebSocketAcceptor::<N, R>::Plain { has_tls_proxy: false }),
            c.listen == listen,
            c.max_clients == max_clients,
    {
        WebSocketServerConfig {
            acceptor: WebSocketAcceptor::Plain { has_tls_proxy: false },
            listen,
            max_clients,
        }
    }
}

/// Whether the accepting side turns a new connection away: it allows a
/// quarter more clients than `max_clients`, so that clients may replace
/// their old sessions.
pub fn server_is_full(current_clients: usize, max_clients: usize) -> (r: bool)
    requires
        current_clients * 4 <= usize::MAX,
        max_clients * 5 <= usize::MAX,
    ensures
        r == (current_clients * 4 >= max_clients * 5),
{
    current_clients * 4 >= max_clients * 5
}

/// The URL scheme under which clients reach the server.
pub fn websocket_scheme(with_tls: bool) -> (s: &'static str)
    ensures
        with_tls ==> s@ == "wss"@,
        !with_tls ==> s@ == "ws"@,
{
    if with_tls {
        "wss"
    } else {
        "ws"
    }
}

/// The verdict of netcode on a connection request.
pub enum ConnectionRequestResult {
    /// The request was accepted under this client id.
    Success { client_id: u64 },
    /// The request was refused.
    Failure,
}

/// The client id under which the accepting side admits a connection, given
/// the verdict it waited for: only `Success` admits; `Failure`, or no verdict
/// at all because the server is gone, does not.
pub fn admitted_client_id(verdict: Option<ConnectionRequestResult>) -> (r: Option<u64>)
    ensures
        match verdict {
            Some(ConnectionRequestResult::Success { client_id }) => r == Some(client_id),
            _ => r is None,
        },
{
    match verdict {
        Some(ConnectionRequestResult::Success { client_id }) => Some(client_id),
        _ => None,
    }
}

/// A client's first connection request, passed from the accepting side to
/// the server together with the channel on which the verdict goes back.
pub struct ConnectionRequest {
    /// The connection's index.
    pub client_idx: u64,
    /// The request packet.
    pub packet: Vec<u8>,
    /// Where the verdict goes.
    pub result_sender: tokio::sync::mpsc::Sender<ConnectionRequestResult>,
}

/// What the server knows of a pending connection.
pub struct PendingView {
    pub client_idx: u64,
    pub client_id: Option<u64>,
    pub buffered_response: Option<Seq<u8>>,
}

/// A connection whose request netcode is still evaluating.
pub struct PendingClient {
    client_idx: u64,
    client_id: Option<u64>,
    result_sender: Outbox<ConnectionRequestResult>,
    buffered_response: Option<Vec<u8>>,
}

impl View for PendingClient {
    type V = PendingView;

    closed spec fn view(&self) -> PendingView {
        PendingView {
            client_idx: self.client_idx,
            client_id: self.client_id,
            buffered_response: match self.buffered_response {
                Some(b) => Some(b@),
                None => None,
            },
        }
    }
}

impl PendingClient {
    /// A pending connection with no client id and no buffered response.
    pub fn new(
        client_idx: u64,
        result_sender: tokio::sync::mpsc::Sender<ConnectionRequestResult>,
    ) -> (p: Self)
        ensures
            p@ == (PendingView { client_idx, client_id: None, buffered_response: None }),
    {
        PendingClient {
            client_idx,
            client_id: None,
            result_sender: Outbox::new(result_sender),
            buffered_response: None,
        }
    }

    /// The packet kept for the connection, if any.
    pub fn buffered_response(&self) -> (r: Option<&[u8]>)
        ensures
            match r {
                Some(b) => self@.buffered_response == Some(b@),
                None => self@.buffered_response is None,
            },
    {
        match &self.buffered_response {
            Some(b) => Some(b.as_slice()),
            None => None,
        }
    }

    /// Keeps the first packet sent to the pending connection, to forward it
    /// once the connection is established; later packets are dropped.
    pub fn set_buffer(&mut self, packet: &[u8])
        ensures
            final(self)@.client_idx == old(self)@.client_idx,
            final(self)@.client_id == old(self)@.client_id,
            final(self)@.buffered_response == (match old(self)@.buffered_response {
                Some(b) => Some(b),
                None => Some(packet@),
            }),
    {
        if self.buffered_response.is_some() {
            return;
        }
        self.buffered_response = Some(vstd::slice::slice_to_vec(packet));
    }
}

/// What the server knows of an established connection.
pub struct ClientView {
    pub client_id: u64,
    pub client_idx: u64,
}

/// An established connection: its ids, the channels to and from its reader
/// and writer tasks, and the handles of those tasks.
pub struct WebSocketServerClient {
    client_id: u64,
    client_idx: u64,
    incoming_receiver: Inbox<Vec<u8>>,
    outgoing_sender: Outbox<Vec<u8>>,
    reader_handle: TaskWatch,
    writer_handle: TaskWatch,
    reader_aborter: tokio::sync::mpsc::UnboundedSender<()>,
}

impl View for WebSocketServerClient {
    type V = ClientView;

    closed spec fn view(&self) -> ClientView {
        ClientView { client_id: self.client_id, client_idx: self.client_idx }
    }
}

impl WebSocketServerClient {
    /// Gathers an established connection from the tasks started for it.
    pub fn new(
        client_id: u64,
        client_idx: u64,
        incoming_receiver: crossbeam::channel::Receiver<Vec<u8>>,
        outgoing_sender: tokio::sync::mpsc::Sender<Vec<u8>>,
        reader_handle: tokio::task::JoinHandle<()>,
        writer_handle: tokio::task::JoinHandle<()>,
        reader_aborter: tokio::sync::mpsc::UnboundedSender<()>,
    ) -> (c: Self)
        ensures
            c@ == (ClientView { client_id, client_idx }),
    {
        WebSocketServerClient {
            client_id,
            client_idx,
            incoming_receiver: Inbox::new(incoming_receiver),
            outgoing_sender: Outbox::new(outgoing_sender),
            reader_handle: TaskWatch::new(reader_handle),
            writer_handle: TaskWatch::new(writer_handle),
            reader_aborter,
        }
    }
}

/// Why the socket could not do what was asked.
#[derive(Clone, Copy, Debug, PartialEq, Eq, Structural)]
pub enum SocketError {
    /// No packet is waiting.
    WouldBlock,
    /// The connection is gone.
    ConnectionAborted,
}

/// What a send to an established connection answers, given how its writer
/// channel took the packet: a packet dropped because the writer is backed up
/// is no failure; a closed channel means the connection is gone.
pub fn outgoing_send_result(outcome: Result<(), TrySendFailure>) -> (r: Result<(), SocketError>)
    ensures
        outcome == Err::<(), TrySendFailure>(TrySendFailure::Closed) ==> r == Err::<(), SocketError>(
            SocketError::ConnectionAborted,
        ),
        outcome != Err::<(), TrySendFailure>(TrySendFailure::Closed) ==> r is Ok,
{
    match outcome {
        Err(TrySendFailure::Closed) => Err(SocketError::ConnectionAborted),
        Err(TrySendFailure::Full) => Ok(()),
        Ok(()) => Ok(()),
    }
}

/// What became of an established connection handed to the server.
#[derive(Clone, Copy, Debug, PartialEq, Eq, Structural)]
pub enum AdmitOutcome {
    /// The connection was not pending (it was dropped or replaced meanwhile)
    /// and is discarded.
    NotPending,
    /// Another connection holds the connection's client id; the connection
    /// is discarded.
    SlotTaken,
    /// The connection is established.
    Admitted,
}

/// Writes `packet` over the start of `buffer`.
fn copy_into(buffer: &mut [u8], packet: &[u8])
    requires
        packet@.len() <= old(buffer)@.len(),
    ensures
        final(buffer)@ == packet@ + old(buffer)@.subrange(packet@.len() as int, old(buffer)@.len() as int),
{
    let n: usize = packet.len();
    let mut i: usize = 0;
    while i < n
        invariant
            n == packet@.len(),
            n <= buffer@.len(),
            buffer@.len() == old(buffer)@.len(),
            i <= n,
            forall|k: int| 0 <= k < i ==> buffer@[k] == packet@[k],
            forall|k: int| n <= k < buffer@.len() ==> buffer@[k] == old(buffer)@[k],
        decreases n - i,
    {
        buffer[i] = packet[i];
        i = i + 1;
    }
    assert(buffer@ =~= packet@ + old(buffer)@.subrange(n as int, old(buffer)@.len() as int));
}

/// The packets taken from a channel went from `before` to `after` either
/// not at all, or by one packet longer than `limit`, and then `marked`
/// holds.
pub open spec fn same_or_one_oversized(before: Seq<Seq<u8>>, after: Seq<Seq<u8>>, limit: int, marked: bool) -> bool {
    ||| after == before
    ||| {
        &&& after.len() == before.len() + 1
        &&& after.drop_last() == before
        &&& after.last().len() > limit
        &&& marked
    }
}

/// Dropping one more connection `x` after the connections in `gone` ends
/// where dropping them all at once does.
pub proof fn lemma_dropped_insert(v: ServerView, gone: Set<u64>, x: u64)
    requires
        gone.finite(),
        !gone.contains(x),
    ensures
        v.dropped(gone.insert(x)) == v.dropped(gone).dropped_one(x),
{
    let a = v.dropped(gone.insert(x));
    let d = v.dropped(gone);
    let b = d.dropped_one(x);
    assert(d.clients.contains_key(x) == v.clients.contains_key(x));
    assert(d.pending.contains_key(x) == v.pending.contains_key(x));
    assert(d.holds(x) == v.holds(x));
    if v.holds(x) {
        assert(d.dropped_id(x) == v.dropped_id(x));
        if v.clients.contains_key(x) {
            assert(d.clients[x] == v.clients[x]);
        } else {
            assert(d.pending[x] == v.pending[x]);
        }
    }
    assert(a.clients =~= b.clients);
    assert(a.pending =~= b.pending);
    assert(a.verdicts =~= b.verdicts);
    assert(a.stopped =~= b.stopped);
    let id: u64 = v.dropped_id(x);
    assert(a.client_id_to_idx =~= b.client_id_to_idx) by {
        assert forall|k: u64| #[trigger] a.client_id_to_idx.contains_key(k) <==> b.client_id_to_idx.contains_key(k) by {
            if v.client_id_to_idx.contains_key(k) && v.client_id_to_idx[k] == x && v.holds(x) && id == k {
                assert(d.client_id_to_idx.contains_key(k));
            }
        }
    }
    let held = |k: u64| v.holds(k);
    assert(gone.insert(x).filter(held) =~= if v.holds(x) {
        gone.filter(held).insert(x)
    } else {
        gone.filter(held)
    });
    gone.lemma_len_filter(held);
}

/// When netcode accepts a pending connection under a client id, the id
/// names that connection from then on, and a different connection that held
/// the id before is marked to be dropped.
pub proof fn lemma_accepted_takes_slot(v: ServerView, client_id: u64, client_idx: u64)
    requires
        v.pending.contains_key(client_idx),
    ensures
        v.accepted(client_id, client_idx).client_id_to_idx[client_id] == client_idx,
        v.accepted(client_id, client_idx).pending[client_idx].client_id == Some(client_id),
        v.client_id_to_idx.contains_key(client_id) && v.client_id_to_idx[client_id] != client_idx
            ==> v.accepted(client_id, client_idx).lost.contains(v.client_id_to_idx[client_id]),
        v.lost.subset_of(v.accepted(client_id, client_idx).lost),
{
}

/// A connection that the server does not hold ignores netcode's verdict.
pub proof fn lemma_accepted_ignores_unknown(v: ServerView, client_id: u64, client_idx: u64)
    requires
        !v.pending.contains_key(client_idx),
    ensures
        v.accepted(client_id, client_idx) == v,
{
}

/// Once the connections in `gone` are dropped, the server holds none of
/// them, provided no connection was both pending and established.
pub proof fn lemma_dropped_releases(v: ServerView, gone: Set<u64>, k: u64)
    requires
        v.pending.dom().disjoint(v.clients.dom()),
        gone.contains(k),
    ensures
        !v.dropped(gone).holds(k),
{
}

/// Dropping a connection a second time changes nothing more (it no longer
/// counts), provided no connection was both pending and established.
pub proof fn lemma_dropped_one_idempotent(v: ServerView, client_idx: u64)
    requires
        v.pending.dom().disjoint(v.clients.dom()),
    ensures
        v.dropped_one(client_idx).dropped_one(client_idx) == v.dropped_one(client_idx),
{
    assert(!v.dropped_one(client_idx).holds(client_idx));
}

/// Connection `i` is still recorded as found empty at the `j`-th state.
pub open spec fn still_found_empty(states: Seq<ServerView>, i: u64, j: int) -> bool {
    states[j].found_empty.contains(i)
}

/// Consecutive states keep what was found empty, as every operation but a
/// `preupdate` that starts the receive position over does.
pub open spec fn keeps_found_empty(states: Seq<ServerView>, j: int) -> bool {
    states[j].found_empty.subset_of(states[j + 1].found_empty)
}

/// Once `try_recv` finds connection `i` with nothing waiting, it stays so
/// recorded until `preupdate` starts the receive position over, and in every
/// well-formed state of that run the receive position is past `i`; so no
/// `try_recv` in between returns `i` from its scan of established
/// connections (which only returns connections not found empty, at or past
/// the receive position).
pub proof fn lemma_found_empty_not_polled_again(states: Seq<ServerView>, i: u64)
    requires
        states.len() > 0,
        states[0].found_empty.contains(i),
        forall|j: int| 0 <= j < states.len() - 1 ==> #[trigger] keeps_found_empty(states, j),
    ensures
        forall|j: int|
            0 <= j < states.len() ==> #[trigger] still_found_empty(states, i, j) && (states[j].wf()
                ==> states[j].recv_index > i),
    decreases states.len(),
{
    if states.len() == 1 {
        assert forall|j: int| 0 <= j < states.len() implies #[trigger] still_found_empty(states, i, j)
            && (states[j].wf() ==> states[j].recv_index > i) by {
            assert(states[j].found_empty.contains(i));
        }
    } else {
        let init = states.subrange(0, states.len() - 1);
        assert forall|j: int| 0 <= j < init.len() - 1 implies #[trigger] keeps_found_empty(init, j) by {
            assert(keeps_found_empty(states, j));
        }
        lemma_found_empty_not_polled_again(init, i);
        let last = states.len() - 1;
        assert(still_found_empty(init, i, last - 1));
        assert(keeps_found_empty(states, last - 1));
        assert forall|j: int| 0 <= j < states.len() implies #[trigger] still_found_empty(states, i, j)
            && (states[j].wf() ==> states[j].recv_index > i) by {
            if j < last {
                assert(still_found_empty(init, i, j));
            }
            assert(states[j].found_empty.contains(i));
        }
    }
}

/// The TLS flag of consecutive states agrees, as every operation keeps it.
pub open spec fn keeps_tls(states: Seq<ServerView>, j: int) -> bool {
    states[j + 1].has_tls == states[j].has_tls
}

/// Whether the server reports TLS is fixed when it is made from its
/// acceptor: across any run of operations, each of which keeps the flag, it
/// stays what it was in the first state.
pub proof fn lemma_tls_flag_constant(states: Seq<ServerView>)
    requires
        forall|j: int| 0 <= j < states.len() - 1 ==> #[trigger] keeps_tls(states, j),
    ensures
        forall|j: int| 0 <= j < states.len() ==> #[trigger] states[j].has_tls == states[0].has_tls,
    decreases states.len(),
{
    if states.len() > 1 {
        let init = states.subrange(0, states.len() - 1);
        assert forall|j: int| 0 <= j < init.len() - 1 implies #[trigger] keeps_tls(init, j) by {
            assert(keeps_tls(states, j));
        }
        lemma_tls_flag_constant(init);
        let last = states.len() - 1;
        assert(keeps_tls(states, last - 1));
        assert(init[last - 1].has_tls == init[0].has_tls);
        assert forall|j: int| 0 <= j < states.len() implies #[trigger] states[j].has_tls == states[0].has_tls by {
            if j < last {
                assert(init[j].has_tls == init[0].has_tls);
            }
        }
    }
}

/// Dropping one connection frees only the client id that names it: every
/// other id keeps its mapping.
pub proof fn lemma_dropped_one_keeps_other_ids(v: ServerView, client_idx: u64, id: u64)
    requires
        v.client_id_to_idx.get(id) != Some(client_idx),
    ensures
        v.dropped_one(client_idx).client_id_to_idx.get(id) == v.client_id_to_idx.get(id),
{
}

/// Dropping one connection the server holds frees the id it gives up when,
/// and only when, that id still names it.
pub proof fn lemma_dropped_one_frees_own_id(v: ServerView, client_idx: u64)
    requires
        v.holds(client_idx),
    ensures
        v.client_id_to_idx.get(v.dropped_id(client_idx)) == Some(client_idx) ==> !v.dropped_one(
            client_idx,
        ).client_id_to_idx.contains_key(v.dropped_id(client_idx)),
        v.client_id_to_idx.get(v.dropped_id(client_idx)) != Some(client_idx) ==> v.dropped_one(
            client_idx,
        ).client_id_to_idx == v.client_id_to_idx,
{
}

/// Dropping a set of connections frees only client ids that name one of
/// them: an id that names a connection outside the set keeps its mapping.
/// So a connection that took over an id from a dropped connection keeps it.
pub proof fn lemma_dropped_keeps_other_ids(v: ServerView, gone: Set<u64>, id: u64)
    requires
        v.client_id_to_idx.contains_key(id),
        !gone.contains(v.client_id_to_idx[id]),
    ensures
        v.dropped(gone).client_id_to_idx.contains_key(id),
        v.dropped(gone).client_id_to_idx[id] == v.client_id_to_idx[id],
{
}

/// A client that reconnects keeps its new connection: once netcode accepts
/// the pending connection `new_idx` under `client_id` (which marks a
/// different connection that held the id to be dropped) and a set of
/// connections without `new_idx` is dropped, the id names `new_idx`, which is
/// still pending; so when it arrives established it is admitted (see
/// [`WebSocketServer::admit_connection`]).
pub proof fn lemma_usurper_keeps_slot(v: ServerView, client_id: u64, new_idx: u64, gone: Set<u64>)
    requires
        v.pending.contains_key(new_idx),
        !gone.contains(new_idx),
    ensures
        v.accepted(client_id, new_idx).dropped(gone).client_id_to_idx.get(client_id) == Some(new_idx),
        v.accepted(client_id, new_idx).dropped(gone).pending.contains_key(new_idx),
{
    let a = v.accepted(client_id, new_idx);
    assert(a.client_id_to_idx[client_id] == new_idx);
    assert(a.dropped(gone).client_id_to_idx.contains_key(client_id));
}

/// Which connections are marked to be dropped has no part in what dropping
/// a given set of connections does.
pub proof fn lemma_dropped_ignores_lost(a: ServerView, b: ServerView, gone: Set<u64>)
    requires
        a == (ServerView { lost: a.lost, ..b }),
    ensures
        (ServerView { lost: Set::empty(), ..a.dropped(gone) }) == (ServerView {
            lost: Set::empty(),
            ..b.dropped(gone)
        }),
{
    assert(gone.filter(|k: u64| !a.clients.contains_key(k)) =~= gone.filter(
        |k: u64| !b.clients.contains_key(k),
    ));
    assert(gone.filter(|k: u64| a.holds(k)) =~= gone.filter(|k: u64| b.holds(k)));
    assert(a.dropped(gone).pending =~= b.dropped(gone).pending);
    assert(a.dropped(gone).clients =~= b.dropped(gone).clients);
    assert(a.dropped(gone).client_id_to_idx =~= b.dropped(gone).client_id_to_idx);
    assert(a.dropped(gone).verdicts =~= b.dropped(gone).verdicts);
    assert(a.dropped(gone).stopped =~= b.dropped(gone).stopped);
}

/// The keys of a `BTreeMap` of `u64`, as its key iterator yields them, grow
/// strictly.
proof fn lemma_increasing_keys(s: Seq<&u64>)
    requires
        increasing_seq(s),
    ensures
        forall|i: int, j: int| 0 <= i < j < s.len() ==> *s[i] < *s[j],
{
    broadcast use vstd::std_specs::btree::axiom_increasing_seq_meaning, vstd::laws_cmp::group_laws_cmp;

    assert forall|i: int, j: int| 0 <= i < j < s.len() implies *s[i] < *s[j] by {
        assert(vstd::std_specs::cmp::OrdSpec::cmp_spec(&s[i], &s[j]) is Less);
    }
}

/// What the server knows: its settings, its connections and the count of
/// clients it has published to the accepting side.
pub struct ServerView {
    pub has_tls: bool,
    pub closed: bool,
    pub recv_index: u64,
    /// The established connections that `try_recv` found with nothing
    /// waiting since the receive position last started over.
    pub found_empty: Set<u64>,
    pub pending: Map<u64, PendingView>,
    pub clients: Map<u64, ClientView>,
    pub client_id_to_idx: Map<u64, u64>,
    pub lost: Set<u64>,
    /// What the server has added to, less what it has taken from, the shared
    /// count of clients.
    pub client_count: int,
    /// The last verdict the server handed to each connection's verdict
    /// channel.
    pub verdicts: Map<u64, ConnectionRequestResult>,
    /// Whether the accepting task may still run: it is aborted by `close`.
    pub accepting: bool,
    /// The packets handed to each established connection's writer channel,
    /// in order.
    pub outgoing: Map<u64, Seq<Seq<u8>>>,
    /// The established connections whose reader task was told to stop.
    pub stopped: Set<u64>,
    /// The established connections asked for a packet, in the order asked.
    pub polls: Seq<u64>,
    /// The packets taken from each established connection's incoming
    /// channel, in the order taken.
    pub received: Map<u64, Seq<Seq<u8>>>,
}

impl ServerView {
    /// The count published to the accepting side is the number of
    /// connections held, pending or established, and no connection is both.
    pub open spec fn wf(self) -> bool {
        &&& self.pending.dom().finite()
        &&& self.clients.dom().finite()
        &&& self.pending.dom().disjoint(self.clients.dom())
        &&& self.client_count == self.pending.len() + self.clients.len()
        &&& forall|k: u64| #[trigger] self.found_empty.contains(k) ==> k < self.recv_index
    }

    /// A packet sent to the pending connection `client_idx` is kept if it is
    /// the first one; otherwise nothing changes.
    pub open spec fn buffered(self, client_idx: u64, packet: Seq<u8>) -> ServerView {
        let p = self.pending[client_idx];
        ServerView {
            pending: self.pending.insert(
                client_idx,
                PendingView {
                    buffered_response: match p.buffered_response {
                        Some(b) => Some(b),
                        None => Some(packet),
                    },
                    ..p
                },
            ),
            ..self
        }
    }

    /// The packets handed so far to connection `client_idx`'s writer.
    pub open spec fn handed(self, client_idx: u64) -> Seq<Seq<u8>> {
        if self.outgoing.contains_key(client_idx) {
            self.outgoing[client_idx]
        } else {
            Seq::empty()
        }
    }

    /// `packet` is handed to connection `client_idx`'s writer.
    pub open spec fn sent(self, client_idx: u64, packet: Seq<u8>) -> ServerView {
        ServerView {
            outgoing: self.outgoing.insert(client_idx, self.handed(client_idx).push(packet)),
            ..self
        }
    }

    /// The pending connection `c.client_idx` is established as `c`, and the
    /// packet kept for it while pending, if any, is handed to its writer.
    pub open spec fn admitted(self, c: ClientView) -> ServerView {
        let established = ServerView {
            pending: self.pending.remove(c.client_idx),
            clients: self.clients.insert(c.client_idx, c),
            ..self
        };
        match self.pending[c.client_idx].buffered_response {
            Some(b) => established.sent(c.client_idx, b),
            None => established,
        }
    }

    /// The pending connection `client_idx` is dropped because another
    /// connection took its client id: it leaves the published count.
    pub open spec fn slot_taken(self, client_idx: u64) -> ServerView {
        ServerView {
            pending: self.pending.remove(client_idx),
            client_count: self.client_count - 1,
            ..self
        }
    }

    /// What a run of `preupdate` may do, whichever connections it was handed:
    /// connections leave the pending set only to be established under the
    /// client id they hold, or dropped; nothing else changes, but for the
    /// receive position, which starts over.
    pub open spec fn preupdate_step(self, next: ServerView) -> bool {
        &&& next.has_tls == self.has_tls
        &&& next.closed == self.closed
        &&& next.client_id_to_idx == self.client_id_to_idx
        &&& next.lost == self.lost
        &&& next.verdicts == self.verdicts
        &&& next.accepting == self.accepting
        &&& next.stopped == self.stopped
        &&& next.polls == self.polls
        &&& next.received == self.received
        &&& forall|k: u64|
            !(#[trigger] self.pending.contains_key(k) && !next.pending.contains_key(k))
                ==> next.handed(k) == self.handed(k)
        &&& forall|k: u64|
            #[trigger] next.clients.contains_key(k) && !self.clients.contains_key(k)
                ==> next.handed(k) == match self.pending[k].buffered_response {
                Some(b) => self.handed(k).push(b),
                None => self.handed(k),
            }
        &&& (next.recv_index == 0 && next.found_empty == Set::<u64>::empty()
            || next.recv_index == self.recv_index && next.found_empty == self.found_empty)
        &&& next.pending.dom().subset_of(self.pending.dom())
        &&& forall|k: u64| #[trigger] next.pending.contains_key(k) ==> next.pending[k] == self.pending[k]
        &&& self.clients.dom().subset_of(next.clients.dom())
        &&& forall|k: u64|
            #[trigger] next.clients.contains_key(k) && !self.clients.contains_key(k) ==> {
                &&& self.pending.contains_key(k)
                &&& !next.pending.contains_key(k)
                &&& next.clients[k].client_idx == k
                &&& self.client_id_to_idx.contains_key(next.clients[k].client_id)
                &&& self.client_id_to_idx[next.clients[k].client_id] == k
            }
    }

    /// A connection request from `client_idx` was taken in: the connection
    /// is pending, with no client id and nothing buffered, and joins the
    /// published count.
    pub open spec fn requested(self, client_idx: u64) -> ServerView {
        ServerView {
            pending: self.pending.insert(
                client_idx,
                PendingView { client_idx, client_id: None, buffered_response: None },
            ),
            client_count: self.client_count + 1,
            ..self
        }
    }

    /// The only verdicts handed over between `self` and `next` are refusals.
    pub open spec fn refused_only(self, next: ServerView) -> bool {
        &&& self.verdicts.dom().subset_of(next.verdicts.dom())
        &&& forall|k: u64|
            #[trigger] next.verdicts.contains_key(k) && !(self.verdicts.contains_key(k)
                && self.verdicts[k] == next.verdicts[k]) ==> next.verdicts[k]
                == ConnectionRequestResult::Failure
    }

    /// What `try_recv` may do short of taking in a connection request: it
    /// refuses requests too large for the buffer, marks established
    /// connections whose packet is too large to be dropped, and moves the
    /// receive position forward.
    pub open spec fn scanned(self, next: ServerView) -> bool {
        &&& self.refused_only(next)
        &&& next.has_tls == self.has_tls
        &&& next.closed == self.closed
        &&& next.pending == self.pending
        &&& next.clients == self.clients
        &&& next.client_id_to_idx == self.client_id_to_idx
        &&& next.client_count == self.client_count
        &&& self.lost.subset_of(next.lost)
        &&& forall|k: u64| #[trigger] next.lost.contains(k) && !self.lost.contains(k)
            ==> self.clients.contains_key(k)
        &&& self.recv_index <= next.recv_index
        &&& self.polls.len() <= next.polls.len()
        &&& next.polls.subrange(0, self.polls.len() as int) == self.polls
        &&& self.found_empty.subset_of(next.found_empty)
        &&& forall|k: u64| #[trigger] next.found_empty.contains(k) && !self.found_empty.contains(k)
            ==> self.clients.contains_key(k)
    }

    /// The packets taken so far from connection `client_idx`'s incoming
    /// channel.
    pub open spec fn taken(self, client_idx: u64) -> Seq<Seq<u8>> {
        if self.received.contains_key(client_idx) {
            self.received[client_idx]
        } else {
            Seq::empty()
        }
    }

    /// Between `self` and `next`, nothing was taken from connection `k`'s
    /// incoming channel, or a single packet longer than `limit` was taken
    /// and dropped, and `k` is marked to be dropped.
    pub open spec fn took_none_or_oversized(self, next: ServerView, k: u64, limit: int) -> bool {
        ||| next.taken(k) == self.taken(k)
        ||| {
            &&& next.taken(k).len() == self.taken(k).len() + 1
            &&& next.taken(k).drop_last() == self.taken(k)
            &&& next.taken(k).last().len() > limit
            &&& next.lost.contains(k)
        }
    }

    /// Between `self` and `next`, exactly one packet, `packet`, was taken
    /// from connection `k`'s incoming channel.
    pub open spec fn took_one(self, next: ServerView, k: u64, packet: Seq<u8>) -> bool {
        &&& next.taken(k).len() == self.taken(k).len() + 1
        &&& next.taken(k).drop_last() == self.taken(k)
        &&& next.taken(k).last() == packet
    }

    /// The connections asked for a packet between `self` and `next`.
    pub open spec fn asked(self, next: ServerView) -> Seq<u64> {
        next.polls.subrange(self.polls.len() as int, next.polls.len() as int)
    }

    /// Between `self` and `next`, exactly the established connections with
    /// an index from `lo` up to, not including, `hi` were asked for a
    /// packet, each once, in increasing order of index.
    pub open spec fn asked_in_order(self, next: ServerView, lo: int, hi: int) -> bool {
        &&& forall|a: int, b: int|
            0 <= a < b < self.asked(next).len() ==> self.asked(next)[a] < self.asked(next)[b]
        &&& forall|k: u64|
            #[trigger] self.asked(next).contains(k) <==> (self.clients.contains_key(k) && lo <= k < hi)
    }

    /// Whether the server holds connection `client_idx`, pending or
    /// established.
    pub open spec fn holds(self, client_idx: u64) -> bool {
        self.clients.contains_key(client_idx) || self.pending.contains_key(client_idx)
    }

    /// The client id that dropping connection `client_idx` gives up: that of
    /// the established connection, else that of the pending one, or
    /// `u64::MAX` where it has none.
    pub open spec fn dropped_id(self, client_idx: u64) -> u64 {
        if self.clients.contains_key(client_idx) {
            self.clients[client_idx].client_id
        } else {
            match self.pending[client_idx].client_id {
                Some(id) => id,
                None => u64::MAX,
            }
        }
    }

    /// Drops connection `client_idx`: it leaves the established connections
    /// if it is there, else the pending ones, and the published count; the
    /// client id it gives up is freed if it still names this connection. A
    /// connection the server does not hold changes nothing.
    pub open spec fn dropped_one(self, client_idx: u64) -> ServerView {
        if !self.holds(client_idx) {
            self
        } else {
            let id: u64 = self.dropped_id(client_idx);
            ServerView {
                clients: self.clients.remove(client_idx),
                pending: if self.clients.contains_key(client_idx) {
                    self.pending
                } else {
                    self.pending.remove(client_idx)
                },
                client_id_to_idx: if self.client_id_to_idx.get(id) == Some(client_idx) {
                    self.client_id_to_idx.remove(id)
                } else {
                    self.client_id_to_idx
                },
                client_count: self.client_count - 1,
                verdicts: if self.clients.contains_key(client_idx) {
                    self.verdicts
                } else {
                    self.verdicts.insert(client_idx, ConnectionRequestResult::Failure)
                },
                stopped: if self.clients.contains_key(client_idx) {
                    self.stopped.insert(client_idx)
                } else {
                    self.stopped
                },
                ..self
            }
        }
    }

    /// Drops every connection in `gone` at once (see [`Self::dropped_one`]);
    /// the order in which they are dropped makes no difference.
    pub open spec fn dropped(self, gone: Set<u64>) -> ServerView {
        ServerView {
            clients: self.clients.remove_keys(gone),
            pending: self.pending.remove_keys(gone.filter(|k: u64| !self.clients.contains_key(k))),
            client_id_to_idx: self.client_id_to_idx.filter_keys(
                |id: u64|
                    !(gone.contains(self.client_id_to_idx[id]) && self.holds(
                        self.client_id_to_idx[id],
                    ) && self.dropped_id(self.client_id_to_idx[id]) == id),
            ),
            client_count: self.client_count - gone.filter(|k: u64| self.holds(k)).len(),
            verdicts: self.verdicts.union_prefer_right(
                Map::new(
                    |k: u64|
                        gone.contains(k) && !self.clients.contains_key(k) && self.pending.contains_key(
                            k,
                        ),
                    |k: u64| ConnectionRequestResult::Failure,
                ),
            ),
            stopped: self.stopped.union(gone.filter(|k: u64| self.clients.contains_key(k))),
            ..self
        }
    }

    /// Connection `k` was pending here and, in `next`, is neither pending nor
    /// established.
    pub open spec fn left_unestablished(self, next: ServerView, k: u64) -> bool {
        self.pending.contains_key(k) && !next.pending.contains_key(k) && !next.clients.contains_key(k)
    }

    /// How a run of `preupdate` ends: either it took in every connection
    /// that waited, establishing every connection that left the pending set,
    /// keeping the published count and starting the receive position over;
    /// or it stopped at a connection whose client id another took, which
    /// alone left the pending set without being established and left the
    /// published count, and the receive position stayed.
    pub open spec fn preupdate_end(self, next: ServerView) -> bool {
        ||| {
            &&& next.client_count == self.client_count
            &&& next.recv_index == 0
            &&& next.found_empty == Set::<u64>::empty()
            &&& forall|k: u64| !#[trigger] self.left_unestablished(next, k)
        }
        ||| {
            &&& next.client_count == self.client_count - 1
            &&& next.recv_index == self.recv_index
            &&& forall|k: u64, j: u64|
                #[trigger] self.left_unestablished(next, k) && #[trigger] self.left_unestablished(
                    next,
                    j,
                ) ==> k == j
        }
    }

    /// Netcode accepted the pending connection `client_idx` under
    /// `client_id`: the connection takes the id, and a connection that held
    /// the id before is to be dropped. A connection that is not pending is
    /// left alone.
    pub open spec fn accepted(self, client_id: u64, client_idx: u64) -> ServerView {
        if !self.pending.contains_key(client_idx) {
            self
        } else {
            let p = self.pending[client_idx];
            let usurped = self.client_id_to_idx.contains_key(client_id)
                && self.client_id_to_idx[client_id] != client_idx;
            ServerView {
                pending: self.pending.insert(
                    client_idx,
                    PendingView { client_id: Some(client_id), ..p },
                ),
                client_id_to_idx: self.client_id_to_idx.insert(client_id, client_idx),
                verdicts: self.verdicts.insert(client_idx, ConnectionRequestResult::Success { client_id }),
                lost: if usurped {
                    self.lost.insert(self.client_id_to_idx[client_id])
                } else {
                    self.lost
                },
                ..self
            }
        }
    }
}

/// The server side of a WebSocket socket.
pub struct WebSocketServer {
    has_tls: bool,
    connection_abort_handle: TaskStopper,
    connection_req_receiver: Inbox<ConnectionRequest>,
    connection_receiver: Inbox<WebSocketServerClient>,
    client_iterator: Arc<AtomicU64>,
    pending_clients: HashMap<u64, PendingClient>,
    clients: BTreeMap<u64, WebSocketServerClient>,
    client_id_to_idx: HashMap<u64, u64>,
    lost_clients: HashSet<u64>,
    closed: bool,
    current_clients: Arc<AtomicUsize>,
    recv_index: u64,
    found_empty: Ghost<Set<u64>>,
    client_count: Ghost<int>,
    verdicts: Ghost<Map<u64, ConnectionRequestResult>>,
    outgoing: Ghost<Map<u64, Seq<Seq<u8>>>>,
    stopped: Ghost<Set<u64>>,
    polls: Ghost<Seq<u64>>,
    received: Ghost<Map<u64, Seq<Seq<u8>>>>,
    writer_report: Ghost<Result<(), TrySendFailure>>,
}

impl View for WebSocketServer {
    type V = ServerView;

    closed spec fn view(&self) -> ServerView {
        ServerView {
            has_tls: self.has_tls,
            closed: self.closed,
            recv_index: self.recv_index,
            found_empty: self.found_empty@,
            pending: self.pending_clients@.map_values(|p: PendingClient| p@),
            clients: self.clients@.map_values(|c: WebSocketServerClient| c@),
            client_id_to_idx: self.client_id_to_idx@,
            lost: self.lost_clients@,
            client_count: self.client_count@,
            verdicts: self.verdicts@,
            accepting: !self.connection_abort_handle.used(),
            outgoing: self.outgoing@,
            stopped: self.stopped@,
            polls: self.polls@,
            received: self.received@,
        }
    }
}

impl WebSocketServer {
    /// How the writer channel of an established connection last took a
    /// packet handed to it by `send`.
    pub closed spec fn last_writer_report(&self) -> Result<(), TrySendFailure> {
        self.writer_report@
    }

    /// The packets handed to established connection `client_idx`'s writer
    /// channel, oldest first.
    pub closed spec fn writer_offered(&self, client_idx: u64) -> Seq<Seq<u8>> {
        if self.clients@.contains_key(client_idx) {
            self.clients@[client_idx].outgoing_sender.offered().map_values(|v: Vec<u8>| v@)
        } else {
            Seq::empty()
        }
    }

    /// How established connection `client_idx`'s writer channel took each
    /// packet of [`Self::writer_offered`].
    pub closed spec fn writer_reports(&self, client_idx: u64) -> Seq<Result<(), TrySendFailure>> {
        if self.clients@.contains_key(client_idx) {
            self.clients@[client_idx].outgoing_sender.reports()
        } else {
            Seq::empty()
        }
    }

    /// The verdicts sent so far to pending connection `client_idx`, oldest
    /// first.
    pub closed spec fn verdicts_sent(&self, client_idx: u64) -> Seq<ConnectionRequestResult> {
        if self.pending_clients@.contains_key(client_idx) {
            self.pending_clients@[client_idx].result_sender.offered()
        } else {
            Seq::empty()
        }
    }

    /// The answers, oldest first, of the checks whether established
    /// connection `client_idx`'s reader task has ended.
    pub closed spec fn reader_checks(&self, client_idx: u64) -> Seq<bool> {
        if self.clients@.contains_key(client_idx) {
            self.clients@[client_idx].reader_handle.checks()
        } else {
            Seq::empty()
        }
    }

    /// The answers, oldest first, of the checks whether established
    /// connection `client_idx`'s writer task has ended.
    pub closed spec fn writer_checks(&self, client_idx: u64) -> Seq<bool> {
        if self.clients@.contains_key(client_idx) {
            self.clients@[client_idx].writer_handle.checks()
        } else {
            Seq::empty()
        }
    }

    /// Between `self` and `next`, connection `k`'s reader task and writer
    /// task were each checked once, and `k` is marked to be dropped in
    /// `next` exactly when it was in `self` or either check found its task
    /// ended.
    pub open spec fn checked_tasks(&self, next: &WebSocketServer, k: u64) -> bool {
        &&& next.reader_checks(k).len() == self.reader_checks(k).len() + 1
        &&& next.reader_checks(k).drop_last() == self.reader_checks(k)
        &&& next.writer_checks(k).len() == self.writer_checks(k).len() + 1
        &&& next.writer_checks(k).drop_last() == self.writer_checks(k)
        &&& (next@.lost.contains(k) <==> self@.lost.contains(k) || next.reader_checks(k).last()
            || next.writer_checks(k).last())
    }

    /// The packets taken from established connection `client_idx`'s incoming
    /// channel, oldest first.
    pub closed spec fn inbox_taken(&self, client_idx: u64) -> Seq<Seq<u8>> {
        if self.clients@.contains_key(client_idx) {
            self.clients@[client_idx].incoming_receiver.taken().map_values(|v: Vec<u8>| v@)
        } else {
            Seq::empty()
        }
    }

    /// A server with no connections, fed by the accepting task behind
    /// `connection_abort_handle` through the two receivers, sharing the next
    /// client index and the count of clients with that task.
    pub fn new<N, R>(
        acceptor: &WebSocketAcceptor<N, R>,
        connection_abort_handle: tokio::task::AbortHandle,
        connection_req_receiver: crossbeam::channel::Receiver<ConnectionRequest>,
        connection_receiver: crossbeam::channel::Receiver<WebSocketServerClient>,
        client_iterator: Arc<AtomicU64>,
        current_clients: Arc<AtomicUsize>,
    ) -> (s: Self)
        ensures
            s@.has_tls == acceptor.spec_has_tls(),
            !s@.closed,
            s@.recv_index == 0,
            s@.found_empty == Set::<u64>::empty(),
            s@.pending == Map::<u64, PendingView>::empty(),
            s@.clients == Map::<u64, ClientView>::empty(),
            s@.client_id_to_idx == Map::<u64, u64>::empty(),
            s@.lost == Set::<u64>::empty(),
            s@.client_count == 0,
            s@.verdicts == Map::<u64, ConnectionRequestResult>::empty(),
            s@.accepting,
            s@.outgoing == Map::<u64, Seq<Seq<u8>>>::empty(),
            s@.stopped == Set::<u64>::empty(),
            s@.polls == Seq::<u64>::empty(),
            s@.received == Map::<u64, Seq<Seq<u8>>>::empty(),
            s@.wf(),
    {
        let s = WebSocketServer {
            has_tls: acceptor.has_tls(),
            connection_abort_handle: TaskStopper::new(connection_abort_handle),
            connection_req_receiver: Inbox::new(connection_req_receiver),
            connection_receiver: Inbox::new(connection_receiver),
            client_iterator,
            pending_clients: HashMap::new(),
            clients: BTreeMap::new(),
            client_id_to_idx: HashMap::new(),
            lost_clients: HashSet::new(),
            closed: false,
            current_clients,
            recv_index: 0,
            found_empty: Ghost(Set::empty()),
            client_count: Ghost(0),
            verdicts: Ghost(Map::empty()),
            outgoing: Ghost(Map::empty()),
            stopped: Ghost(Set::empty()),
            polls: Ghost(Seq::empty()),
            received: Ghost(Map::empty()),
            writer_report: Ghost(Ok(())),
        };
        assert(s@.pending =~= Map::<u64, PendingView>::empty());
        assert(s@.clients =~= Map::<u64, ClientView>::empty());
        s
    }

    /// Whether traffic is encrypted by TLS.
    pub fn is_encrypted(&self) -> (r: bool)
        ensures
            r == self@.has_tls,
    {
        self.has_tls
    }

    /// WebSocket traffic is always reliable.
    pub fn is_reliable(&self) -> (r: bool)
        ensures
            r,
    {
        true
    }

    /// Whether the server was closed.
    pub fn is_closed(&self) -> (r: bool)
        ensures
            r == self@.closed,
    {
        self.closed
    }

    /// Stops accepting connections and marks the server closed.
    pub fn close(&mut self)
        ensures
            final(self)@ == (ServerView { closed: true, accepting: false, ..old(self)@ }),
            old(self)@.wf() ==> final(self)@.wf(),
    {
        abort_task(&mut self.connection_abort_handle);
        self.closed = true;
    }

    /// Netcode refused the connection: it is to be dropped.
    pub fn connection_denied(&mut self, client_idx: u64)
        ensures
            final(self)@ == (ServerView { lost: old(self)@.lost.insert(client_idx), ..old(self)@ }),
            old(self)@.wf() ==> final(self)@.wf(),
    {
        self.lost_clients.insert(client_idx);
    }

    /// Netcode accepted the connection `client_idx` under `client_id`. If the
    /// connection is pending, it is told of its success and takes the id;
    /// another connection that held the id is to be dropped. A call for a
    /// connection that is not pending is ignored.
    pub fn connection_accepted(&mut self, client_id: u64, client_idx: u64)
        ensures
            final(self)@ == old(self)@.accepted(client_id, client_idx),
            old(self)@.wf() ==> final(self)@.wf(),
            old(self)@.pending.contains_key(client_idx) ==> final(self).verdicts_sent(client_idx)
                == old(self).verdicts_sent(client_idx).push(ConnectionRequestResult::Success { client_id }),
    {
        let ghost old_pending = self.pending_clients@;
        let mut pending_client = match self.pending_clients.remove(&client_idx) {
            Some(p) => p,
            None => {
                assert(self.pending_clients@ =~= old_pending);
                return;
            },
        };
        self.tell(client_idx, &mut pending_client.result_sender, ConnectionRequestResult::Success { client_id });
        pending_client.client_id = Some(client_id);
        self.pending_clients.insert(client_idx, pending_client);
        proof {
            assert(self.pending_clients@ =~= old_pending.insert(client_idx, pending_client));
        }
        match self.client_id_to_idx.insert(client_id, client_idx) {
            Some(prev_client_idx) => {
                if prev_client_idx != client_idx {
                    self.lost_clients.insert(prev_client_idx);
                }
            },
            None => {},
        }
        proof {
            let old_view = old(self)@;
            let p = old_view.pending[client_idx];
            assert(self@.pending =~= old_view.pending.insert(
                client_idx,
                PendingView { client_id: Some(client_id), ..p },
            ));
        }
    }

    /// Hands `verdict` to the verdict channel of connection `client_idx`,
    /// and records it as the last verdict that connection was handed.
    fn tell(
        &mut self,
        client_idx: u64,
        sender: &mut Outbox<ConnectionRequestResult>,
        verdict: ConnectionRequestResult,
    )
        ensures
            final(sender).offered() == old(sender).offered().push(verdict),
            final(self)@ == (ServerView {
                verdicts: old(self)@.verdicts.insert(client_idx, verdict),
                ..old(self)@
            }),
            final(self).pending_clients@ == old(self).pending_clients@,
            final(self).clients@ == old(self).clients@,
    {
        self.verdicts = Ghost(self.verdicts@.insert(client_idx, verdict));
        let _ = try_send(sender, verdict);
    }

    /// Sends a packet to a connection. An established connection gets it
    /// through its writer task, which drops it when backed up; a pending one
    /// keeps it if it is its first, to get it once established. Sending to a
    /// connection that is neither fails.
    pub fn send(&mut self, client_idx: u64, packet: &[u8]) -> (r: Result<(), SocketError>)
        ensures
            old(self)@.clients.contains_key(client_idx) ==> {
                &&& final(self)@ == old(self)@.sent(client_idx, packet@)
                &&& (r == Err::<(), SocketError>(SocketError::ConnectionAborted)
                    <==> final(self).last_writer_report() == Err::<(), TrySendFailure>(
                    TrySendFailure::Closed,
                ))
                &&& (r is Ok <==> final(self).last_writer_report() != Err::<(), TrySendFailure>(
                    TrySendFailure::Closed,
                ))
                &&& final(self).writer_offered(client_idx) == old(self).writer_offered(client_idx).push(
                    packet@,
                )
                &&& final(self).writer_reports(client_idx) == old(self).writer_reports(client_idx).push(
                    final(self).last_writer_report(),
                )
            },
            !old(self)@.clients.contains_key(client_idx) ==> final(self).last_writer_report()
                == old(self).last_writer_report(),
            !old(self)@.clients.contains_key(client_idx) && old(self)@.pending.contains_key(
                client_idx,
            ) ==> final(self)@ == old(self)@.buffered(client_idx, packet@) && r is Ok,
            !old(self)@.clients.contains_key(client_idx) && !old(self)@.pending.contains_key(
                client_idx,
            ) ==> final(self)@ == old(self)@ && r == Err::<(), SocketError>(
                SocketError::ConnectionAborted,
            ),
            old(self)@.wf() ==> final(self)@.wf(),
    {
        let ghost old_clients = self.clients@;
        match self.clients.remove(&client_idx) {
            Some(mut client_data) => {
                let data = vstd::slice::slice_to_vec(packet);
                let ghost offered = data;
                self.outgoing = Ghost(self.outgoing@.insert(client_idx, self@.handed(client_idx).push(data@)));
                let outcome = try_send(&mut client_data.outgoing_sender, data);
                self.clients.insert(client_idx, client_data);
                self.writer_report = Ghost(outcome);
                proof {
                    assert(self.clients@ =~= old_clients.insert(client_idx, client_data));
                    assert(client_data@ == old_clients[client_idx]@);
                    assert(self@.clients =~= old(self)@.clients);
                    let before = old_clients[client_idx].outgoing_sender.offered();
                    assert(before.push(offered).map_values(|v: Vec<u8>| v@) =~= before.map_values(
                        |v: Vec<u8>| v@,
                    ).push(offered@));
                }
                assert(self@.found_empty == old(self)@.found_empty);
                outgoing_send_result(outcome)
            },
            None => {
                assert(self.clients@ =~= old_clients);
                let ghost old_pending = self.pending_clients@;
                match self.pending_clients.remove(&client_idx) {
                    Some(mut pending_client) => {
                        pending_client.set_buffer(packet);
                        self.pending_clients.insert(client_idx, pending_client);
                        proof {
                            assert(self.pending_clients@ =~= old_pending.insert(
                                client_idx,
                                pending_client,
                            ));
                            assert(self@.pending =~= old(self)@.buffered(client_idx, packet@).pending);
                        }
                        Ok(())
                    },
                    None => {
                        assert(self.pending_clients@ =~= old_pending);
                        Err(SocketError::ConnectionAborted)
                    },
                }
            },
        }
    }

    /// Takes in a connection that the accepting side established. A pending
    /// connection that still holds its client id is established and gets the
    /// packet buffered for it; one whose id another connection took is
    /// dropped from the count; one that is no longer pending is discarded.
    pub fn admit_connection(&mut self, server_client: WebSocketServerClient) -> (r: AdmitOutcome)
        ensures
            ({
                let c = server_client@;
                let idx: u64 = c.client_idx;
                let old_view = old(self)@;
                &&& !old_view.pending.contains_key(idx) ==> r == AdmitOutcome::NotPending
                    && final(self)@ == old_view
                &&& old_view.pending.contains_key(idx) && old_view.client_id_to_idx.get(c.client_id)
                    != Some(idx) ==> r == AdmitOutcome::SlotTaken && final(self)@
                    == old_view.slot_taken(idx)
                &&& old_view.pending.contains_key(idx) && old_view.client_id_to_idx.get(c.client_id)
                    == Some(idx) ==> r == AdmitOutcome::Admitted && final(self)@
                    == old_view.admitted(c)
            }),
            old(self)@.wf() ==> final(self)@.wf(),
    {
        let client_id: u64 = server_client.client_id;
        let client_idx: u64 = server_client.client_idx;
        let ghost old_pending = self.pending_clients@;
        let pending_client = match self.pending_clients.remove(&client_idx) {
            Some(p) => p,
            None => {
                assert(self.pending_clients@ =~= old_pending);
                return AdmitOutcome::NotPending;
            },
        };
        proof {
            assert(self@.pending =~= old(self)@.pending.remove(client_idx));
        }
        let holds_slot = match self.client_id_to_idx.get(&client_id) {
            Some(idx) => *idx == client_idx,
            None => false,
        };
        if !holds_slot {
            count_down(&self.current_clients);
            self.client_count = Ghost(self.client_count@ - 1);
            proof {
                assert(self@.found_empty == old(self)@.found_empty);
                assert(self@.recv_index == old(self)@.recv_index);
                if old(self)@.wf() {
                    assert(self@.pending.len() == old(self)@.pending.len() - 1);
                }
            }
            return AdmitOutcome::SlotTaken;
        }
        self.clients.insert(client_idx, server_client);
        proof {
            assert(self@.clients =~= old(self)@.clients.insert(client_idx, server_client@));
            assert(self@.found_empty == old(self)@.found_empty);
            assert(self@.recv_index == old(self)@.recv_index);
            if old(self)@.wf() {
                assert(!old(self)@.clients.contains_key(client_idx));
                assert(self@.pending.len() == old(self)@.pending.len() - 1);
                assert(self@.clients.len() == old(self)@.clients.len() + 1);
            }
        }
        match pending_client.buffered_response {
            Some(buffered) => {
                let _ = self.send(client_idx, buffered.as_slice());
            },
            None => {},
        }
        AdmitOutcome::Admitted
    }

    /// Takes in the connections that the accepting side has established,
    /// until none waits (or, a machine limit, `usize::MAX` were taken), (see
    /// [`Self::admit_connection`]), then starts the
    /// receive position over. It stops early, without starting the receive
    /// position over, at a connection whose client id another took.
    pub fn preupdate(&mut self)
        ensures
            old(self)@.preupdate_step(final(self)@),
            old(self)@.preupdate_end(final(self)@),
            old(self)@.wf() && (forall|k: u64| !#[trigger] old(self)@.left_unestablished(final(self)@, k))
                ==> final(self)@.recv_index == 0 && final(self)@.found_empty == Set::<u64>::empty(),
            old(self)@.wf() ==> final(self)@.wf(),
    {
        let mut budget: usize = usize::MAX;
        while budget > 0
            invariant
                old(self)@.preupdate_step(self@),
                self@.recv_index == old(self)@.recv_index,
                self@.client_count == old(self)@.client_count,
                forall|k: u64| !#[trigger] old(self)@.left_unestablished(self@, k),
                old(self)@.wf() ==> self@.wf(),
            decreases budget,
        {
            match try_recv(&mut self.connection_receiver) {
                Some(server_client) => {
                    let ghost before = self@;
                    let ghost idx = server_client@.client_idx;
                    let outcome = self.admit_connection(server_client);
                    if outcome == AdmitOutcome::SlotTaken {
                        proof {
                            assert forall|k: u64, j: u64|
                                #[trigger] old(self)@.left_unestablished(self@, k)
                                    && #[trigger] old(self)@.left_unestablished(self@, j)
                                implies k == j by {
                                assert(!old(self)@.left_unestablished(before, k));
                                assert(!old(self)@.left_unestablished(before, j));
                                assert(k == idx);
                                assert(j == idx);
                            }
                            if old(self)@.wf() {
                                assert(before.pending.contains_key(idx));
                                assert(old(self)@.pending.contains_key(idx));
                                assert(!old(self)@.clients.contains_key(idx));
                                assert(!before.clients.contains_key(idx));
                                assert(old(self)@.left_unestablished(self@, idx));
                            }
                        }
                        return;
                    }
                    proof {
                        assert forall|k: u64| !#[trigger] old(self)@.left_unestablished(self@, k) by {
                            assert(!old(self)@.left_unestablished(before, k));
                            if k == idx {
                                assert(outcome == AdmitOutcome::Admitted ==> self@.clients.contains_key(k));
                            }
                        }
                    }
                    budget = budget - 1;
                },
                None => {
                    budget = 0;
                },
            }
        }
        let ghost before_reset = self@;
        self.recv_index = 0;
        self.found_empty = Ghost(Set::empty());
        proof {
            assert forall|k: u64| !#[trigger] old(self)@.left_unestablished(self@, k) by {
                assert(!old(self)@.left_unestablished(before_reset, k));
            }
        }
    }

    /// Takes in a connection request. A request whose packet does not fit in
    /// `buffer` is refused and changes nothing; otherwise the connection
    /// becomes pending and its packet is written to the start of `buffer`,
    /// whose length is returned.
    pub fn accept_connection_request(&mut self, request: ConnectionRequest, buffer: &mut [u8]) -> (r:
        Option<usize>)
        ensures
            request.packet@.len() > old(buffer)@.len() ==> {
                &&& r is None
                &&& final(self)@ == (ServerView {
                    verdicts: old(self)@.verdicts.insert(request.client_idx, ConnectionRequestResult::Failure),
                    ..old(self)@
                })
                &&& final(buffer)@ == old(buffer)@
            },
            request.packet@.len() <= old(buffer)@.len() ==> {
                &&& r matches Some(n) && n == request.packet@.len()
                &&& final(self)@ == old(self)@.requested(request.client_idx)
                &&& final(buffer)@ == request.packet@ + old(buffer)@.subrange(
                    request.packet@.len() as int,
                    old(buffer)@.len() as int,
                )
            },
            old(self)@.wf() && !old(self)@.pending.contains_key(request.client_idx)
                && !old(self)@.clients.contains_key(request.client_idx) ==> final(self)@.wf(),
            forall|k: u64| #[trigger] final(self).inbox_taken(k) == old(self).inbox_taken(k),
    {
        let ConnectionRequest { client_idx, packet, result_sender } = request;
        if packet.len() > buffer.len() {
            let mut verdict_channel = Outbox::new(result_sender);
            self.tell(client_idx, &mut verdict_channel, ConnectionRequestResult::Failure);
            return None;
        }
        let ghost old_pending = self.pending_clients@;
        let pending_client = PendingClient::new(client_idx, result_sender);
        self.pending_clients.insert(client_idx, pending_client);
        count_up(&self.current_clients);
        self.client_count = Ghost(self.client_count@ + 1);
        proof {
            assert(self@.pending =~= old(self)@.pending.insert(client_idx, pending_client@));
            if old(self)@.wf() && !old(self)@.pending.contains_key(client_idx)
                && !old(self)@.clients.contains_key(client_idx) {
                assert(self@.pending.len() == old(self)@.pending.len() + 1);
            }
        }
        copy_into(buffer, packet.as_slice());
        Some(packet.len())
    }

    /// The indices of the established connections, in increasing order.
    fn client_indices(&self) -> (v: Vec<u64>)
        ensures
            forall|k: u64| self@.clients.contains_key(k) <==> v@.contains(k),
            forall|i: int, j: int| 0 <= i < j < v@.len() ==> v@[i] < v@[j],
    {
        let ghost keys = spec_keys_iter(&self.clients).remaining();
        let mut v: Vec<u64> = Vec::new();
        for k in it: self.clients.keys()
            invariant
                it.seq() == keys,
                v@.len() == it.index(),
                forall|j: int| 0 <= j < it.index() ==> v@[j] == *keys[j],
        {
            v.push(*k);
        }
        proof {
            assert(v@ =~= keys.unref());
            lemma_increasing_keys(keys);
            assert forall|k: u64| self@.clients.contains_key(k) <==> v@.contains(k) by {
                assert(keys.unref().to_set().contains(k) <==> keys.unref().contains(k));
            }
        }
        v
    }

    /// Takes the oldest packet waiting in established connection
    /// `client_idx`'s incoming channel, if any, and records it as taken.
    fn take_incoming(&mut self, client_idx: u64) -> (p: Option<Vec<u8>>)
        ensures
            match p {
                Some(q) => final(self)@ == (ServerView {
                    received: old(self)@.received.insert(client_idx, old(self)@.taken(client_idx).push(q@)),
                    ..old(self)@
                }),
                None => final(self)@ == old(self)@,
            },
            match p {
                Some(q) => final(self).inbox_taken(client_idx) == old(self).inbox_taken(client_idx).push(q@),
                None => final(self).inbox_taken(client_idx) == old(self).inbox_taken(client_idx),
            },
            forall|k: u64| k != client_idx ==> #[trigger] final(self).inbox_taken(k) == old(self).inbox_taken(k),
    {
        let ghost old_clients = self.clients@;
        let p: Option<Vec<u8>> = match self.clients.remove(&client_idx) {
            Some(mut client_data) => {
                let p = try_recv(&mut client_data.incoming_receiver);
                self.clients.insert(client_idx, client_data);
                proof {
                    assert(self.clients@ =~= old_clients.insert(client_idx, client_data));
                    assert(client_data@ == old_clients[client_idx]@);
                    assert(self@.clients =~= old(self)@.clients);
                    let before = old_clients[client_idx].incoming_receiver.taken();
                    if p is Some {
                        assert(before.push(p->0).map_values(|v: Vec<u8>| v@) =~= before.map_values(
                            |v: Vec<u8>| v@,
                        ).push(p->0@));
                    }
                }
                p
            },
            None => {
                assert(self.clients@ =~= old_clients);
                None
            },
        };
        match &p {
            Some(q) => {
                self.received = Ghost(self.received@.insert(client_idx, self@.taken(client_idx).push(q@)));
            },
            None => {},
        }
        p
    }

    /// Takes what established connection `client_idx` had waiting, if
    /// anything, for `try_recv`. Nothing waiting moves the receive position
    /// past the connection; a packet that does not fit in `buffer` marks the
    /// connection to be dropped; a packet that fits is written to the start of
    /// `buffer` and its length returned.
    pub fn receive_from_client(
        &mut self,
        client_idx: u64,
        packet: Option<Vec<u8>>,
        buffer: &mut [u8],
    ) -> (r: Option<usize>)
        requires
            client_idx < u64::MAX,
        ensures
            packet is None ==> {
                &&& r is None
                &&& final(self)@ == (ServerView {
                    recv_index: (client_idx + 1) as u64,
                    found_empty: old(self)@.found_empty.insert(client_idx),
                    polls: old(self)@.polls.push(client_idx),
                    ..old(self)@
                })
                &&& final(buffer)@ == old(buffer)@
            },
            packet matches Some(p) ==> (p@.len() > old(buffer)@.len() ==> {
                &&& r is None
                &&& final(self)@ == (ServerView {
                    lost: old(self)@.lost.insert(client_idx),
                    polls: old(self)@.polls.push(client_idx),
                    ..old(self)@
                })
                &&& final(buffer)@ == old(buffer)@
            }),
            packet matches Some(p) ==> (p@.len() <= old(buffer)@.len() ==> {
                &&& r matches Some(n) && n == p@.len()
                &&& final(self)@ == (ServerView { polls: old(self)@.polls.push(client_idx), ..old(self)@ })
                &&& final(buffer)@ == p@ + old(buffer)@.subrange(p@.len() as int, old(buffer)@.len() as int)
            }),
            old(self)@.wf() && old(self)@.recv_index <= client_idx ==> final(self)@.wf(),
            forall|k: u64| #[trigger] final(self).inbox_taken(k) == old(self).inbox_taken(k),
    {
        self.polls = Ghost(self.polls@.push(client_idx));
        match packet {
            Some(p) => {
                if p.len() > buffer.len() {
                    self.lost_clients.insert(client_idx);
                    None
                } else {
                    copy_into(buffer, p.as_slice());
                    Some(p.len())
                }
            },
            None => {
                self.recv_index = client_idx + 1;
                self.found_empty = Ghost(self.found_empty@.insert(client_idx));
                None
            },
        }
    }

    /// Asks the established connections from the receive position up to
    /// `end_index`, in order of index, for a packet (see
    /// [`Self::receive_from_client`]), and stops at the first packet that
    /// fits. Every connection asked before it was found empty, which moved
    /// the receive position past it, or marked to be dropped.
    pub fn scan_clients(&mut self, end_index: u64, buffer: &mut [u8]) -> (r: Result<(usize, u64), SocketError>)
        ensures
            old(self)@.scanned(final(self)@),
            final(self)@.verdicts == old(self)@.verdicts,
            old(self)@.wf() ==> final(self)@.wf(),
            forall|k: u64|
                #[trigger] final(self)@.found_empty.contains(k) && !old(self)@.found_empty.contains(k)
                    ==> old(self)@.recv_index <= k < end_index,
            r matches Ok((n, client_idx)) ==> {
                &&& old(self)@.clients.contains_key(client_idx)
                &&& old(self)@.recv_index <= client_idx < end_index
                &&& n <= old(buffer)@.len()
                &&& final(buffer)@.len() == old(buffer)@.len()
                &&& final(buffer)@.subrange(n as int, old(buffer)@.len() as int)
                    == old(buffer)@.subrange(n as int, old(buffer)@.len() as int)
                &&& forall|k: u64|
                    #[trigger] old(self)@.clients.contains_key(k) && old(self)@.recv_index <= k
                        < client_idx ==> final(self)@.found_empty.contains(k) || final(self)@.lost.contains(k)
                &&& old(self)@.asked_in_order(final(self)@, old(self)@.recv_index as int, client_idx + 1)
                &&& old(self)@.took_one(final(self)@, client_idx, final(buffer)@.subrange(0, n as int))
                &&& forall|k: u64|
                    k != client_idx ==> #[trigger] old(self)@.took_none_or_oversized(
                        final(self)@,
                        k,
                        old(buffer)@.len() as int,
                    )
                &&& final(self).inbox_taken(client_idx) == old(self).inbox_taken(client_idx).push(
                    final(buffer)@.subrange(0, n as int),
                )
                &&& forall|k: u64|
                    k != client_idx ==> #[trigger] same_or_one_oversized(
                        old(self).inbox_taken(k),
                        final(self).inbox_taken(k),
                        old(buffer)@.len() as int,
                        final(self)@.lost.contains(k),
                    )
            },
            r matches Err(e) ==> {
                &&& e == SocketError::WouldBlock
                &&& final(buffer)@ == old(buffer)@
                &&& forall|k: u64|
                    #[trigger] old(self)@.clients.contains_key(k) && old(self)@.recv_index <= k
                        < end_index ==> final(self)@.found_empty.contains(k) || final(self)@.lost.contains(k)
                &&& old(self)@.asked_in_order(final(self)@, old(self)@.recv_index as int, end_index as int)
                &&& forall|k: u64|
                    #[trigger] old(self)@.took_none_or_oversized(final(self)@, k, old(buffer)@.len() as int)
                &&& forall|k: u64|
                    #[trigger] same_or_one_oversized(
                        old(self).inbox_taken(k),
                        final(self).inbox_taken(k),
                        old(buffer)@.len() as int,
                        final(self)@.lost.contains(k),
                    )
            },
    {
        let start_index: u64 = self.recv_index;
        let keys = self.client_indices();
        let count: usize = keys.len();
        let mut pos: usize = 0;
        proof {
            assert(old(self)@.polls.subrange(0, old(self)@.polls.len() as int) =~= old(self)@.polls);
            assert(old(self)@.asked(self@) =~= Seq::<u64>::empty());
            assert(keys@.subrange(0, 0) =~= Seq::<u64>::empty());
        }
        while pos < count
            invariant
                count == keys@.len(),
                pos <= count,
                forall|k: u64| old(self)@.clients.contains_key(k) <==> keys@.contains(k),
                forall|i: int, j: int| 0 <= i < j < keys@.len() ==> keys@[i] < keys@[j],
                start_index == old(self)@.recv_index,
                old(self)@.scanned(self@),
                self@.verdicts == old(self)@.verdicts,
                old(self)@.wf() ==> self@.wf(),
                forall|k: u64|
                    #[trigger] self@.found_empty.contains(k) && !old(self)@.found_empty.contains(k)
                        ==> old(self)@.recv_index <= k < end_index,
                buffer@ == old(buffer)@,
                forall|j: int| pos <= j < count && start_index <= keys@[j] ==> self@.recv_index <= keys@[j],
                forall|j: int|
                    0 <= j < pos && start_index <= #[trigger] keys@[j] && keys@[j] < end_index
                        ==> self@.found_empty.contains(keys@[j]) || self@.lost.contains(keys@[j]),
                forall|a: int, b: int|
                    0 <= a < b < old(self)@.asked(self@).len() ==> old(self)@.asked(self@)[a]
                        < old(self)@.asked(self@)[b],
                forall|k: u64|
                    #[trigger] old(self)@.asked(self@).contains(k) <==> (keys@.subrange(0, pos as int).contains(k)
                        && start_index <= k < end_index),
                forall|a: int|
                    0 <= a < old(self)@.asked(self@).len() && pos < count ==> old(self)@.asked(self@)[a]
                        < keys@[pos as int],
                forall|k: u64|
                    !#[trigger] old(self)@.asked(self@).contains(k) ==> self@.taken(k) == old(self)@.taken(k),
                forall|k: u64|
                    #[trigger] old(self)@.took_none_or_oversized(self@, k, old(buffer)@.len() as int),
                forall|k: u64|
                    !#[trigger] old(self)@.asked(self@).contains(k) ==> self.inbox_taken(k) == old(self).inbox_taken(k),
                forall|k: u64|
                    #[trigger] same_or_one_oversized(
                        old(self).inbox_taken(k),
                        self.inbox_taken(k),
                        old(buffer)@.len() as int,
                        self@.lost.contains(k),
                    ),
            decreases count - pos,
        {
            let client_idx: u64 = keys[pos];
            if start_index <= client_idx && client_idx < end_index {
                let ghost before_take = self@;
                let ghost head = *self;
                let incoming: Option<Vec<u8>> = self.take_incoming(client_idx);
                let ghost inc = incoming;
                let ghost before = buffer@;
                let ghost prev = self@;
                assert(prev.polls == before_take.polls);
                assert(old(self)@.asked(prev) == old(self)@.asked(before_take));
                assert(keys@[pos as int] == client_idx);
                assert(keys@.contains(client_idx));
                assert(old(self)@.clients.contains_key(client_idx));
                let received = self.receive_from_client(client_idx, incoming, buffer);
                let ghost upto = keys@.subrange(0, pos + 1);
                proof {
                    assert(self@.polls == prev.polls.push(client_idx));
                    assert(old(self)@.asked(self@) =~= old(self)@.asked(prev).push(client_idx));
                    assert(self@.polls.subrange(0, old(self)@.polls.len() as int) =~= old(self)@.polls);
                    assert(upto =~= keys@.subrange(0, pos as int).push(client_idx));
                    let asked = old(self)@.asked(self@);
                    assert forall|a: int, b: int| 0 <= a < b < asked.len() implies asked[a] < asked[b] by {
                        if b == asked.len() - 1 {
                            assert(old(self)@.asked(prev)[a] < keys@[pos as int]);
                        } else {
                            assert(old(self)@.asked(prev)[a] < old(self)@.asked(prev)[b]);
                        }
                    }
                    assert forall|k: u64| #[trigger] asked.contains(k) <==> (upto.contains(k)
                        && start_index <= k < end_index) by {
                        let prefix = keys@.subrange(0, pos as int);
                        if k == client_idx {
                            assert(asked[asked.len() - 1] == k);
                            assert(upto[pos as int] == k);
                        }
                        if asked.contains(k) && k != client_idx {
                            let a: int = choose|a: int| 0 <= a < asked.len() && asked[a] == k;
                            assert(old(self)@.asked(prev)[a] == k);
                            assert(old(self)@.asked(prev).contains(k));
                            assert(prefix.contains(k));
                            let j: int = choose|j: int| 0 <= j < prefix.len() && prefix[j] == k;
                            assert(upto[j] == k);
                        }
                        if upto.contains(k) && start_index <= k < end_index && k != client_idx {
                            let j: int = choose|j: int| 0 <= j < pos + 1 && upto[j] == k;
                            assert(keys@.subrange(0, pos as int)[j] == k);
                            assert(old(self)@.asked(prev).contains(k));
                            let a: int = choose|a: int| 0 <= a < old(self)@.asked(prev).len() && old(self)@.asked(prev)[a] == k;
                            assert(asked[a] == k);
                        }
                    }
                    if pos + 1 < count {
                        assert forall|a: int| 0 <= a < asked.len() implies asked[a] < keys@[pos + 1] by {
                            assert(keys@[pos as int] < keys@[pos + 1]);
                            if a < asked.len() - 1 {
                                assert(old(self)@.asked(prev)[a] < keys@[pos as int]);
                            }
                        }
                    }
                    let earlier = old(self)@.asked(before_take);
                    if earlier.contains(client_idx) {
                        let a: int = choose|a: int| 0 <= a < earlier.len() && earlier[a] == client_idx;
                        assert(earlier[a] < keys@[pos as int]);
                    }
                    assert(before_take.taken(client_idx) == old(self)@.taken(client_idx));
                    assert(self@.received == prev.received);
                    assert forall|k: u64| k != client_idx implies #[trigger] self@.taken(k) == before_take.taken(k) by {
                        if inc is Some {
                            assert(prev.received.contains_key(k) == before_take.received.contains_key(k));
                        }
                    }
                    assert(before_take.lost.subset_of(self@.lost));
                    assert(asked[asked.len() - 1] == client_idx);
                    assert(asked.contains(client_idx));
                    assert(head.inbox_taken(client_idx) == old(self).inbox_taken(client_idx));
                    assert forall|k: u64| k != client_idx implies #[trigger] self.inbox_taken(k)
                        == head.inbox_taken(k) by {
                        assert(prev.received == self@.received);
                    }
                }
                match received {
                    Some(len) => {
                        assert(buffer@.subrange(len as int, buffer@.len() as int)
                            =~= before.subrange(len as int, before.len() as int));
                        proof {
                            let limit = old(buffer)@.len() as int;
                            let q = inc->0;
                            assert(buffer@.subrange(0, len as int) =~= q@);
                            assert(self@.taken(client_idx).drop_last() =~= old(self)@.taken(client_idx));
                            assert forall|k: u64| k != client_idx implies #[trigger] old(self)@.took_none_or_oversized(
                                self@,
                                k,
                                limit,
                            ) by {
                                assert(old(self)@.took_none_or_oversized(before_take, k, limit));
                                assert(self@.taken(k) == before_take.taken(k));
                            }
                            assert forall|k: u64| k != client_idx implies #[trigger] same_or_one_oversized(
                                old(self).inbox_taken(k),
                                self.inbox_taken(k),
                                limit,
                                self@.lost.contains(k),
                            ) by {
                                assert(same_or_one_oversized(
                                    old(self).inbox_taken(k),
                                    head.inbox_taken(k),
                                    limit,
                                    head@.lost.contains(k),
                                ));
                                assert(self.inbox_taken(k) == head.inbox_taken(k));
                            }
                            assert forall|k: u64|
                                #[trigger] old(self)@.clients.contains_key(k) && old(self)@.recv_index <= k
                                    < client_idx implies self@.found_empty.contains(k) || self@.lost.contains(k) by {
                                assert(keys@.contains(k));
                                let j: int = choose|j: int| 0 <= j < keys@.len() && keys@[j] == k;
                                if j >= pos {
                                    assert(keys@[j] >= keys@[pos as int]);
                                }
                            }
                            let asked = old(self)@.asked(self@);
                            assert forall|k: u64| #[trigger] asked.contains(k) <==> (old(self)@.clients.contains_key(k)
                                && old(self)@.recv_index <= k < client_idx + 1) by {
                                if old(self)@.clients.contains_key(k) && old(self)@.recv_index <= k <= client_idx {
                                    assert(keys@.contains(k));
                                    let j: int = choose|j: int| 0 <= j < keys@.len() && keys@[j] == k;
                                    if j > pos {
                                        assert(keys@[j] > keys@[pos as int]);
                                    }
                                    assert(upto[j] == k);
                                }
                                if asked.contains(k) {
                                    let j: int = choose|j: int| 0 <= j < pos + 1 && upto[j] == k;
                                    assert(keys@[j] == k);
                                    assert(keys@.contains(k));
                                    if j < pos {
                                        assert(keys@[j] < keys@[pos as int]);
                                    }
                                }
                            }
                        }
                        return Ok((len, client_idx));
                    },
                    None => {
                        proof {
                            let limit = old(buffer)@.len() as int;
                            let asked = old(self)@.asked(self@);
                            let earlier = old(self)@.asked(before_take);
                            assert forall|k: u64| !#[trigger] asked.contains(k) implies self@.taken(k)
                                == old(self)@.taken(k) by {
                                if earlier.contains(k) {
                                    let a: int = choose|a: int| 0 <= a < earlier.len() && earlier[a] == k;
                                    assert(asked[a] == k);
                                }
                                assert(self@.taken(k) == before_take.taken(k));
                            }
                            assert forall|k: u64| !#[trigger] asked.contains(k) implies self.inbox_taken(k)
                                == old(self).inbox_taken(k) by {
                                if earlier.contains(k) {
                                    let a: int = choose|a: int| 0 <= a < earlier.len() && earlier[a] == k;
                                    assert(asked[a] == k);
                                }
                                assert(self.inbox_taken(k) == head.inbox_taken(k));
                            }
                            assert forall|k: u64| #[trigger] same_or_one_oversized(
                                old(self).inbox_taken(k),
                                self.inbox_taken(k),
                                limit,
                                self@.lost.contains(k),
                            ) by {
                                assert(same_or_one_oversized(
                                    old(self).inbox_taken(k),
                                    head.inbox_taken(k),
                                    limit,
                                    head@.lost.contains(k),
                                ));
                                if k == client_idx {
                                    if inc is Some {
                                        assert(self.inbox_taken(k).drop_last() =~= old(self).inbox_taken(k));
                                        assert(self@.lost.contains(k));
                                    }
                                } else {
                                    assert(self.inbox_taken(k) == head.inbox_taken(k));
                                }
                            }
                            assert forall|k: u64| #[trigger] old(self)@.took_none_or_oversized(self@, k, limit) by {
                                assert(old(self)@.took_none_or_oversized(before_take, k, limit));
                                if k == client_idx {
                                    if inc is Some {
                                        assert(self@.taken(k).drop_last() =~= old(self)@.taken(k));
                                        assert(self@.lost.contains(k));
                                    }
                                } else {
                                    assert(self@.taken(k) == before_take.taken(k));
                                }
                            }
                        }
                    },
                }
            }
            else {
                let ghost upto = keys@.subrange(0, pos + 1);
                proof {
                    assert(upto =~= keys@.subrange(0, pos as int).push(client_idx));
                    let asked = old(self)@.asked(self@);
                    assert forall|k: u64| #[trigger] asked.contains(k) <==> (upto.contains(k)
                        && start_index <= k < end_index) by {
                        if upto.contains(k) && k != client_idx {
                            let j: int = choose|j: int| 0 <= j < pos + 1 && upto[j] == k;
                            assert(keys@.subrange(0, pos as int)[j] == k);
                        }
                    }
                    if pos + 1 < count {
                        assert(keys@[pos as int] < keys@[pos + 1]);
                    }
                }
            }
            pos = pos + 1;
        }
        proof {
            assert(keys@.subrange(0, count as int) =~= keys@);
            let asked = old(self)@.asked(self@);
            assert forall|k: u64| #[trigger] asked.contains(k) <==> (old(self)@.clients.contains_key(k)
                && old(self)@.recv_index <= k < end_index) by {
                assert(keys@.subrange(0, count as int).contains(k) == keys@.contains(k));
            }
            assert forall|k: u64|
                #[trigger] old(self)@.clients.contains_key(k) && old(self)@.recv_index <= k < end_index
                implies self@.found_empty.contains(k) || self@.lost.contains(k) by {
                assert(keys@.contains(k));
                let j: int = choose|j: int| 0 <= j < keys@.len() && keys@[j] == k;
            }
        }
        Err(SocketError::WouldBlock)
    }

    /// Receives the next packet into `buffer`, with its length and the
    /// index of the connection it came from. Connection requests that wait
    /// come first, taken until none waits (or, a machine limit, `usize::MAX`
    /// were taken) (see [`Self::accept_connection_request`]); then the
    /// established connections from the receive position up to the next
    /// index to be handed out are asked in order of index (see
    /// [`Self::scan_clients`]). With nothing to receive the answer is
    /// `WouldBlock`.
    pub fn try_recv(&mut self, buffer: &mut [u8]) -> (r: Result<(usize, u64), SocketError>)
        ensures
            r matches Ok((n, client_idx)) ==> {
                &&& n <= old(buffer)@.len()
                &&& final(buffer)@.len() == old(buffer)@.len()
                &&& final(buffer)@.subrange(n as int, old(buffer)@.len() as int)
                    == old(buffer)@.subrange(n as int, old(buffer)@.len() as int)
                &&& ({
                    &&& final(self)@ == (ServerView {
                        verdicts: final(self)@.verdicts,
                        ..old(self)@.requested(client_idx)
                    })
                    &&& old(self)@.refused_only(final(self)@)
                    &&& forall|k: u64| #[trigger] final(self).inbox_taken(k) == old(self).inbox_taken(k)
                } || {
                    &&& old(self)@.scanned(final(self)@)
                    &&& old(self)@.clients.contains_key(client_idx)
                    &&& old(self)@.recv_index <= client_idx
                    &&& (old(self)@.wf() ==> !old(self)@.found_empty.contains(client_idx))
                    &&& old(self)@.asked_in_order(final(self)@, old(self)@.recv_index as int, client_idx + 1)
                    &&& forall|k: u64|
                        #[trigger] old(self)@.clients.contains_key(k) && old(self)@.recv_index <= k
                            < client_idx ==> final(self)@.found_empty.contains(k) || final(self)@.lost.contains(k)
                    &&& old(self)@.took_one(final(self)@, client_idx, final(buffer)@.subrange(0, n as int))
                    &&& forall|k: u64|
                        k != client_idx ==> #[trigger] old(self)@.took_none_or_oversized(
                            final(self)@,
                            k,
                            old(buffer)@.len() as int,
                        )
                    &&& final(self).inbox_taken(client_idx) == old(self).inbox_taken(client_idx).push(
                        final(buffer)@.subrange(0, n as int),
                    )
                    &&& forall|k: u64|
                        k != client_idx ==> #[trigger] same_or_one_oversized(
                            old(self).inbox_taken(k),
                            final(self).inbox_taken(k),
                            old(buffer)@.len() as int,
                            final(self)@.lost.contains(k),
                        )
                })
            },
            r matches Err(e) ==> {
                &&& e == SocketError::WouldBlock
                &&& old(self)@.scanned(final(self)@)
                &&& final(buffer)@ == old(buffer)@
                &&& forall|k: u64|
                    #[trigger] old(self)@.took_none_or_oversized(final(self)@, k, old(buffer)@.len() as int)
                &&& forall|k: u64|
                    #[trigger] same_or_one_oversized(
                        old(self).inbox_taken(k),
                        final(self).inbox_taken(k),
                        old(buffer)@.len() as int,
                        final(self)@.lost.contains(k),
                    )
            },
            old(self)@.wf() ==> final(self)@.wf() || (r matches Ok((_, client_idx))
                && final(self)@.pending == old(self)@.requested(client_idx).pending
                && (old(self)@.pending.contains_key(client_idx)
                || old(self)@.clients.contains_key(client_idx))),
    {
        let mut budget: usize = usize::MAX;
        while budget > 0
            invariant
                self@ == (ServerView { verdicts: self@.verdicts, ..old(self)@ }),
                old(self)@.refused_only(self@),
                buffer@ == old(buffer)@,
                forall|k: u64| #[trigger] self.inbox_taken(k) == old(self).inbox_taken(k),
            decreases budget,
        {
            let ghost head = *self;
            let next_request = try_recv(&mut self.connection_req_receiver);
            assert(self.clients@ == head.clients@);
            assert(forall|k: u64| #[trigger] self.inbox_taken(k) == head.inbox_taken(k));
            match next_request {
                Some(request) => {
                    let client_idx: u64 = request.client_idx;
                    let ghost pkt = request.packet@;
                    let ghost before = buffer@;
                    let ghost before_view = self@;
                    match self.accept_connection_request(request, buffer) {
                        Some(len) => {
                            assert(len == pkt.len());
                            assert(buffer@ == pkt + before.subrange(len as int, before.len() as int));
                            assert(buffer@.len() == before.len());
                            assert(buffer@.subrange(len as int, buffer@.len() as int)
                                =~= old(buffer)@.subrange(len as int, old(buffer)@.len() as int));
                            assert(before_view.requested(client_idx) == (ServerView {
                                verdicts: before_view.verdicts,
                                ..old(self)@.requested(client_idx)
                            }));
                            return Ok((len, client_idx));
                        },
                        None => {},
                    }
                    budget = budget - 1;
                },
                None => {
                    budget = 0;
                },
            }
        }
        let end_index: u64 = next_client_index(&self.client_iterator);
        let ghost mid = self@;
        let ghost mid_server = *self;
        let r = self.scan_clients(end_index, buffer);
        proof {
            assert(mid.polls == old(self)@.polls);
            assert(mid.clients == old(self)@.clients);
            assert(mid.asked(self@) == old(self)@.asked(self@));
            assert(mid.received == old(self)@.received);
            assert(forall|k: u64| #[trigger] mid.taken(k) == old(self)@.taken(k));
            assert(forall|k: u64| #[trigger] mid_server.inbox_taken(k) == old(self).inbox_taken(k));
            let limit = old(buffer)@.len() as int;
            assert forall|k: u64| #[trigger] old(self)@.took_none_or_oversized(self@, k, limit)
                == mid.took_none_or_oversized(self@, k, limit) by {
                assert(mid.taken(k) == old(self)@.taken(k));
            }
            assert forall|k: u64| #[trigger] same_or_one_oversized(
                old(self).inbox_taken(k),
                self.inbox_taken(k),
                limit,
                self@.lost.contains(k),
            ) == same_or_one_oversized(mid_server.inbox_taken(k), self.inbox_taken(k), limit, self@.lost.contains(k)) by {
                assert(mid_server.inbox_taken(k) == old(self).inbox_taken(k));
            }
        }
        r
    }

    /// Drops connection `client_idx` (see [`ServerView::dropped_one`]): an
    /// established connection's reader task is told to stop, a pending
    /// connection is told that it failed.
    pub fn remove_client(&mut self, client_idx: u64)
        ensures
            final(self)@ == old(self)@.dropped_one(client_idx),
            old(self)@.wf() ==> final(self)@.wf(),
            forall|id: u64|
                #[trigger] old(self)@.client_id_to_idx.get(id) != Some(client_idx)
                    ==> final(self)@.client_id_to_idx.get(id) == old(self)@.client_id_to_idx.get(id),
            forall|k: u64|
                k != client_idx ==> #[trigger] final(self).reader_checks(k) == old(self).reader_checks(k)
                    && final(self).writer_checks(k) == old(self).writer_checks(k),
    {
        let ghost old_view = self@;
        let ghost old_clients = self.clients@;
        let ghost old_pending = self.pending_clients@;
        let removed_client_id: u64 = match self.clients.remove(&client_idx) {
            Some(client_data) => {
                self.stopped = Ghost(self.stopped@.insert(client_idx));
                send_signal(&client_data.reader_aborter);
                assert(self@.clients =~= old_view.clients.remove(client_idx));
                client_data.client_id
            },
            None => {
                assert(self.clients@ =~= old_clients);
                match self.pending_clients.remove(&client_idx) {
                    Some(mut pending_client) => {
                        self.tell(client_idx, &mut pending_client.result_sender, ConnectionRequestResult::Failure);
                        assert(self@.pending =~= old_view.pending.remove(client_idx));
                        match pending_client.client_id {
                            Some(id) => id,
                            None => u64::MAX,
                        }
                    },
                    None => {
                        assert(self.pending_clients@ =~= old_pending);
                        assert(self@ == old_view.dropped_one(client_idx));
                        return;
                    },
                }
            },
        };
        count_down(&self.current_clients);
        self.client_count = Ghost(self.client_count@ - 1);
        let still_named = match self.client_id_to_idx.get(&removed_client_id) {
            Some(idx) => *idx == client_idx,
            None => false,
        };
        if still_named {
            self.client_id_to_idx.remove(&removed_client_id);
        }
        proof {
            let expected = old_view.dropped_one(client_idx);
            assert(removed_client_id == old_view.dropped_id(client_idx));
            assert(self@.clients =~= expected.clients);
            assert(self@.pending =~= expected.pending);
            assert(self@.client_id_to_idx =~= expected.client_id_to_idx);
            if old_view.wf() {
                if old_view.clients.contains_key(client_idx) {
                    assert(self@.clients.len() == old_view.clients.len() - 1);
                } else {
                    assert(self@.pending.len() == old_view.pending.len() - 1);
                }
            }
        }
    }

    /// Drops every connection marked to be dropped, and clears the marks.
    /// The marks may be taken in any order: the outcome is that of dropping
    /// them all at once.
    pub fn remove_lost_clients(&mut self)
        ensures
            final(self)@ == (ServerView { lost: Set::empty(), ..old(self)@.dropped(old(self)@.lost) }),
            old(self)@.wf() ==> final(self)@.wf(),
            forall|id: u64|
                #[trigger] old(self)@.client_id_to_idx.contains_key(id) && !old(self)@.lost.contains(
                    old(self)@.client_id_to_idx[id],
                ) ==> final(self)@.client_id_to_idx.contains_key(id)
                    && final(self)@.client_id_to_idx[id] == old(self)@.client_id_to_idx[id],
            forall|k: u64|
                #[trigger] final(self)@.clients.contains_key(k) ==> final(self).reader_checks(k)
                    == old(self).reader_checks(k) && final(self).writer_checks(k) == old(self).writer_checks(k),
    {
        let mut lost: HashSet<u64> = HashSet::new();
        std::mem::swap(&mut lost, &mut self.lost_clients);
        let ghost start = self@;
        let ghost start_server = *self;
        proof {
            assert(start == (ServerView { lost: Set::empty(), ..old(self)@ }));
            assert(start.dropped(Set::empty()).clients =~= start.clients);
            assert(start.dropped(Set::empty()).pending =~= start.pending);
            assert(start.dropped(Set::empty()).client_id_to_idx =~= start.client_id_to_idx);
            assert(Set::<u64>::empty().filter(|k: u64| start.holds(k)) =~= Set::<u64>::empty());
            assert(start.dropped(Set::empty()).verdicts =~= start.verdicts);
            assert(start.dropped(Set::empty()).stopped =~= start.stopped);
            assert(start.dropped(Set::empty()) == start);
        }
        let ghost order: Seq<u64> = spec_hash_keys_iter(&lost).remaining().unref();
        proof {
            assert(order.take(0) =~= Seq::<u64>::empty());
            assert(order.take(0).to_set() =~= Set::<u64>::empty());
        }
        for client_idx in it: lost.iter()
            invariant
                order == it.seq().unref(),
                order.no_duplicates(),
                order.to_set() == lost@,
                self@ == start.dropped(order.take(it.index()).to_set()),
                self@.lost == Set::<u64>::empty(),
                start.wf() ==> self@.wf(),
                forall|k: u64|
                    #[trigger] self@.clients.contains_key(k) ==> self.reader_checks(k)
                        == start_server.reader_checks(k) && self.writer_checks(k) == start_server.writer_checks(k),
        {
            let ghost i = it.index();
            proof {
                assert(order[i] == *client_idx);
                assert(order.take(i + 1) =~= order.take(i).push(order[i]));
                order.take(i).lemma_push_to_set_commute(order[i]);
                assert(!order.take(i).to_set().contains(order[i])) by {
                    if order.take(i).to_set().contains(order[i]) {
                        let j: int = choose|j: int| 0 <= j < i && order.take(i)[j] == order[i];
                        assert(order[j] == order[i]);
                    }
                }
                vstd::seq_lib::seq_to_set_is_finite(order.take(i));
                lemma_dropped_insert(start, order.take(i).to_set(), order[i]);
            }
            self.remove_client(*client_idx);
        }
        proof {
            assert(order.take(order.len() as int) =~= order);
            let gone = old(self)@.lost;
            assert(self@ == start.dropped(gone));
            lemma_dropped_ignores_lost(start, old(self)@, gone);
            assert(start.dropped(gone) == (ServerView { lost: Set::empty(), ..old(self)@.dropped(gone) }));
        }
    }

    /// Marks established connection `client_idx` to be dropped when one of
    /// its tasks has `finished`.
    pub fn mark_if_finished(&mut self, client_idx: u64, finished: bool)
        ensures
            final(self)@ == (ServerView {
                lost: if finished && old(self)@.clients.contains_key(client_idx) {
                    old(self)@.lost.insert(client_idx)
                } else {
                    old(self)@.lost
                },
                ..old(self)@
            }),
            forall|k: u64|
                #[trigger] final(self).reader_checks(k) == old(self).reader_checks(k)
                    && final(self).writer_checks(k) == old(self).writer_checks(k),
    {
        if finished && self.clients.contains_key(&client_idx) {
            self.lost_clients.insert(client_idx);
        }
    }

    /// Marks to be dropped every established connection whose reader or
    /// writer task has ended, then drops every marked connection (see
    /// [`Self::remove_lost_clients`]). Every established connection that
    /// stays had both of its tasks checked and found running.
    pub fn postupdate(&mut self)
        ensures
            exists|marked: Set<u64>|
                {
                    &&& old(self)@.lost.subset_of(marked)
                    &&& forall|k: u64| #[trigger] marked.contains(k) && !old(self)@.lost.contains(k)
                        ==> old(self)@.clients.contains_key(k)
                    &&& final(self)@ == (ServerView {
                        lost: Set::empty(),
                        ..old(self)@.dropped(marked)
                    })
                    &&& forall|id: u64|
                        #[trigger] old(self)@.client_id_to_idx.contains_key(id) && !marked.contains(
                            old(self)@.client_id_to_idx[id],
                        ) ==> final(self)@.client_id_to_idx.contains_key(id)
                            && final(self)@.client_id_to_idx[id] == old(self)@.client_id_to_idx[id]
                },
            forall|k: u64|
                #[trigger] final(self)@.clients.contains_key(k) ==> final(self).reader_checks(k)
                    == old(self).reader_checks(k).push(false) && final(self).writer_checks(k)
                    == old(self).writer_checks(k).push(false),
            old(self)@.wf() ==> final(self)@.wf(),
    {
        let keys = self.client_indices();
        let count: usize = keys.len();
        let mut pos: usize = 0;
        while pos < count
            invariant
                count == keys@.len(),
                pos <= count,
                forall|k: u64| old(self)@.clients.contains_key(k) <==> keys@.contains(k),
                forall|i: int, j: int| 0 <= i < j < keys@.len() ==> keys@[i] < keys@[j],
                self@ == (ServerView { lost: self@.lost, ..old(self)@ }),
                old(self)@.lost.subset_of(self@.lost),
                forall|k: u64| #[trigger] self@.lost.contains(k) && !old(self)@.lost.contains(k)
                    ==> old(self)@.clients.contains_key(k),
                forall|j: int| 0 <= j < pos ==> old(self).checked_tasks(self, #[trigger] keys@[j]),
                forall|j: int|
                    pos <= j < count ==> #[trigger] self.reader_checks(keys@[j]) == old(self).reader_checks(
                        keys@[j],
                    ),
                forall|j: int|
                    pos <= j < count ==> #[trigger] self.writer_checks(keys@[j]) == old(self).writer_checks(
                        keys@[j],
                    ),
                forall|j: int|
                    pos <= j < count ==> (#[trigger] self@.lost.contains(keys@[j]) == old(self)@.lost.contains(
                        keys@[j],
                    )),
            decreases count - pos,
        {
            let client_idx: u64 = keys[pos];
            let ghost head = *self;
            let ghost old_clients = self.clients@;
            proof {
                assert(keys@[pos as int] == client_idx);
                assert(keys@.contains(client_idx));
                assert(old(self)@.clients.contains_key(client_idx));
                assert(head.reader_checks(client_idx) == old(self).reader_checks(client_idx));
                assert(head.writer_checks(client_idx) == old(self).writer_checks(client_idx));
            }
            let removed = self.clients.remove(&client_idx);
            match removed {
                Some(mut client_data) => {
                    let reader_done = task_finished(&mut client_data.reader_handle);
                    let writer_done = task_finished(&mut client_data.writer_handle);
                    self.clients.insert(client_idx, client_data);
                    proof {
                        assert(self.clients@ =~= old_clients.insert(client_idx, client_data));
                        assert(client_data@ == old_clients[client_idx]@);
                        assert(self@.clients =~= head@.clients);
                        assert(self.reader_checks(client_idx) == head.reader_checks(client_idx).push(reader_done));
                        assert(self.writer_checks(client_idx) == head.writer_checks(client_idx).push(writer_done));
                        assert forall|k: u64| k != client_idx implies #[trigger] self.reader_checks(k)
                            == head.reader_checks(k) && self.writer_checks(k) == head.writer_checks(k) by {
                            assert(self.clients@.contains_key(k) == head.clients@.contains_key(k));
                        }
                    }
                    let ghost before_mark = *self;
                    self.mark_if_finished(client_idx, reader_done || writer_done);
                    proof {
                        assert forall|k: u64| k != client_idx implies #[trigger] self.reader_checks(k)
                            == head.reader_checks(k) && self.writer_checks(k) == head.writer_checks(k)
                            && (self@.lost.contains(k) == head@.lost.contains(k)) by {
                            assert(self.reader_checks(k) == before_mark.reader_checks(k));
                            assert(before_mark.reader_checks(k) == head.reader_checks(k));
                            assert(before_mark@.lost == head@.lost);
                        }
                        assert(head@.lost.contains(client_idx) == old(self)@.lost.contains(client_idx));
                        assert(self.reader_checks(client_idx).drop_last() =~= old(self).reader_checks(client_idx));
                        assert(self.writer_checks(client_idx).drop_last() =~= old(self).writer_checks(client_idx));
                        assert(old(self).checked_tasks(self, client_idx));
                        assert forall|j: int| 0 <= j < pos + 1 implies old(self).checked_tasks(self, #[trigger] keys@[j]) by {
                            if j < pos {
                                assert(keys@[j] < keys@[pos as int]);
                                assert(old(self).checked_tasks(&head, keys@[j]));
                                assert(self.reader_checks(keys@[j]) == head.reader_checks(keys@[j]));
                                assert(self.writer_checks(keys@[j]) == head.writer_checks(keys@[j]));
                            }
                        }
                        assert forall|j: int| pos + 1 <= j < count implies #[trigger] self.reader_checks(keys@[j])
                            == old(self).reader_checks(keys@[j]) && self.writer_checks(keys@[j]) == old(self).writer_checks(
                            keys@[j],
                        ) && (self@.lost.contains(keys@[j]) == old(self)@.lost.contains(keys@[j])) by {
                            assert(keys@[pos as int] < keys@[j]);
                            assert(head.reader_checks(keys@[j]) == old(self).reader_checks(keys@[j]));
                            assert(head.writer_checks(keys@[j]) == old(self).writer_checks(keys@[j]));
                            assert(head@.lost.contains(keys@[j]) == old(self)@.lost.contains(keys@[j]));
                            assert(self.reader_checks(keys@[j]) == head.reader_checks(keys@[j]));
                            assert(self.writer_checks(keys@[j]) == head.writer_checks(keys@[j]));
                            assert(self@.lost.contains(keys@[j]) == head@.lost.contains(keys@[j]));
                        }
                        assert forall|j: int| pos + 1 <= j < count implies #[trigger] self.writer_checks(keys@[j])
                            == old(self).writer_checks(keys@[j]) by {
                            assert(self.reader_checks(keys@[j]) == old(self).reader_checks(keys@[j]));
                        }
                    }
                },
                None => {
                    assert(self.clients@ =~= old_clients);
                    assert(false);
                },
            }
            pos = pos + 1;
        }
        let ghost marked = self@.lost;
        let ghost mid = self@;
        let ghost mid_server = *self;
        self.remove_lost_clients();
        proof {
            lemma_dropped_ignores_lost(mid, old(self)@, marked);
            assert(old(self)@.wf() ==> mid.wf());
            assert forall|k: u64| #[trigger] self@.clients.contains_key(k) implies self.reader_checks(k)
                == old(self).reader_checks(k).push(false) && self.writer_checks(k)
                == old(self).writer_checks(k).push(false) by {
                assert(old(self)@.clients.contains_key(k));
                assert(!marked.contains(k));
                assert(keys@.contains(k));
                let j: int = choose|j: int| 0 <= j < keys@.len() && keys@[j] == k;
                assert(old(self).checked_tasks(&mid_server, keys@[j]));
                assert(mid_server.reader_checks(k) =~= old(self).reader_checks(k).push(false));
                assert(mid_server.writer_checks(k) =~= old(self).writer_checks(k).push(false));
            }
        }
    }

    /// The connection is to be dropped.
    pub fn disconnect(&mut self, client_idx: u64)
        ensures
            final(self)@ == (ServerView { lost: old(self)@.lost.insert(client_idx), ..old(self)@ }),
            old(self)@.wf() ==> final(self)@.wf(),
    {
        self.lost_clients.insert(client_idx);
    }
}

} // verus!
