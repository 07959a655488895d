//! Run conditions over the state of the networking client.
//!
//! Each condition takes the client's connection status, or `None` when no
//! client exists, and answers whether a system gated on it should run.
use vstd::prelude::*;

verus! {

/// The connection status of a networking client.
#[derive(Clone, Copy, Debug, PartialEq, Eq, Structural)]
pub enum ClientStatus {
    /// The client is establishing a connection.
    Connecting,
    /// The client is connected to a server.
    Connected,
    /// The client is not connected.
    Disconnected,
}

/// Whether the status, where a client exists, is `Connected`.
pub open spec fn spec_connected(client: Option<ClientStatus>) -> bool {
    client == Some(ClientStatus::Connected)
}

/// Whether there is no client, or its status is `Disconnected`.
pub open spec fn spec_disconnected(client: Option<ClientStatus>) -> bool {
    match client {
        Some(status) => status == ClientStatus::Disconnected,
        None => true,
    }
}

/// True if a client exists and is connected.
pub fn client_connected(client: Option<ClientStatus>) -> (r: bool)
    ensures
        r == spec_connected(client),
{
    match client {
        Some(status) => matches!(status, ClientStatus::Connected),
        None => false,
    }
}

/// True if there is no client, or the client is disconnected.
pub fn client_disconnected(client: Option<ClientStatus>) -> (r: bool)
    ensures
        r == spec_disconnected(client),
{
    match client {
        Some(status) => matches!(status, ClientStatus::Disconnected),
        None => true,
    }
}

/// True if a client exists and is connecting.
pub fn client_connecting(client: Option<ClientStatus>) -> (r: bool)
    ensures
        r == (client == Some(ClientStatus::Connecting)),
{
    match client {
        Some(status) => matches!(status, ClientStatus::Connecting),
        None => false,
    }
}

/// True exactly when the client is connected now and was not at the previous
/// call; `last_connected` is the condition's own memory between calls.
pub fn client_just_connected(last_connected: &mut bool, client: Option<ClientStatus>) -> (r: bool)
    ensures
        r == (!*old(last_connected) && spec_connected(client)),
        *final(last_connected) == spec_connected(client),
{
    let connected = client_connected(client);
    let just_connected = !*last_connected && connected;
    *last_connected = connected;
    just_connected
}

/// True exactly when the client is disconnected (or gone) now and was
/// connected at the previous call; `last_connected` is the condition's own
/// memory between calls.
pub fn client_just_disconnected(last_connected: &mut bool, client: Option<ClientStatus>) -> (r: bool)
    ensures
        r == (*old(last_connected) && spec_disconnected(client)),
        *final(last_connected) == !spec_disconnected(client),
{
    let disconnected = client_disconnected(client);
    let just_disconnected = *last_connected && disconnected;
    *last_connected = !disconnected;
    just_disconnected
}

/// The condition built by [`client_should_update`]: it remembers whether the
/// client was seen connected, for its `client_just_disconnected` part.
pub struct ClientShouldUpdate {
    last_connected: bool,
}

impl ClientShouldUpdate {
    /// What the condition remembers between runs.
    pub closed spec fn remembered_connected(&self) -> bool {
        self.last_connected
    }

    /// Runs the condition: `(client_just_disconnected || !client_disconnected)
    /// && a client exists`. The first part always runs and updates the memory;
    /// the later parts only read the status.
    pub fn run(&mut self, client: Option<ClientStatus>) -> (r: bool)
        ensures
            (r, final(self).remembered_connected()) == should_update_step(
                old(self).remembered_connected(),
                client,
            ),
    {
        let just_disconnected = client_just_disconnected(&mut self.last_connected, client);
        let keep_going = if just_disconnected {
            true
        } else {
            !client_disconnected(client)
        };
        keep_going && client.is_some()
    }
}

/// One run of [`ClientShouldUpdate`] from memory `remembered` on status
/// `client`: what it answers, and what it remembers after.
pub open spec fn should_update_step(remembered: bool, client: Option<ClientStatus>) -> (bool, bool) {
    (
        (remembered && spec_disconnected(client) || !spec_disconnected(client)) && client is Some,
        !spec_disconnected(client),
    )
}

/// What a sequence of runs answers, starting from memory `remembered`.
pub open spec fn should_update_answers(remembered: bool, runs: Seq<Option<ClientStatus>>) -> Seq<
    bool,
>
    decreases runs.len(),
{
    if runs.len() == 0 {
        Seq::empty()
    } else {
        let (answer, next) = should_update_step(remembered, runs[0]);
        seq![answer] + should_update_answers(next, runs.subrange(1, runs.len() as int))
    }
}

proof fn lemma_should_update_answers_from(remembered: bool, runs: Seq<Option<ClientStatus>>)
    ensures
        should_update_answers(remembered, runs).len() == runs.len(),
        forall|k: int|
            0 <= k < runs.len() ==> #[trigger] should_update_answers(remembered, runs)[k] == (
            runs[k] is Some && (!spec_disconnected(runs[k]) || if k == 0 {
                remembered
            } else {
                !spec_disconnected(runs[k - 1])
            })),
    decreases runs.len(),
{
    if runs.len() > 0 {
        let rest = runs.subrange(1, runs.len() as int);
        let next = !spec_disconnected(runs[0]);
        lemma_should_update_answers_from(next, rest);
        assert forall|k: int| 0 <= k < runs.len() implies #[trigger] should_update_answers(
            remembered,
            runs,
        )[k] == (runs[k] is Some && (!spec_disconnected(runs[k]) || if k == 0 {
            remembered
        } else {
            !spec_disconnected(runs[k - 1])
        })) by {
            if k > 0 {
                assert(should_update_answers(remembered, runs)[k] == should_update_answers(next, rest)[k - 1]);
                assert(rest[k - 1] == runs[k]);
                if k > 1 {
                    assert(rest[k - 2] == runs[k - 1]);
                }
            }
        }
    }
}

/// Over any sequence of runs of the condition that [`client_should_update`]
/// builds, the answer at each run is: a client exists, and it is not
/// disconnected or it was not disconnected at the run before. So client
/// systems run while connecting or connected, once more at the run where
/// the client becomes disconnected, and not again while it stays so.
pub proof fn lemma_should_update_runs(runs: Seq<Option<ClientStatus>>)
    ensures
        should_update_answers(false, runs).len() == runs.len(),
        forall|k: int|
            0 <= k < runs.len() ==> #[trigger] should_update_answers(false, runs)[k] == (
            runs[k] is Some && (!spec_disconnected(runs[k]) || (k > 0 && !spec_disconnected(
                runs[k - 1],
            )))),
{
    lemma_should_update_answers_from(false, runs);
}

/// Builds the condition that gates client updates: it holds while the client
/// exists and is not disconnected, and once more on the run at which it
/// became disconnected.
pub fn client_should_update() -> (c: ClientShouldUpdate)
    ensures
        !c.remembered_connected(),
{
    ClientShouldUpdate { last_connected: false }
}

} // verus!
