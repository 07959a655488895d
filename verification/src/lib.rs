//! Connection bookkeeping for a WebSocket game server socket, the decisions
//! of its per-connection reader tasks, and the client run conditions that
//! decide when networking systems should run.

pub mod channels;
pub mod connection_req;
pub mod reader;
pub mod run_conditions;
pub mod server;

pub use channels::TrySendFailure;
pub use connection_req::{extract_client_connection_req, ConnectionReqError};
pub use reader::{reader_action, reader_after_forward, ForwardOutcome, ReaderAction, ReaderEvent, ReaderFlow};
pub use run_conditions::{
    client_connected, client_connecting, client_disconnected, client_just_connected,
    client_just_disconnected, client_should_update, ClientShouldUpdate, ClientStatus,
};
pub use server::{
    admitted_client_id, outgoing_send_result, server_is_full, websocket_scheme, AdmitOutcome, ConnectionRequest,
    ConnectionRequestResult, PendingClient, SocketError, WebSocketAcceptor, WebSocketServer,
    WebSocketServerClient, WebSocketServerConfig,
};
