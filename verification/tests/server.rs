use std::sync::atomic::{AtomicU64, AtomicUsize, Ordering};
use std::sync::Arc;

use renet2_netcode::{
    admitted_client_id, outgoing_send_result, server_is_full, websocket_scheme, AdmitOutcome, ConnectionRequest,
    ConnectionRequestResult, PendingClient, SocketError, TrySendFailure, WebSocketAcceptor,
    WebSocketServer, WebSocketServerClient, WebSocketServerConfig,
};

type Acceptor = WebSocketAcceptor<(), ()>;

struct Harness {
    rt: tokio::runtime::Runtime,
    server: WebSocketServer,
    req_tx: crossbeam::channel::Sender<ConnectionRequest>,
    conn_tx: crossbeam::channel::Sender<WebSocketServerClient>,
    iterator: Arc<AtomicU64>,
    count: Arc<AtomicUsize>,
}

fn harness(acceptor: Acceptor) -> Harness {
    let rt = tokio::runtime::Builder::new_current_thread().enable_all().build().unwrap();
    let accept_task = rt.spawn(std::future::pending::<()>());
    let (req_tx, req_rx) = crossbeam::channel::bounded(16);
    let (conn_tx, conn_rx) = crossbeam::channel::bounded(16);
    let iterator = Arc::new(AtomicU64::new(0));
    let count = Arc::new(AtomicUsize::new(0));
    let server = WebSocketServer::new(
        &acceptor,
        accept_task.abort_handle(),
        req_rx,
        conn_rx,
        iterator.clone(),
        count.clone(),
    );
    Harness { rt, server, req_tx, conn_tx, iterator, count }
}

struct ClientEnds {
    incoming_tx: crossbeam::channel::Sender<Vec<u8>>,
    outgoing_rx: tokio::sync::mpsc::Receiver<Vec<u8>>,
    abort_rx: tokio::sync::mpsc::UnboundedReceiver<()>,
}

fn client(h: &Harness, client_id: u64, client_idx: u64) -> (WebSocketServerClient, ClientEnds) {
    let (incoming_tx, incoming_rx) = crossbeam::channel::bounded(16);
    let (outgoing_tx, outgoing_rx) = tokio::sync::mpsc::channel(16);
    let (abort_tx, abort_rx) = tokio::sync::mpsc::unbounded_channel();
    let reader = h.rt.spawn(std::future::pending::<()>());
    let writer = h.rt.spawn(std::future::pending::<()>());
    let c = WebSocketServerClient::new(
        client_id, client_idx, incoming_rx, outgoing_tx, reader, writer, abort_tx,
    );
    (c, ClientEnds { incoming_tx, outgoing_rx, abort_rx })
}

/// Hands the server a connection request and lets it take it in.
fn request(
    h: &mut Harness,
    packet: Vec<u8>,
) -> (u64, tokio::sync::mpsc::Receiver<ConnectionRequestResult>, Result<(usize, u64), SocketError>, [u8; 8]) {
    let client_idx = h.iterator.fetch_add(1, Ordering::Relaxed);
    let (tx, rx) = tokio::sync::mpsc::channel(1);
    h.req_tx.send(ConnectionRequest { client_idx, packet, result_sender: tx }).unwrap();
    let mut buffer = [0xEEu8; 8];
    let r = h.server.try_recv(&mut buffer);
    (client_idx, rx, r, buffer)
}

#[test]
fn full_server_allows_a_quarter_more() {
    assert!(!server_is_full(0, 4));
    assert!(!server_is_full(4, 4));
    assert!(server_is_full(5, 4));
    assert!(!server_is_full(12, 10));
    assert!(server_is_full(13, 10));
    assert!(server_is_full(0, 0));
}

#[test]
fn schemes() {
    assert_eq!(websocket_scheme(true), "wss");
    assert_eq!(websocket_scheme(false), "ws");
}

#[test]
fn tls_unless_plain_without_proxy() {
    assert!(!Acceptor::Plain { has_tls_proxy: false }.has_tls());
    assert!(Acceptor::Plain { has_tls_proxy: true }.has_tls());
    assert!(Acceptor::NativeTls(()).has_tls());
    assert!(Acceptor::Rustls(()).has_tls());
    let config: WebSocketServerConfig<&str, (), ()> = WebSocketServerConfig::new("127.0.0.1:0", 7);
    assert!(matches!(config.acceptor, Acceptor::Plain { has_tls_proxy: false }));
    assert_eq!(config.listen, "127.0.0.1:0");
    assert_eq!(config.max_clients, 7);
}

#[test]
fn writer_send_outcomes() {
    assert_eq!(outgoing_send_result(Ok(())), Ok(()));
    assert_eq!(outgoing_send_result(Err(TrySendFailure::Full)), Ok(()));
    assert_eq!(outgoing_send_result(Err(TrySendFailure::Closed)), Err(SocketError::ConnectionAborted));
}

#[test]
fn pending_client_keeps_its_first_packet() {
    let (tx, _rx) = tokio::sync::mpsc::channel(1);
    let mut p = PendingClient::new(3, tx);
    assert_eq!(p.buffered_response(), None);
    p.set_buffer(&[1, 2]);
    assert_eq!(p.buffered_response(), Some(&[1u8, 2][..]));
    p.set_buffer(&[9]);
    assert_eq!(p.buffered_response(), Some(&[1u8, 2][..]));
}

#[test]
fn only_success_admits() {
    assert_eq!(admitted_client_id(Some(ConnectionRequestResult::Success { client_id: 9 })), Some(9));
    assert_eq!(admitted_client_id(Some(ConnectionRequestResult::Failure)), None);
    assert_eq!(admitted_client_id(None), None);
}

/// Brings an established connection `idx` with client id `id` into the server.
fn established(h: &mut Harness, id: u64) -> (u64, ClientEnds) {
    let (idx, _rx, _, _) = request(h, vec![1]);
    h.server.connection_accepted(id, idx);
    let (c, ends) = client(h, id, idx);
    h.conn_tx.send(c).unwrap();
    h.server.preupdate();
    (idx, ends)
}

#[test]
fn receive_step_decides_per_packet() {
    let mut h = harness(Acceptor::Plain { has_tls_proxy: false });
    let (idx, mut ends) = established(&mut h, 1);
    let mut buffer = [7u8; 3];
    // Nothing waiting: the receive position moves past the connection.
    assert_eq!(h.server.receive_from_client(idx, None, &mut buffer), None);
    assert_eq!(buffer, [7, 7, 7]);
    ends.incoming_tx.send(vec![5]).unwrap();
    assert_eq!(h.server.try_recv(&mut buffer), Err(SocketError::WouldBlock));
    // A packet that fits is written to the start of the buffer.
    assert_eq!(h.server.receive_from_client(idx, Some(vec![1, 2]), &mut buffer), Some(2));
    assert_eq!(buffer, [1, 2, 7]);
    // A packet too large marks the connection to be dropped.
    assert_eq!(h.server.receive_from_client(idx, Some(vec![0; 4]), &mut buffer), None);
    assert_eq!(buffer, [1, 2, 7]);
    h.server.postupdate();
    assert!(ends.abort_rx.try_recv().is_ok());
    assert_eq!(h.count.load(Ordering::Relaxed), 0);
}

#[test]
fn scan_stops_at_end_index() {
    let mut h = harness(Acceptor::Plain { has_tls_proxy: false });
    let (a, ends_a) = established(&mut h, 1);
    let (b, ends_b) = established(&mut h, 2);
    ends_a.incoming_tx.send(vec![1]).unwrap();
    ends_b.incoming_tx.send(vec![2]).unwrap();
    let mut buffer = [0u8; 2];
    // Only connections below `a + 1` are asked: `b` is not.
    assert_eq!(h.server.scan_clients(a + 1, &mut buffer), Ok((1, a)));
    assert_eq!(h.server.scan_clients(a + 1, &mut buffer), Err(SocketError::WouldBlock));
    assert_eq!(h.server.scan_clients(b + 1, &mut buffer), Ok((1, b)));
}

#[test]
fn finished_mark_only_for_established_connections() {
    let mut h = harness(Acceptor::Plain { has_tls_proxy: false });
    let (a, mut ends_a) = established(&mut h, 1);
    let (p, mut rp, _, _) = request(&mut h, vec![1]);
    h.server.mark_if_finished(p, true);
    h.server.mark_if_finished(a, false);
    h.server.postupdate();
    assert_eq!(h.count.load(Ordering::Relaxed), 2);
    assert!(rp.try_recv().is_err());
    assert!(ends_a.abort_rx.try_recv().is_err());
    h.server.mark_if_finished(a, true);
    h.server.postupdate();
    assert!(ends_a.abort_rx.try_recv().is_ok());
    assert_eq!(h.count.load(Ordering::Relaxed), 1);
    let _ = p;
}

#[test]
fn new_server_reports_its_settings() {
    let h = harness(Acceptor::Plain { has_tls_proxy: true });
    assert!(h.server.is_encrypted());
    assert!(h.server.is_reliable());
    assert!(!h.server.is_closed());
    let h = harness(Acceptor::Plain { has_tls_proxy: false });
    assert!(!h.server.is_encrypted());
}

#[test]
fn close_marks_the_server_closed() {
    let mut h = harness(Acceptor::Plain { has_tls_proxy: false });
    h.server.close();
    assert!(h.server.is_closed());
}

#[test]
fn nothing_to_receive_would_block() {
    let mut h = harness(Acceptor::Plain { has_tls_proxy: false });
    let mut buffer = [0u8; 4];
    assert_eq!(h.server.try_recv(&mut buffer), Err(SocketError::WouldBlock));
    assert_eq!(buffer, [0u8; 4]);
}

#[test]
fn connection_request_is_received_and_counted() {
    let mut h = harness(Acceptor::Plain { has_tls_proxy: false });
    let (idx, _rx, r, buffer) = request(&mut h, vec![1, 2, 3]);
    assert_eq!(r, Ok((3, idx)));
    assert_eq!(buffer, [1, 2, 3, 0xEE, 0xEE, 0xEE, 0xEE, 0xEE]);
    assert_eq!(h.count.load(Ordering::Relaxed), 1);
    // The connection is pending: a send to it is buffered and succeeds.
    assert_eq!(h.server.send(idx, &[7]), Ok(()));
}

#[test]
fn oversized_request_is_refused() {
    let mut h = harness(Acceptor::Plain { has_tls_proxy: false });
    let (idx, mut rx, r, buffer) = request(&mut h, vec![5; 9]);
    assert_eq!(r, Err(SocketError::WouldBlock));
    assert_eq!(buffer, [0xEE; 8]);
    assert!(matches!(rx.try_recv(), Ok(ConnectionRequestResult::Failure)));
    assert_eq!(h.count.load(Ordering::Relaxed), 0);
    assert_eq!(h.server.send(idx, &[1]), Err(SocketError::ConnectionAborted));
}

#[test]
fn send_to_unknown_connection_is_aborted() {
    let mut h = harness(Acceptor::Plain { has_tls_proxy: false });
    assert_eq!(h.server.send(42, &[1, 2]), Err(SocketError::ConnectionAborted));
}

#[test]
fn accepted_connection_is_told_and_established() {
    let mut h = harness(Acceptor::Plain { has_tls_proxy: false });
    let (idx, mut rx, r, _) = request(&mut h, vec![1]);
    assert_eq!(r, Ok((1, idx)));
    h.server.connection_accepted(77, idx);
    assert!(matches!(rx.try_recv(), Ok(ConnectionRequestResult::Success { client_id: 77 })));
    assert_eq!(h.server.send(idx, &[4, 5]), Ok(()));
    assert_eq!(h.server.send(idx, &[6]), Ok(()));

    let (c, mut ends) = client(&h, 77, idx);
    assert_eq!(h.server.admit_connection(c), AdmitOutcome::Admitted);
    // The first packet sent while pending is forwarded, the later one was dropped.
    assert_eq!(ends.outgoing_rx.try_recv().unwrap(), vec![4, 5]);
    assert!(ends.outgoing_rx.try_recv().is_err());
    assert_eq!(h.count.load(Ordering::Relaxed), 1);

    // Packets now go to the writer channel.
    assert_eq!(h.server.send(idx, &[8]), Ok(()));
    assert_eq!(ends.outgoing_rx.try_recv().unwrap(), vec![8]);

    // Packets from the reader channel are received.
    ends.incoming_tx.send(vec![9, 9]).unwrap();
    let mut buffer = [0u8; 4];
    assert_eq!(h.server.try_recv(&mut buffer), Ok((2, idx)));
    assert_eq!(buffer, [9, 9, 0, 0]);
    assert!(ends.abort_rx.try_recv().is_err());
}

#[test]
fn buffered_packet_is_forwarded_on_admission() {
    let mut h = harness(Acceptor::Plain { has_tls_proxy: false });
    let (idx, _rx, _, _) = request(&mut h, vec![1]);
    h.server.connection_accepted(5, idx);
    assert_eq!(h.server.send(idx, &[1, 2]), Ok(()));
    assert_eq!(h.server.send(idx, &[9]), Ok(()));
    let (c, mut ends) = client(&h, 5, idx);
    h.conn_tx.send(c).unwrap();
    h.server.preupdate();
    assert_eq!(ends.outgoing_rx.try_recv().unwrap(), vec![1, 2]);
}

#[test]
fn connection_that_is_not_pending_is_discarded() {
    let mut h = harness(Acceptor::Plain { has_tls_proxy: false });
    let (c, _ends) = client(&h, 1, 12);
    assert_eq!(h.server.admit_connection(c), AdmitOutcome::NotPending);
    assert_eq!(h.server.send(12, &[1]), Err(SocketError::ConnectionAborted));
}

#[test]
fn accepted_for_unknown_connection_is_ignored() {
    let mut h = harness(Acceptor::Plain { has_tls_proxy: false });
    h.server.connection_accepted(3, 99);
    assert_eq!(h.server.send(99, &[1]), Err(SocketError::ConnectionAborted));
}

#[test]
fn usurped_client_id_drops_the_old_connection() {
    let mut h = harness(Acceptor::Plain { has_tls_proxy: false });
    let (first, mut first_rx, _, _) = request(&mut h, vec![1]);
    h.server.connection_accepted(50, first);
    let (second, _second_rx, _, _) = request(&mut h, vec![2]);
    h.server.connection_accepted(50, second);
    assert_eq!(h.count.load(Ordering::Relaxed), 2);
    assert!(matches!(first_rx.try_recv(), Ok(ConnectionRequestResult::Success { client_id: 50 })));

    // The first connection arrives established, but its id was taken.
    let (c, _ends) = client(&h, 50, first);
    assert_eq!(h.server.admit_connection(c), AdmitOutcome::SlotTaken);
    assert_eq!(h.count.load(Ordering::Relaxed), 1);

    // The second one holds the id and is established.
    let (c2, _ends2) = client(&h, 50, second);
    assert_eq!(h.server.admit_connection(c2), AdmitOutcome::Admitted);
    assert_eq!(h.count.load(Ordering::Relaxed), 1);
}

#[test]
fn usurped_pending_connection_is_dropped_at_postupdate() {
    let mut h = harness(Acceptor::Plain { has_tls_proxy: false });
    let (first, mut first_rx, _, _) = request(&mut h, vec![1]);
    h.server.connection_accepted(50, first);
    let (second, _second_rx, _, _) = request(&mut h, vec![2]);
    h.server.connection_accepted(50, second);
    assert!(matches!(first_rx.try_recv(), Ok(ConnectionRequestResult::Success { client_id: 50 })));
    h.server.postupdate();
    assert!(matches!(first_rx.try_recv(), Ok(ConnectionRequestResult::Failure)));
    assert_eq!(h.count.load(Ordering::Relaxed), 1);
    assert_eq!(h.server.send(first, &[1]), Err(SocketError::ConnectionAborted));
    assert_eq!(h.server.send(second, &[1]), Ok(()));
}

#[test]
fn slot_taken_stops_preupdate_early() {
    let mut h = harness(Acceptor::Plain { has_tls_proxy: false });
    let (first, _r1, _, _) = request(&mut h, vec![1]);
    h.server.connection_accepted(8, first);
    let (second, _r2, _, _) = request(&mut h, vec![2]);
    h.server.connection_accepted(8, second);
    let (c1, _e1) = client(&h, 8, first);
    let (c2, mut e2) = client(&h, 8, second);
    h.conn_tx.send(c1).unwrap();
    h.conn_tx.send(c2).unwrap();
    h.server.preupdate();
    // The second connection still waits in the channel.
    assert_eq!(h.server.send(second, &[3]), Ok(()));
    assert!(e2.outgoing_rx.try_recv().is_err());
    h.server.preupdate();
    assert_eq!(h.server.send(second, &[4]), Ok(()));
    assert_eq!(e2.outgoing_rx.try_recv().unwrap(), vec![3]);
    assert_eq!(e2.outgoing_rx.try_recv().unwrap(), vec![4]);
}

#[test]
fn disconnect_drops_an_established_connection() {
    let mut h = harness(Acceptor::Plain { has_tls_proxy: false });
    let (idx, _rx, _, _) = request(&mut h, vec![1]);
    h.server.connection_accepted(4, idx);
    let (c, mut ends) = client(&h, 4, idx);
    h.conn_tx.send(c).unwrap();
    h.server.preupdate();
    h.server.disconnect(idx);
    h.server.disconnect(idx);
    h.server.postupdate();
    assert!(ends.abort_rx.try_recv().is_ok());
    assert_eq!(h.count.load(Ordering::Relaxed), 0);
    assert_eq!(h.server.send(idx, &[1]), Err(SocketError::ConnectionAborted));
    // Marking it again changes nothing more.
    h.server.connection_denied(idx);
    h.server.postupdate();
    assert_eq!(h.count.load(Ordering::Relaxed), 0);
}

#[test]
fn denied_pending_connection_is_told_of_failure() {
    let mut h = harness(Acceptor::Plain { has_tls_proxy: false });
    let (idx, mut rx, _, _) = request(&mut h, vec![1]);
    h.server.connection_denied(idx);
    h.server.postupdate();
    assert!(matches!(rx.try_recv(), Ok(ConnectionRequestResult::Failure)));
    assert_eq!(h.count.load(Ordering::Relaxed), 0);
}

#[test]
fn finished_reader_task_drops_the_connection() {
    let mut h = harness(Acceptor::Plain { has_tls_proxy: false });
    let (idx, _rx, _, _) = request(&mut h, vec![1]);
    h.server.connection_accepted(4, idx);
    let (incoming_tx, incoming_rx) = crossbeam::channel::bounded(4);
    let (outgoing_tx, _outgoing_rx) = tokio::sync::mpsc::channel(4);
    let (abort_tx, mut abort_rx) = tokio::sync::mpsc::unbounded_channel();
    let reader = h.rt.spawn(async {});
    let writer = h.rt.spawn(std::future::pending::<()>());
    while !reader.is_finished() {
        h.rt.block_on(tokio::task::yield_now());
    }
    let c = WebSocketServerClient::new(4, idx, incoming_rx, outgoing_tx, reader, writer, abort_tx);
    h.conn_tx.send(c).unwrap();
    h.server.preupdate();
    h.server.postupdate();
    assert!(abort_rx.try_recv().is_ok());
    assert_eq!(h.count.load(Ordering::Relaxed), 0);
    drop(incoming_tx);
}

#[test]
fn oversized_client_packet_marks_the_connection_lost() {
    let mut h = harness(Acceptor::Plain { has_tls_proxy: false });
    let (idx, _rx, _, _) = request(&mut h, vec![1]);
    h.server.connection_accepted(4, idx);
    let (c, mut ends) = client(&h, 4, idx);
    h.conn_tx.send(c).unwrap();
    h.server.preupdate();
    ends.incoming_tx.send(vec![0; 20]).unwrap();
    let mut buffer = [0u8; 8];
    assert_eq!(h.server.try_recv(&mut buffer), Err(SocketError::WouldBlock));
    h.server.postupdate();
    assert!(ends.abort_rx.try_recv().is_ok());
    assert_eq!(h.count.load(Ordering::Relaxed), 0);
}

#[test]
fn clients_are_asked_in_order_from_the_receive_position() {
    let mut h = harness(Acceptor::Plain { has_tls_proxy: false });
    let mut ends = Vec::new();
    let mut idxs = Vec::new();
    for id in 0..3u64 {
        let (idx, _rx, _, _) = request(&mut h, vec![1]);
        h.server.connection_accepted(id, idx);
        let (c, e) = client(&h, id, idx);
        h.conn_tx.send(c).unwrap();
        ends.push(e);
        idxs.push(idx);
    }
    h.server.preupdate();
    ends[2].incoming_tx.send(vec![2]).unwrap();
    ends[0].incoming_tx.send(vec![0]).unwrap();
    let mut buffer = [0u8; 2];
    assert_eq!(h.server.try_recv(&mut buffer), Ok((1, idxs[0])));
    assert_eq!(h.server.try_recv(&mut buffer), Ok((1, idxs[2])));
    // Connection 0 has a new packet, but the receive position moved past it.
    ends[0].incoming_tx.send(vec![0]).unwrap();
    assert_eq!(h.server.try_recv(&mut buffer), Err(SocketError::WouldBlock));
    h.server.preupdate();
    assert_eq!(h.server.try_recv(&mut buffer), Ok((1, idxs[0])));
}

#[test]
fn dropping_several_connections_at_once() {
    let mut h = harness(Acceptor::Plain { has_tls_proxy: false });
    let (a, mut ra, _, _) = request(&mut h, vec![1]);
    h.server.connection_accepted(1, a);
    let (b, mut rb, _, _) = request(&mut h, vec![1]);
    h.server.connection_accepted(1, b);
    let (c, _rc, _, _) = request(&mut h, vec![1]);
    h.server.connection_accepted(2, c);
    assert_eq!(h.count.load(Ordering::Relaxed), 3);
    assert!(matches!(ra.try_recv(), Ok(ConnectionRequestResult::Success { client_id: 1 })));
    assert!(matches!(rb.try_recv(), Ok(ConnectionRequestResult::Success { client_id: 1 })));
    // `a` was marked when `b` took its id; mark `b` too, and an unknown index.
    h.server.disconnect(b);
    h.server.disconnect(1000);
    h.server.postupdate();
    assert_eq!(h.count.load(Ordering::Relaxed), 1);
    assert!(matches!(ra.try_recv(), Ok(ConnectionRequestResult::Failure)));
    assert!(matches!(rb.try_recv(), Ok(ConnectionRequestResult::Failure)));
    assert_eq!(h.server.send(a, &[1]), Err(SocketError::ConnectionAborted));
    assert_eq!(h.server.send(b, &[1]), Err(SocketError::ConnectionAborted));
    assert_eq!(h.server.send(c, &[1]), Ok(()));
    // The freed id can be taken again without dropping anyone.
    let (d, _rd, _, _) = request(&mut h, vec![1]);
    h.server.connection_accepted(1, d);
    h.server.postupdate();
    assert_eq!(h.count.load(Ordering::Relaxed), 2);
    assert_eq!(h.server.send(d, &[1]), Ok(()));
}
