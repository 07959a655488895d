# renet2_netcode (WebSocket server socket)

`src/` is the verified library:

- `server.rs`: the server's connection bookkeeping (pending and established
  connections, client id slots, connections marked to be dropped, the
  published client count) with its model `ServerView` and the laws it keeps.
- `connection_req.rs`: reading a client's connection request from a URL query.
- `reader.rs`: the decisions of the per-connection reader task.
- `run_conditions.rs`: client run conditions over the client's status.
- `channels.rs`: the channels, tasks and counters the server talks through.

`app/` binds the listener, performs WebSocket handshakes, runs the reader and
writer tasks, and converts between socket addresses and connection indices.
