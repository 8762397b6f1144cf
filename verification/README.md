# kawa_broadcast

The broadcasting half of an internet radio server. Encoders hand it pieces of
encoded audio for its mounts, and it sends them to everyone who listens: over
HTTP with chunked transfer encoding, over WebSocket, or as plain bytes.

The library in `src/` holds no sockets. Everything that writes to a connection
is a value that names the bytes to write next and takes in how many of them the
connection took. `app/` has the sockets and the poller, and does what the
library says.

- `framing`, `chunker`, `websocket`: the two framings of a byte stream
- `buffer`: pieces of audio, and their packets for WebSocket clients
- `request`, `response`: requests of clients, and how they are answered
- `client`: one listener, and the bytes that its connection has yet to take
- `stream`: what a stream keeps for listeners that join late
- `broadcaster`, `joining`, `delivery`: the connections and mounts, the way of a
  client to a mount, and the broadcast of a piece
- `client_laws`, `broadcaster_laws`, `service_laws`: what holds of all of this,
  however connections behave
- `text`: comparison and formatting of text
- `outside`: calls into other crates, with what is taken for granted of them
