# minimarket

A small exchange: clients send limit and market orders over WebSockets, a
sequencer stamps them, shards match them against per-symbol order books, and
trade notices go back to the clients whose resting orders traded.

The matching logic, the order books, the client-side order index and line
parser, the per-connection order slots, the shard routing and snapshot framing
live in `src/` and are verified with Verus: each public function states what it
returns or changes, and the laws of the library (what a match conserves, that a
limit is respected, that the front of a price level trades first, what a slot
release undoes, that a book is never crossed, that the snapshot file read back
is the one last written, that records and order lines read back what was
written) are
proved there as public proof functions.

`app/` holds the server and client programs around the library: sockets,
tasks, timers, files and serialisation.

Layout of `src/`:

- `order.rs`: orders, symbols, acknowledgements and cancel requests.
- `security.rs`: a security's two sides, matching, cancelling, prices and
  price statistics.
- `book.rs`, `matcher.rs`: simpler books keyed by price alone.
- `freelist.rs`: the order-id slots of one connection.
- `connection.rs`: slots per connection and the decisions of a connection's reader.
- `shard.rs`: routing symbols to shards and what a shard does with each order.
- `snapshot.rs`: snapshot file names, versions and record framing.
- `client.rs`: parsing order lines and the client's index of its own orders.
- `utils.rs`: ordered insertion and the frames sent to clients.
