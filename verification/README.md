# multiplayer

The shared rules of a small networked arena, verified with Verus.

- `src/protocol.rs`: the channels (and their channel numbers) and the roster
  messages that the server sends.
- `src/roster.rs`: the roster of connected clients, each with the bits of the
  entity that represents it.
- `src/session.rs`: what the server sends when a client connects or leaves,
  what a client does with each roster message, how snapshot entries are matched
  to entities, and the proofs that every client's roster stays in step with the
  server's.
- `app/`: the server and client programs around the library (engine systems,
  transport, encoding, floating-point movement and rendering).
