# Sailwind Online server core

The authoritative server for Sailwind Online's shared seas, with its logic
written in Verus and proved against its contracts.

## Layout

- `src/` — the verified library:
  - `econ` — the gold ledger and the shared port market: idempotent by
    transaction id, overflow-checked, never negative.
  - `net::protocol` — LiteNetLib 1.x framing (header byte, handshake,
    Unreliable, Ping/Pong, Disconnect, `NetDataWriter` strings).
  - `net::host` — the transport's peer table: handshake admission under
    global and per-IP ceilings, session replacement ordered by connect time,
    connection-number isolation, bounded per-poll timeout and keepalive
    maintenance. It decides; the caller owns the socket.
  - `world` — grid cells, square interest blocks, subscriptions and their
    add/remove diffs, the entity index with its per-cell lists kept in step
    with every entity's position.
  - `dispatch` — the per-message decisions: hello admission (version and
    string checks, resend, identity change, per-peer, per-source, reconnect
    and new-identity throttles, recording an admitted session and the peer
    it supersedes, loading the persisted identity index), the throttled
    idempotent trade and econ handlers, the mooring gate.
  - `interest` — bounded interest management: AoI update chunks, the
    recipient and player rotations, cell hydration (player passes and the
    paged mooring phase), snapshot selection, windows and cadence, chat
    admission and queueing, audience capture, session generations, and the
    fan-out tick, which delivers to live sessions only.
  - `flush` — persistence spread over ticks: dirty and flush sets, a few
    writes per tick in ascending order, pause on failure until the next
    flush boundary.
  - `ratelimit`, `session`, `validate`, `config`, `persist`, `contracts`,
    `arch_dag` — throttles, session bookkeeping helpers, wire-string caps,
    configuration knobs and argument parsing, stored rows, wire constants,
    and the workspace dependency policy.
- `tests/` — executable tests of the library.
- `app/` — the server binary: UDP socket, SQLite store, TOML configuration,
  the floating-point grid/clock/motion code, and a tick loop that runs the
  transport (connects, disconnects, timeouts, keepalives) and persistence;
  at start it loads the identity index through the library, and a
  disconnect ends the session, clears its throttles and writes the player
  back.
  The application message layer is not there: the FlatBuffers bindings
  that decode and encode `Envelope` messages are not part of this tree, so
  the binary logs each application datagram and drops it. No hello, state,
  econ, trade, mooring or chat message is handled, and no session, AoI
  update, snapshot or fan-out is produced at run time; the decisions that
  layer would call are the `dispatch` and `interest` modules above.
