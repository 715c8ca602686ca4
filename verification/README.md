# net

The deterministic core of a host-authoritative co-op game round, written and proved in Verus.

* `src/sim` is the integer world: spawning, walking, claws, extraction, restarts, the state
  digest. Its trigonometry is a fixed-point rotation ladder.
* `src/server` assembles the host's ticks from the players' input streams, steps the world,
  and keeps the roster.
* `src/snapshot.rs` and `src/bytes.rs` are the wire layout of a world state.
* `src/telemetry.rs`, `src/transport.rs` and `src/voice_delivery.rs` hold the rules of the
  reports, the links and the note deliveries: what is framed, accepted, kept or refused.
* `src/render` is the player's side: the round driver, the menu, the code map, the voice
  recorder, the lines on screen.

`app/` is ordinary Rust around the library: sockets, files, the environment, and what is
computed in floating point.

Every public function states in its contract what it returns. What holds across functions
stands in public proof functions, most of them in `src/sim/laws.rs`,
`src/sim/layout_laws.rs`, `src/server/laws.rs`, `src/server/history.rs` (over whole runs of a
server) and `src/snapshot_laws.rs`. Calls into other crates go through a few trusted functions, each with a
doc comment that says what is taken for granted.
