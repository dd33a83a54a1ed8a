# ticked_session

Networked sessions of a ticked simulation, and the harness that tests them.

A ticked simulation runs in fixed steps, predicts on every client and rolls back when the host
disagrees. Two things have to be right before any of that is worth having: peers that join each
other must speak the same language, and tests must notice when they stop agreeing.

- `src/` is the verified library. It decides: who takes which role, whether two registries match,
  which snapshot passes, how often a peer runs, which tick diverged first, whether a file that runs
  inside the tick reaches for the frame. It holds no engine types and does no I/O.
- `app/` is the engine around it: plugins and systems, files, processes, sockets, and everything
  that is floating point.
- `tests/` runs the library on concrete values.

## The session

`handshake` compares registries and names the first difference; `join` acts on the comparison,
welcomes clients into spawner slots (`slots`) and gives up on a silent host; `session` maps a lobby
onto the host and client roles; `bridge` moves snapshots and inputs; `local_session` runs several
peers from one shell; `overlay` shows the counters.

## The harness

`network` keeps the books of a host and its clients, `peer` lists what one is built of, `input`
scripts what players press and `packets` reads what crossed the wire. `agreement`, `replay_check`,
`golden`, `measure`, `wire` and `log` say whether all is well, `fault` breaks things on purpose,
`source_guard` keeps the frame out of the tick, and `fixtures` is a game small enough to trust.

## What is trusted

Four calls: appending a character to a `String`, the debug form of a list of strings, and packing
and unpacking a byte string with `postcard`. Each stands in `src/text.rs` or `src/packing.rs` with a
comment that says what is taken for granted.
