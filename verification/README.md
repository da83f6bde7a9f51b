# babelfix

A verified [FIX protocol](https://www.fixtrading.org/) engine in Rust and
[Verus](https://github.com/verus-lang/verus), driven by FIX Orchestra metadata.

`src/` is the library. It does no I/O, reads no clock and spawns nothing. Verus
proves every function in it against its contract, but for the few short wrappers
around outside functions (marked `external_body`), whose contracts are believed.

| Module | What it holds |
|--------|---------------|
| `xml`, `orchestra`, `repository`, `membership` | FIX Orchestra documents, the versions, messages, fields, components and groups they define, and what belongs to which |
| `schema` | tag constants, and the listing that constants are generated from |
| `message`, `wire` | messages as tags and values, and their form on the wire |
| `builder` | messages as typed fields and groups: building, taking apart, normal form |
| `codec`, `framing` | splitting a byte stream into messages and back, and what that promises as a whole |
| `journey`, `delivery` | what a message is once it has crossed the wire, and once it has crossed from one session to another |
| `session` | sequence numbers, heartbeats, test requests, gaps, replay, logon and logout |
| `driver` | the above assembled: feed bytes, drain bytes |
| `endpoint` | what an endpoint decides about connections |
| `time`, `clock`, `text`, `names`, `buffer`, `error`, `equality` | what the rest is made of |

What the session layer does with each input is written down as a state machine in
`session/protocol.rs`; what it promises as a whole is proved in
`session/laws.rs`, `session/recovery.rs` and `session/exchange.rs`, and next to the
types concerned elsewhere (every proof function named `law_..`).

The outside crates that the library calls are `bytes`, `chrono` and `quick-xml`.
What is believed of them, and of three functions of std, stands in `buffer.rs`,
`time.rs`, `xml.rs` and `text.rs`.

`app/` is the tokio driver: sockets, timers, tasks and channels around the
library. `tests/` runs the library.
