# obby_client

The engine of an IRCv3 client, without sockets, clocks or threads. The host pushes bytes and time
in, and drains bytes and events out.

The functions under `src/` are proved by Verus against their contracts. Impls that `derive` writes, such
as `Clone` and `Debug`, have no contract.

## Layout

- `client.rs` is one connection: registration, capabilities, authentication, keepalive, and every
  command that can be given to it. `state.rs` says in mathematical terms what each of these does.
- `session.rs` folds the lines of a server into the model of `model.rs`: channels, people,
  conversations and their logs.
- `wire.rs` and `isupport.rs` hold protocol lines, names and their casemapping, and what a server
  advertises. Parsing and rendering a line is the `obby-proto` crate's.
- `caps.rs`, `sasl.rs`, `scram.rs`, `batch.rs`, `label.rs`, `monitor.rs`, `timer.rs` and
  `extensions.rs` are one part of the protocol each.
- `voice.rs`, `sdp.rs` and `room.rs` are voice rooms: the signalling frames, the session
  descriptions in them, and who is in a room. `json.rs` reads and writes JSON.
- `identity.rs`, `handshake.rs`, `ratchet.rs` and `e2ee.rs` are encrypted conversations. What they
  need of cryptography is in `crypto.rs`, and is not proved here.
- `echo.rs` decides what a small bot does.
- `sorted.rs` and `text.rs` are the maps, sets and text that the rest is made of.

The functions named `law_..` state what holds of the library as a whole.

`tests/` runs the library with the outside crates linked. `app/` carries its values across
boundaries: JSON, the C ABI, JavaScript, Python, and a bot over a socket.

## What is trusted

Functions marked `external_body`, and the few `assume_specification` items for std, have contracts
that Verus believes. Each makes one outside call and says above it what is claimed of that call.
A function whose result takes too long to describe has a name, such as `sha256_of`, and contracts
speak of that name.
