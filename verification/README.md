# terminal_chat

A chat between terminals: a server that routes messages between clients, and a
client that reads commands and text from the terminal. The library under `src/`
is verified with Verus; `app/` holds the programs around it (sockets, threads,
files, the command-line parser and serde).

Layout of `src/`:

- `ameon/` — a compact binary encoding of structured values (big-endian
  integers, length-prefixed strings, one-byte variant indices), with the proof
  that decoding an encoding gives the value back.
- `frame.rs` — frames on the stream: a marker byte, the little-endian length of
  the DEFLATE-compressed payload, the payload.
- `codec.rs`, `le.rs` — little-endian encodings of numbers, options, buffers and
  lists, with their read-back laws.
- `demo.rs` — a small text-and-image message format with a fixed header.
- `format.rs`, `escapes.rs` — markup to ANSI styles, and escape sequences.
- `names.rs` — chat and user names: validation and sanitizing.
- `chat/` — identifiers and ordered sets of them, the messages, the server's
  routing decisions, and the client's command decisions.

`app/main.rs` runs `client [address]`, `server [address]` or `demo`.
