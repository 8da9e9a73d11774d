# mmo

Tools for a small voice-and-relay setup around the Mumble protocol.

- `src/` — the library, verified with Verus:
  - `varint` — the Mumble variable-length integer format: reader, writer,
    and the laws that tie them together;
  - `packet` — control-channel framing (type, length, payload) and message
    types;
  - `audio` — PCM samples in little-endian bytes, 20 ms frames, and the
    Opus packets sent and received through the control channel;
  - `client` — what the voice bot does with each received packet, and the
    buffer that gathers an incoming transmission;
  - `relay` — the UDP relay's datagram codec and client table;
  - `config` — the bot's settings; `endian` — the `byteorder` calls.
- `app/` — the programs: the UDP relay server, a TCP echo server and the
  voice bot (sockets, files, command line, Opus coding).
- `tests/` — tests of the library.
