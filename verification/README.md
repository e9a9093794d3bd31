# gilma

A small directory synchronisation tool: a client pushes, lists, pulls and
syncs directories with a storage server over a line protocol.

- `src/` is the verified library (Verus): chunk-level delta synchronisation
  (`delta_sync`), the encryption engine and key exchange (`crypto`), the
  framing of encrypted messages (`secure_stream`), the line protocol
  (`protocol`), the server's per-connection state machine (`server`), the
  simple transfer protocol (`simple_transfer`), the connection-pool policy
  (`connection_pool`) and the text helpers they share (`text`).
- `app/` is the program around it: the command line, sockets, files, the
  clock and the async plumbing.
- `tests/` runs the library on concrete values.
