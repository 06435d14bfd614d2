# chord_ring

A small Chord-style ring of peers that store and retrieve objects for a
client, coordinated by a bootstrap server.

- `src/` is the verified library: the ring membership kept by the bootstrap
  server and the notices a join produces (`state/bootstrap.rs`), the peers'
  ownership rule and request handling (`state.rs`), the message type
  (`state/messaging.rs`), host naming and addresses (`setup/socketry.rs`),
  the object store's record format (`setup/hostsfile.rs`), decimal text
  (`text.rs`) and the command-line options (`args.rs`).
- `app/` is the program: sockets, the bincode wire encoding, the object
  store's file, the command-line parser and the event loops that carry out
  what the library decides.
- `tests/` exercises the library on concrete rings, peers and records.
