# ddbb

A replicated key-value store in the style of etcd: each server proposes
entries to a consensus layer (OmniPaxos), applies the entries that are
decided to a write-ahead log and a key-value map, and answers linearizable
reads and writes once their own entries come back decided.

## Layout

- `src/` is the verified library (Verus):
  - `frame.rs`: frames, their text rendering and the errors they give;
  - `resp.rs`: the wire format of frames, with its encoder and parser;
  - `data_structure.rs`: the messages, commands, key-values and log entries,
    and how each is cast to and from frames;
  - `ddbb_server.rs`: the write-ahead log, the key-value map, compaction, and
    the state machine of a server (applying decided entries, finding the
    entry of an operation, the rounds of a linearizable read or write);
  - `lin_test.rs`: the logic of the linearizability test (random commands,
    the consistency check of logs, the grouping of a trace by key, the text
    of a trace);
  - `cli.rs`: the command lines of servers (`read`, `write`, `show`) and
    clients, request routing, and the bincode messages of a client;
  - `text.rs`: decimal numbers, byte escapes and UTF-8 conversions.
- `app/` holds the programs around the library: the consensus instance, the
  network, the timers, the files and the terminal. `--program` picks one:
  `server` (the default, with `--pid` and `--ip-addr`), `client`, `lin-test`
  or `local-cluster`.
- `tests/` holds the tests of the library.
