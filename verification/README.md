# kvs

Small programs around a verified core.

- `src/record.rs`, `src/keydir.rs`, `src/kvs.rs`, `src/simple_kv.rs`: a
  log-structured key-value store. Records are
  `timestamp | key_len | val_len | key | value` (big-endian lengths); the key
  directory says where each key's latest record lies, and reading that
  record gives back the value last set.
- `src/server.rs`: the store's line protocol (`set KEY VALUE`, `get KEY`)
  and its answers.
- `src/lexer.rs`, `src/parser.rs`, `src/json_laws.rs`: a JSON lexer, a
  recursive-descent parser, the value's text, and the laws that tie text,
  tokens and values together.
- `src/brainfuck.rs`: the bracket table of a Brainfuck program and a machine
  that runs it one instruction at a time.
- `app/`: files, sockets, the clock, printing, `f64` and the command line.
