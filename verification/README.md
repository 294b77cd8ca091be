# ringfire

Inter-process communication over shared memory, written and verified in Verus: rings of
fixed-size records with one or many producers, blob rings whose payloads live in an arena, a
registry of readers with lossless backpressure, a table of the latest value per key, offset
files, and mirrors of rings on other hosts.

- `src/` is the library. It works on plain values and decides one memory access at a time:
  which word to load, when a copy counts, where to move the cursor. Every item has a contract,
  and the promises that span several functions are the public `lemma_*` functions.
- `app/` maps the files and performs the accesses: atomics, futex calls, file locks, sockets,
  Tokio tasks, the C interface and the `ringfire` command.
- `tests/` runs the library on concrete values.

## Modules

| Module | What it holds |
|---|---|
| `header`, `bytes`, `math`, `signature`, `error`, `text` | the layout of a region, its byte encoding, layout fingerprints, error texts |
| `slot`, `ring`, `head` | one slot's protocol, a ring as a value, the reader's state machine |
| `spmc`, `consumer`, `wait` | the single producer, broadcast consumers, waiting |
| `mpmc` | many producers, and workers that share the messages |
| `registry`, `checkpoint` | readers and their progress, offset files |
| `arena`, `blob` | payloads of variable size |
| `blackboard` | the latest value per key |
| `multiplexer`, `async_ring` | several rings in turn, back-off of idle tasks |
| `replication` | the mirror protocol |
| `raw` | records and values whose type is only a size |
| `shm` | how a backing file is taken over without touching a live ring |
| `inspect`, `cli`, `tsc` | the command's texts and arguments, time stamps |
