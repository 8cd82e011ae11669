# pms_master

The master of a distributed judge: it takes judge requests, hands each to the
least loaded worker node, has every node serve its judges earliest deadline
first, and walks each judge through its test cases.

- `src/` is the library, verified with Verus:
  - `scheduler/` — the deadline scheduler (`by_deadline.rs`), its abstract
    state and operations (`model.rs`), the per-node task queue
    (`task_queue.rs`), reading the least loaded node (`ranking.rs`), the
    properties proved across operations (`laws.rs`) and the exact
    accounting of each worker node's load (`accounting.rs`);
  - `judge.rs` — judge requests and the test case manager, with the proofs
    that a fresh manager never gives a test id twice and, with distinct ids,
    gives its tests in order;
  - `handler/` — the password digest, the decisions of the judge and test
    case services, and the address tables;
  - `commands/handshake.rs` — the answer to a node's handshake;
  - `config.rs`, `constants.rs`, `logger.rs`.
- `app/` holds the actors, network and file I/O around the library.
- `tests/` runs the library on concrete scenarios.
