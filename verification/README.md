# raft

A replicated key-value store: Raft consensus over a log-structured merge tree with
multi-version reads, transactions, leases and watches. The library is written in Verus;
its functions carry contracts that the verifier has proved. Only the reading of a clock
claims nothing; what depends on it takes a reading as an argument.

## Layout

- `src/storage/` — the storage engine: write-ahead log, memory table, table files with
  Bloom filters, leveled compaction, recovery. The engine returns the changes that its
  files need; `open` restores what those files hold. A flush may be cut off anywhere; a
  compaction deletes the merged files before it stores the manifest, and must not be cut
  off in between.
- `src/mvcc/` — versions of keys, snapshot reads, transactions, collection of old
  versions, expiry.
- `src/consensus/` — a Raft node as a state machine: pre-vote and elections, replication,
  commit by quorum, linearizable reads, leadership transfer, joint membership changes,
  snapshots. `matching.rs` and `safety.rs` prove of the runs of a cluster that logs
  agree and that committed entries stay. These runs have a fixed membership; no node
  restarts from a log that it has truncated; a node counts only the votes of the
  election that it is in; a request from the start of the log goes only to a node
  without a snapshot; and a snapshot reaches beyond the log of the node that takes it,
  or agrees with that log. A peer that is behind the leader's snapshot is sent the
  snapshot, and no entries.
- `src/server/` — the services of a server and the decisions of its loop.
- `src/metrics.rs` — what a server counts, and the page that shows it.
- `src/client.rs`, `src/admin.rs` — what a client and the administration tool decide.
- `src/chaos/` — simulated clocks, disks and networks, a cluster in one process, and the
  check of histories.
- `app/` — the program around the library: files, sockets, timers, JSON. Calls travel as
  JSON texts over TCP.
- `tests/` — the library from outside.

## Trust

The contracts rest on a few statements about other code, each beside the call it is
about: the bit vectors of `bitvec`, the checksum of `crc32fast`, the random numbers of
`rand`, the text encoder of `prometheus`, and from the standard library `String::push`,
`String::from_utf8_lossy`, the `Debug` of `str`, `Instant::now`, `Instant::elapsed` and
`Duration::as_nanos`.
