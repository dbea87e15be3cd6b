# mem_etcd

An in-memory key-value server that speaks the etcd protocol, written in Verus: the
logic of the server is executable Rust with contracts, and the contracts are proved.

## Layout

- `src/` is the library, verified as a whole.
  - `history.rs` is the model of the store: what was written at which revision.
    `store.rs` is the store itself, `store_laws.rs` what holds of it over several
    calls, and `transfer.rs` how its keys go to another node.
  - `kv_service.rs`, `watch_service.rs`, `election.rs`, `lock.rs`, `lease_service.rs`,
    `maintenance_service.rs` and `membership.rs` decide what requests are answered.
  - `notify.rs` puts the notification of writes in order.
  - `lease/`, `auth.rs`, `alarm.rs`, `compactor.rs` and `config.rs` hold the leases,
    the users, the alarms, the compaction and the configuration.
  - `raft.rs` is the replicated log and the state machine.
  - `block_deque.rs`, `sorted_map.rs`, `order.rs`, `keyspace.rs`, `sha256.rs`, `text.rs`
    and `pkg/` are what the rest is built with.
  - `outside.rs` holds every contract that is believed and not proved: those of
    functions of other crates and of the standard library.
- `app/` is the program around it: arguments, sockets, files, threads, and the storage
  and the networks that the consensus of `openraft` works with.
- `tests/` runs the library.

## Running

    mem_etcd --port 2379 --metrics-port 9000

A cluster of three nodes, of which the first one starts the cluster:

    mem_etcd --port 23791 --metrics-port 9001 --raft-enabled --raft-node-id 1 \
      --raft-peers "1@localhost:23791,2@localhost:23792,3@localhost:23793" --raft-init

## What is proved

A read gives back what was last written under a key up to its revision, whatever was
written since. A compaction takes away the writes before its revision, but for the last
write of each key: a key that was written before the compaction, and again after the
revision of a read, reads as absent there. A conditional write takes place only if what
is there meets the condition, so that of several clients one creates a key, holds a lock
or leads. A watch is told of every write of its keys from its revision on, once. Nodes
that apply the same log have the same store, and a node that takes over a snapshot has
the keys of the node that made it. Leases do not expire early, and expire in time. A
token is valid for its time from the login or its last refresh on, unless it is revoked.
The functions do not panic on what their contracts admit.
