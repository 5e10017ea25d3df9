# engine

The state core of an execution engine for ephemeral rollups: account storage, the transaction
ledger, the keeper that ties them together, and the rules of the engine on top. It is a library;
what executes transactions, and the host that decides when, stand outside.

## Layout

| Module | What it holds |
| :-- | :-- |
| `accountsdb` | Two backends for accounts: persisted ones that the engine decides about, and volatile mirrors of another chain. Allocation, packing, checksums, snapshots, and admission of readers. |
| `ledger` | Superblocks with a blockstore, executions, and an index. Appending, sealing, retention, reads, and replay. |
| `keeper` | Caches of recent blocks, signatures, and accounts, subscriptions, sysvars, required features, what a start seeds, and recovery. |
| `exec` | Admission and composition of transactions, pacing of blocks, replay of entries, and leases on accounts. |
| `table`, `bytes`, `text`, `types`, `view`, `maps` | Ordered tables, byte encodings, names, shared types, and sanitized transactions. |

Each module states its data as mathematical maps, sequences, and sets, and each function says
how it changes them. Laws that relate several functions are public proof functions: those of
account storage are in `accountsdb::laws`, `passes`, and `layout`, those of the ledger in
`ledger::laws`, `trace`, `boundary`, `history`, `details`, and `journal` beside it, that replay
rebuilds state in `exec::rebuild`, and the others beside the functions they speak of.

Functions of outside crates are called through small wrappers whose contracts are believed:
`scc` for concurrent maps, `zstd` for execution details, `twox-hash` for checksums,
`agave-transaction-view` and the `solana-*` crates for transactions, signatures, rent, and slot
hashes. Each wrapper's comment says what it claims.

`app/` is the host around the library: files, threads, channels, and the clock. `tests/` runs
the library with the outside crates linked.
