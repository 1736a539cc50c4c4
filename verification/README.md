# chronos

A trading mesh with on-chain settlement, with its rules stated as contracts and proved by Verus.

`src/` is the library:

- the order book and its fees: `book`, `book_laws`, `fees`
- balances and settlement: `ledger`, `batcher`, `batcher_laws`, `batcher_room`, `settlement`
- the trading node and its recovery: `server`, `queries`, `recovery`, `recovery_laws`,
  `reconcile`, `snapshot`, `receipts`
- what is followed and called on a chain: `accounts`, `registry`, `sync`, `scan`, `store`,
  `store_laws`, `chains`, `wallet`
- the check of a batch proof: `bn254`, `vk`, `groth16`
- flooding and heartbeats: `flood`, `heartbeat`
- the simulation of trading agents: `agents`, `mesh`, `simulation`, `sim_types`, `sim_matches`,
  `sim_reports`, `sim_state`, `actions`
- settings and text: `config`, `text`, `hexes`, `bytes`, `assoc`, `types`

`tests/` runs the library. `app/` is the programs around it: sockets, disks, HTTP and floating
point.

Amounts, prices and fees are integers. Times are microseconds; in `heartbeat`, milliseconds.
