# syncd

A daemon that keeps one key/value dataset in sync across a person's own
devices, with no server in the middle. Each device edits its own replica;
replicas exchange the operations that they are missing and converge.

`src/` is the library, verified with Verus:

| module | what it holds |
|--------|---------------|
| `clock` | the hybrid logical clock |
| `op`, `dataset`, `replica` | operations, the merge rule as mathematics, and one replica |
| `laws`, `mesh` | what holds of replicas as a whole: order, idempotence, convergence |
| `csvtext`, `persist` | the operation log on disk |
| `json`, `discovery` | status reports, known peers, announcements |
| `settings` | command line, identity, addresses |
| `node` | what a node answers, and the moves of a sync round |
| `monitor` | an observer that judges whether nodes have converged |
| `text`, `textmap` | text functions and a map that is ordered by its keys |

`app/` is the daemon around it: HTTP, broadcast, files and the page of the
observer. `tests/` runs the library on concrete values.

What is believed without proof is marked `external_body` where it stands, and
says there which outside function it calls and what it claims: the wall clock,
sorting, hashing of strings, joining of paths, and the CSV and JSON crates.
