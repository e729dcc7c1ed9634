# shell-node

The rules by which a node of a Shell chain decides: which chain it follows, what it counts as
final, what it settles and pays for, what it keeps on disk, and what it asks its peers for. The
library under `src/` is verified with Verus: every function states what it returns for every
input that its `requires` admits, and the laws that hold across functions stand next to them as
proof functions (`law_*`).

The library computes on plain values. What only the outside can do (checking a signature, making a
proof, writing to disk, telling the time) enters as an argument: a decision is taken first, the
caller acts, and the outcome goes to a second function that moves the state.

| Module | What it decides |
|--------|-----------------|
| `chain`, `table`, `primitives`, `text` | blocks, the chain index, and what they are made of |
| `reorg`, `fork` | reorganizations, the fork-choice tree, and when a fork is adopted |
| `quorum`, `signature`, `finality`, `votes`, `certificate` | attestations, votes, commit certificates and finality |
| `stark`, `rewards`, `prover` | settlement of proofs, their rewards, and the background prover |
| `pruning`, `retention`, `trie` | storage profiles and what may be pruned |
| `sync`, `limits`, `dev` | block requests, gas limits, development snapshots |
| `node` | a node that holds all of it |

`app/` runs the library: channels, tasks, clocks, metrics and wire formats. `tests/` exercises it on
concrete values.
