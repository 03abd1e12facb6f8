# reactive

A small reactive runtime with verified bookkeeping. Signals hold values set
from outside, memos derive values from other nodes, effects run a body each
time something they read changed. Writes inside a batch are propagated
together, every node is brought up to date at most once per round and only
after the nodes it reads, and a calmed memo whose value did not change does
not disturb the nodes that read it.

Layout:

- `src/` — the verified library. All nodes live in the arena of a
  `Context`; handles (`Signal`, `Memo`, `Effect`) name nodes by index and are
  counted, and a node is alive while a chain of holds leads to it from a
  handle, from the effect queues, or from a memo (a memo holds itself). The runtime is a state machine:
  `Context::propergate` performs one step of a propagation and hands the
  caller the recomputations and effect runs it must perform.
  - `reactivity/context.rs` — the state, its view and well-formedness, and
    the operations on transactions, computations and the dependency graph;
  - `reactivity/propagation.rs` — bringing nodes up to date and the steps of
    a propagation;
  - `reactivity/liveness.rs` — which nodes are alive, and the search that
    decides it;
  - `reactivity/signal.rs`, `memo.rs`, `effect.rs` — the handles;
  - `reactivity/laws.rs` — properties relating several operations;
  - `reactivity/termination.rs` — a measure that the steps of a round
    decrease when the dependency graph has no cycle.
- `app/` — a closure-driven front end that owns the computations of memos and
  the bodies of effects and runs the propagation loop.
- `tests/` — scenarios and checks of the laws on concrete values.
