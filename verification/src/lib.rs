//! A small reactive runtime: signals hold values, memos derive values from
//! other nodes, effects react to changes. Every node lives in the arena of a
//! [`Context`]; reading a node while another node is being computed records
//! a dependency, and writing a signal schedules the nodes that depend on it.
//!
//! The runtime is a state machine. The computations of memos and the bodies
//! of effects belong to the caller, which drives a propagation by calling
//! [`Context::propergate`] until it answers [`Step::Idle`], performing each
//! recomputation and effect run it is handed.

mod reactivity;

pub use reactivity::{
    Context, ContextView, Effect, HasNode, Memo, Node, NodeValRef, NodeView, NodeWithValue,
    Signal, Step, UpdateOp, UpdateOutcome,
};
