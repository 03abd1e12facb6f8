pub mod context;
pub mod effect;
pub mod laws;
pub mod liveness;
pub mod memo;
pub mod node;
pub mod propagation;
pub mod signal;
pub mod termination;
pub mod util;

pub use self::context::{Context, ContextView, Step, UpdateOutcome};
pub use self::effect::Effect;
pub use self::memo::Memo;
pub use self::node::{HasNode, Node, NodeValRef, NodeView, NodeWithValue, UpdateOp};
pub use self::signal::Signal;
