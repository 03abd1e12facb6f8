use vstd::prelude::*;

use super::context::Context;

verus! {

/// What a node does when one of its dependencies changed.
#[derive(Clone, Copy, Debug)]
pub enum UpdateOp {
    /// Recompute the node's value; a calmed node only reports a change when
    /// the new value differs from the old one.
    Recompute { calmed: bool },
    /// Queue the node as an effect to be run once the round ends.
    ScheduleEffect,
}

/// The bookkeeping shared by every node of the reactive graph.
pub struct Node {
    pub update_op: Option<UpdateOp>,
    pub visited: bool,
    pub dirty: bool,
    /// Nodes read by the last computation of this node (with repetitions).
    pub dependencies: Vec<usize>,
    /// Nodes whose last computation read this node (with repetitions).
    pub dependents: Vec<usize>,
    /// Nodes kept alive for as long as this node is alive.
    pub owned: Vec<usize>,
    /// Number of live user handles to this node.
    pub handles: usize,
}

/// The mathematical content of a [`Node`].
#[verifier::ext_equal]
pub struct NodeView {
    pub update_op: Option<UpdateOp>,
    pub visited: bool,
    pub dirty: bool,
    pub dependencies: Seq<usize>,
    pub dependents: Seq<usize>,
    pub owned: Seq<usize>,
    pub handles: usize,
}

impl View for Node {
    type V = NodeView;

    open spec fn view(&self) -> NodeView {
        NodeView {
            update_op: self.update_op,
            visited: self.visited,
            dirty: self.dirty,
            dependencies: self.dependencies@,
            dependents: self.dependents@,
            owned: self.owned@,
            handles: self.handles,
        }
    }
}

impl NodeView {
    /// A fresh node with update operation `op` and `handles` user handles.
    pub open spec fn with_op(op: Option<UpdateOp>, handles: usize) -> NodeView {
        NodeView { update_op: op, handles, ..NodeView::fresh() }
    }

    /// A node with no update operation, no edges, no flags and no handles.
    pub open spec fn fresh() -> NodeView {
        NodeView {
            update_op: None,
            visited: false,
            dirty: false,
            dependencies: Seq::empty(),
            dependents: Seq::empty(),
            owned: Seq::empty(),
            handles: 0,
        }
    }
}

impl Node {
    pub fn new() -> (r: Node)
        ensures
            r@ == NodeView::fresh(),
    {
        Node {
            update_op: None,
            visited: false,
            dirty: false,
            dependencies: Vec::new(),
            dependents: Vec::new(),
            owned: Vec::new(),
            handles: 0,
        }
    }
}

/// A node together with the value it holds (`None` while a memo computes
/// its first value, and always for effects).
pub struct NodeWithValue<A> {
    pub value: Option<A>,
    pub node: Node,
}

impl<A> NodeWithValue<A> {
    pub fn new(value: A) -> (r: NodeWithValue<A>)
        ensures
            r.value == Some(value),
            r.node@ == NodeView::fresh(),
    {
        NodeWithValue { value: Some(value), node: Node::new() }
    }

    pub fn new2(node: Node) -> (r: NodeWithValue<A>)
        ensures
            r.value is None,
            r.node@ == node@,
    {
        NodeWithValue { value: None, node }
    }
}

/// Access to the graph bookkeeping of a value-carrying node.
pub trait HasNode {
    fn node(&self) -> (r: &Node);
}

impl<A> HasNode for NodeWithValue<A> {
    fn node(&self) -> (r: &Node)
        ensures
            r@ == self.node@,
    {
        &self.node
    }
}

/// A read of the value of a node: the value, and the node it was read from.
pub struct NodeValRef<'a, A> {
    pub value: &'a A,
    pub node: usize,
}

impl<'a, A> NodeValRef<'a, A> {
    /// Borrows the value of `node`; records nothing.
    pub fn new(ctx: &'a Context<A>, node: usize) -> (r: NodeValRef<'a, A>)
        requires
            ctx@.wf(),
            ctx@.valid(node as int),
            ctx@.values[node as int] is Some,
        ensures
            r.node == node,
            Some(*r.value) == ctx@.values[node as int],
    {
        let value = match &ctx.nodes[node].value {
            Some(v) => v,
            None => unreached(),
        };
        NodeValRef { value, node }
    }

    /// The value read.
    pub fn get(&self) -> (r: &A)
        ensures
            r == self.value,
    {
        self.value
    }
}

} // verus!
