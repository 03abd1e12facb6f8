use vstd::prelude::*;

use super::node::{Node, NodeView, NodeWithValue, UpdateOp};
use super::util::{lemma_filter_absent, lemma_filter_contains, remove_all, without};

verus! {

broadcast use {vstd::seq_lib::group_seq_properties, vstd::seq_lib::group_filter_ensures};

/// The runtime state shared by every signal, memo and effect.
pub struct Context<A> {
    /// Number of open transactions (batches, and a running propagation).
    pub transaction_depth: usize,
    /// The node whose computation is in progress, if any.
    pub in_node: Option<usize>,
    /// The nodes that were in progress when the current one was entered.
    pub outer_nodes: Vec<Option<usize>>,
    /// Work list of nodes to bring up to date (a stack).
    pub to_be_updated: Vec<usize>,
    /// Nodes whose `visited` flag is cleared when the round ends.
    pub reset_visited_flags: Vec<usize>,
    /// Nodes whose `dirty` flag is cleared when the round ends.
    pub clear_dirty_flags: Vec<usize>,
    /// Effects queued during the current round.
    pub effects: Vec<usize>,
    /// The arena of nodes; a node is named by its index.
    pub nodes: Vec<NodeWithValue<A>>,
    /// Whether a propagation is in progress.
    pub propagating: bool,
    /// Effects taken from the queue at the end of a round, still to be run.
    pub pending_effects: Vec<usize>,
    /// The node whose recomputation or effect body the caller must perform.
    pub running: Option<usize>,
}

/// The mathematical content of a [`Context`].
#[verifier::ext_equal]
pub struct ContextView<A> {
    pub transaction_depth: usize,
    pub in_node: Option<usize>,
    pub outer_nodes: Seq<Option<usize>>,
    pub to_be_updated: Seq<usize>,
    pub reset_visited_flags: Seq<usize>,
    pub clear_dirty_flags: Seq<usize>,
    pub effects: Seq<usize>,
    pub propagating: bool,
    pub pending_effects: Seq<usize>,
    pub running: Option<usize>,
    pub values: Seq<Option<A>>,
    pub nodes: Seq<NodeView>,
}

impl<A> View for Context<A> {
    type V = ContextView<A>;

    open spec fn view(&self) -> ContextView<A> {
        ContextView {
            transaction_depth: self.transaction_depth,
            in_node: self.in_node,
            outer_nodes: self.outer_nodes@,
            to_be_updated: self.to_be_updated@,
            reset_visited_flags: self.reset_visited_flags@,
            clear_dirty_flags: self.clear_dirty_flags@,
            effects: self.effects@,
            propagating: self.propagating,
            pending_effects: self.pending_effects@,
            running: self.running,
            values: Seq::new(self.nodes@.len(), |i: int| self.nodes@[i].value),
            nodes: Seq::new(self.nodes@.len(), |i: int| self.nodes@[i].node@),
        }
    }
}

/// What the caller must do next to drive a propagation.
pub enum Step {
    /// Nothing to do now: no propagation is due, or one is waiting for the
    /// caller to finish a recomputation or an effect body.
    Idle,
    /// The runtime made progress on its own; ask again.
    Continue,
    /// Compute the memo's new value (inside its context) and hand it to
    /// [`Context::complete_update`].
    Recompute(usize),
    /// Run the effect's body (inside its context), then call
    /// [`Context::complete_effect`].
    RunEffect(usize),
}

/// How [`Context::update_node`] treated a node.
pub enum UpdateOutcome {
    /// The node was already brought up to date in this round.
    Skipped,
    /// Some dependencies were not up to date yet; they were scheduled first.
    Deferred,
    /// The node is a memo that must be recomputed by the caller.
    NeedsRecompute,
    /// The node was brought up to date.
    Finished,
}

impl<A> ContextView<A> {
    pub open spec fn valid(self, i: int) -> bool {
        0 <= i < self.nodes.len()
    }

    pub open spec fn ids_valid(self, s: Seq<usize>) -> bool {
        forall|k: int| 0 <= k < s.len() ==> self.valid(#[trigger] s[k] as int)
    }

    pub open spec fn is_effect(self, i: int) -> bool {
        self.nodes[i].update_op matches Some(UpdateOp::ScheduleEffect)
    }

    pub open spec fn effects_valid(self, s: Seq<usize>) -> bool {
        forall|k: int| 0 <= k < s.len() ==> self.valid(#[trigger] s[k] as int) && self.is_effect(
            s[k] as int,
        )
    }

    /// Edges point to nodes of the arena, and the dependency relation is the
    /// converse of the dependent relation.
    pub open spec fn graph_wf(self) -> bool {
        &&& self.values.len() == self.nodes.len()
        &&& self.nodes.len() <= usize::MAX
        &&& forall|i: int|
            #![trigger self.nodes[i]]
            self.valid(i) ==> {
                &&& self.ids_valid(self.nodes[i].dependencies)
                &&& self.ids_valid(self.nodes[i].dependents)
                &&& self.ids_valid(self.nodes[i].owned)
            }
        &&& forall|i: int, j: int|
            #![trigger self.nodes[i].dependencies.contains(j as usize)]
            #![trigger self.nodes[j].dependents.contains(i as usize)]
            self.valid(i) && self.valid(j) ==> (self.nodes[i].dependencies.contains(j as usize)
                <==> self.nodes[j].dependents.contains(i as usize))
        &&& forall|i: int|
            #![trigger self.values[i]]
            self.valid(i) && self.nodes[i].update_op is None ==> self.values[i] is Some
    }

    /// The well-formedness of the whole runtime state.
    pub open spec fn wf(self) -> bool {
        &&& self.graph_wf()
        &&& self.ids_valid(self.to_be_updated)
        &&& self.ids_valid(self.reset_visited_flags)
        &&& self.ids_valid(self.clear_dirty_flags)
        &&& self.effects_valid(self.effects)
        &&& self.effects_valid(self.pending_effects)
        &&& (self.in_node matches Some(i) ==> self.valid(i as int))
        &&& forall|k: int|
            0 <= k < self.outer_nodes.len() ==> (#[trigger] self.outer_nodes[k] matches Some(i)
                ==> self.valid(i as int))
        &&& (self.running matches Some(r) ==> {
            &&& self.valid(r as int)
            &&& self.nodes[r as int].update_op is Some
        })
        &&& (self.propagating ==> self.transaction_depth >= 1)
        &&& self.flags_noted()
    }

    /// Every visited node is listed for its flag to be reset, and every
    /// changed node for its flag to be cleared, when the round ends.
    pub open spec fn flags_noted(self) -> bool {
        &&& forall|i: int|
            self.valid(i) && (#[trigger] self.nodes[i]).visited ==> self.reset_visited_flags.contains(
                i as usize,
            )
        &&& forall|i: int|
            self.valid(i) && (#[trigger] self.nodes[i]).dirty ==> self.clear_dirty_flags.contains(
                i as usize,
            )
    }

    /// The state with node `i` replaced by `nd`.
    pub open spec fn with_node(self, i: int, nd: NodeView) -> ContextView<A> {
        ContextView { nodes: self.nodes.update(i, nd), ..self }
    }

    /// The state with one more node, holding `value`.
    pub open spec fn with_new_node(self, value: Option<A>, nd: NodeView) -> ContextView<A> {
        ContextView { values: self.values.push(value), nodes: self.nodes.push(nd), ..self }
    }

    /// The state after node `n` was read: when a node is in progress, it
    /// records `n` as a dependency and `n` records it as a dependent.
    pub open spec fn with_read(self, n: usize) -> ContextView<A> {
        match self.in_node {
            Some(o) => {
                let s1 = self.with_node(
                    o as int,
                    NodeView {
                        dependencies: self.nodes[o as int].dependencies.push(n),
                        ..self.nodes[o as int]
                    },
                );
                s1.with_node(
                    n as int,
                    NodeView { dependents: s1.nodes[n as int].dependents.push(o), ..s1.nodes[n as int] },
                )
            },
            None => self,
        }
    }

    /// The state after node `n` forgot its dependencies, and every node
    /// forgot `n` as a dependent.
    pub open spec fn without_dependencies(self, n: usize) -> ContextView<A> {
        ContextView {
            nodes: Seq::new(
                self.nodes.len(),
                |i: int|
                    NodeView {
                        dependencies: if i == n {
                            Seq::empty()
                        } else {
                            self.nodes[i].dependencies
                        },
                        dependents: without(self.nodes[i].dependents, n),
                        ..self.nodes[i]
                    },
            ),
            ..self
        }
    }

    /// The state with one more transaction open.
    pub open spec fn batch_opened(self) -> ContextView<A> {
        ContextView { transaction_depth: (self.transaction_depth + 1) as usize, ..self }
    }

    /// The state with the transaction opened last closed.
    pub open spec fn batch_closed(self) -> ContextView<A> {
        ContextView { transaction_depth: (self.transaction_depth - 1) as usize, ..self }
    }

    /// Makes `n` the node in progress, remembering the previous one.
    pub open spec fn entered(self, n: usize) -> ContextView<A> {
        ContextView {
            in_node: Some(n),
            outer_nodes: self.outer_nodes.push(self.in_node),
            ..self
        }
    }

    /// Returns to the node that was in progress before the last `entered`.
    pub open spec fn exited(self) -> ContextView<A> {
        ContextView {
            in_node: self.outer_nodes.last(),
            outer_nodes: self.outer_nodes.drop_last(),
            ..self
        }
    }
}

impl<A> Context<A> {
    /// An empty runtime: no nodes, no open transaction, nothing in progress.
    pub fn new() -> (r: Context<A>)
        ensures
            r@.wf(),
            r@.transaction_depth == 0,
            r@.in_node is None,
            r@.outer_nodes.len() == 0,
            r@.to_be_updated.len() == 0,
            r@.reset_visited_flags.len() == 0,
            r@.clear_dirty_flags.len() == 0,
            r@.effects.len() == 0,
            !r@.propagating,
            r@.pending_effects.len() == 0,
            r@.running is None,
            r@.nodes.len() == 0,
    {
        Context {
            transaction_depth: 0,
            in_node: None,
            outer_nodes: Vec::new(),
            to_be_updated: Vec::new(),
            reset_visited_flags: Vec::new(),
            clear_dirty_flags: Vec::new(),
            effects: Vec::new(),
            nodes: Vec::new(),
            propagating: false,
            pending_effects: Vec::new(),
            running: None,
        }
    }

    /// Enters the computation of `node`: reads from now on are recorded as
    /// dependencies of `node`, until [`Context::exit_node`].
    pub fn in_node(&mut self, node: usize)
        requires
            old(self)@.wf(),
            old(self)@.valid(node as int),
        ensures
            final(self)@ == old(self)@.entered(node),
            final(self)@.wf(),
    {
        let outer = self.in_node;
        self.outer_nodes.push(outer);
        self.in_node = Some(node);
        proof {
            let ov = old(self)@.outer_nodes;
            assert forall|k: int| 0 <= k < self@.outer_nodes.len() implies (
            #[trigger] self@.outer_nodes[k] matches Some(i) ==> self@.valid(i as int)) by {
                if k < ov.len() {
                    assert(self@.outer_nodes[k] == ov[k]);
                }
            }
        }
    }

    /// Leaves the computation entered last, restoring the node that was in
    /// progress before it.
    pub fn exit_node(&mut self)
        requires
            old(self)@.wf(),
            old(self)@.outer_nodes.len() > 0,
        ensures
            final(self)@ == old(self)@.exited(),
            final(self)@.wf(),
    {
        let outer = self.outer_nodes.pop();
        match outer {
            Some(o) => {
                self.in_node = o;
            },
            None => {},
        }
    }

    /// The node whose computation is in progress.
    pub fn outer_node(&self) -> (r: Option<usize>)
        ensures
            r == self@.in_node,
    {
        self.in_node
    }

    /// Opens a transaction: writes made until the matching
    /// [`Context::end_batch`] are propagated together.
    pub fn batch(&mut self)
        requires
            old(self)@.wf(),
            old(self)@.transaction_depth < usize::MAX,
        ensures
            final(self)@ == old(self)@.batch_opened(),
            final(self)@.wf(),
    {
        self.transaction_depth = self.transaction_depth + 1;
    }

    /// Closes the transaction opened last; returns whether it was the
    /// outermost one, in which case a propagation is due.
    pub fn end_batch(&mut self) -> (outermost: bool)
        requires
            old(self)@.wf(),
            old(self)@.transaction_depth > 0,
            old(self)@.propagating ==> old(self)@.transaction_depth > 1,
        ensures
            final(self)@ == old(self)@.batch_closed(),
            final(self)@.wf(),
            outermost == (final(self)@.transaction_depth == 0),
    {
        self.transaction_depth = self.transaction_depth - 1;
        self.transaction_depth == 0
    }

    /// Schedules every node of `nodes` for an update (the last one first).
    pub fn mark_nodes_to_be_updated(&mut self, nodes: &Vec<usize>)
        requires
            old(self)@.wf(),
            old(self)@.ids_valid(nodes@),
        ensures
            final(self)@ == (ContextView {
                to_be_updated: old(self)@.to_be_updated + nodes@,
                ..old(self)@
            }),
            final(self)@.wf(),
    {
        let mut i: usize = 0;
        while i < nodes.len()
            invariant
                0 <= i <= nodes@.len(),
                self@ == (ContextView {
                    to_be_updated: old(self)@.to_be_updated + nodes@.take(i as int),
                    ..old(self)@
                }),
                old(self)@.wf(),
                old(self)@.ids_valid(nodes@),
            decreases nodes@.len() - i,
        {
            self.to_be_updated.push(nodes[i]);
            assert(nodes@.take(i + 1) == nodes@.take(i as int).push(nodes@[i as int]));
            i = i + 1;
        }
        assert(nodes@.take(i as int) == nodes@);
    }

    /// Clears the `visited` flag of `node` when the current round ends.
    pub fn reset_visited_flag_at_end(&mut self, node: usize)
        requires
            old(self)@.wf(),
            old(self)@.valid(node as int),
        ensures
            final(self)@ == (ContextView {
                reset_visited_flags: old(self)@.reset_visited_flags.push(node),
                ..old(self)@
            }),
            final(self)@.wf(),
    {
        self.reset_visited_flags.push(node);
    }

    /// Clears the `dirty` flag of `node` when the current round ends.
    pub fn clear_dirty_flag_at_end(&mut self, node: usize)
        requires
            old(self)@.wf(),
            old(self)@.valid(node as int),
        ensures
            final(self)@ == (ContextView {
                clear_dirty_flags: old(self)@.clear_dirty_flags.push(node),
                ..old(self)@
            }),
            final(self)@.wf(),
    {
        self.clear_dirty_flags.push(node);
    }

    /// Queues the effect `effect` to run when the current round ends.
    pub fn push_effect(&mut self, effect: usize)
        requires
            old(self)@.wf(),
            old(self)@.valid(effect as int),
            old(self)@.is_effect(effect as int),
        ensures
            final(self)@ == (ContextView { effects: old(self)@.effects.push(effect), ..old(self)@ }),
            final(self)@.wf(),
    {
        self.effects.push(effect);
    }
}


impl<A> Context<A> {
    /// Adds `node` to the arena and returns its index.
    pub fn add_node(&mut self, node: NodeWithValue<A>) -> (id: usize)
        requires
            old(self)@.wf(),
            node.node@.dependencies.len() == 0,
            node.node@.dependents.len() == 0,
            old(self)@.ids_valid(node.node@.owned),
            node.node.update_op is None ==> node.value is Some,
            !node.node.visited,
            !node.node.dirty,
        ensures
            id == old(self)@.nodes.len(),
            final(self)@ == old(self)@.with_new_node(node.value, node.node@),
            final(self)@.wf(),
    {
        let ghost v0 = self@;
        let id: usize = self.nodes.len();
        self.nodes.push(node);
        proof {
            let v = self@;
            assert(v.values =~= v0.values.push(node.value));
            assert(v.nodes =~= v0.nodes.push(node.node@));
            assert(self.nodes@.len() == self.nodes.len());
            assert forall|k: int| 0 <= k < v.effects.len() implies v.valid(#[trigger] v.effects[k] as int) && v.is_effect(v.effects[k] as int) by {
                assert(v.nodes[v.effects[k] as int] == v0.nodes[v0.effects[k] as int]);
            }
            assert forall|k: int| 0 <= k < v.pending_effects.len() implies v.valid(#[trigger] v.pending_effects[k] as int) && v.is_effect(v.pending_effects[k] as int) by {
                assert(v.nodes[v.pending_effects[k] as int] == v0.nodes[v0.pending_effects[k] as int]);
            }
            if let Some(r) = v.running {
                assert(v.nodes[r as int] == v0.nodes[r as int]);
            }
            assert forall|i: int| #![trigger v.nodes[i]] v.valid(i) implies {
                &&& v.ids_valid(v.nodes[i].dependencies)
                &&& v.ids_valid(v.nodes[i].dependents)
                &&& v.ids_valid(v.nodes[i].owned)
            } by {
                if i < id {
                    assert(v.nodes[i] == v0.nodes[i]);
                    assert(v0.ids_valid(v0.nodes[i].dependencies));
                    assert(v0.ids_valid(v0.nodes[i].dependents));
                    assert(v0.ids_valid(v0.nodes[i].owned));
                }
            }
            assert forall|i: int, j: int|
                #![trigger v.nodes[i].dependencies.contains(j as usize)]
                #![trigger v.nodes[j].dependents.contains(i as usize)]
                v.valid(i) && v.valid(j) implies (v.nodes[i].dependencies.contains(j as usize)
                <==> v.nodes[j].dependents.contains(i as usize)) by {
                if i < id && j < id {
                    assert(v.nodes[i] == v0.nodes[i]);
                    assert(v.nodes[j] == v0.nodes[j]);
                } else if i < id {
                    assert(v.nodes[i] == v0.nodes[i]);
                    assert(v0.ids_valid(v0.nodes[i].dependencies));
                    if v.nodes[i].dependencies.contains(j as usize) {
                        let k = choose|k: int| 0 <= k < v0.nodes[i].dependencies.len() && v0.nodes[i].dependencies[k] == j as usize;
                        assert(v0.valid(v0.nodes[i].dependencies[k] as int));
                    }
                } else if j < id {
                    assert(v.nodes[j] == v0.nodes[j]);
                    assert(v0.ids_valid(v0.nodes[j].dependents));
                    if v.nodes[j].dependents.contains(i as usize) {
                        let k = choose|k: int| 0 <= k < v0.nodes[j].dependents.len() && v0.nodes[j].dependents[k] == i as usize;
                        assert(v0.valid(v0.nodes[j].dependents[k] as int));
                    }
                }
            }
            assert forall|i: int| #![trigger v.values[i]] v.valid(i) && v.nodes[i].update_op is None implies v.values[i] is Some by {
                if i < id {
                    assert(v.values[i] == v0.values[i]);
                }
            }
        }
        id
    }

    /// Records that the value of `node` was taken: when a node is in
    /// progress, `node` becomes one of its dependencies.
    pub fn record_read(&mut self, node: usize)
        requires
            old(self)@.wf(),
            old(self)@.valid(node as int),
            old(self)@.alive(node as int),
        ensures
            final(self)@ == old(self)@.with_read(node),
            final(self)@.wf(),
    {
        let ghost v0 = self@;
        match self.in_node {
            Some(o) => {
                self.nodes[o].node.dependencies.push(node);
                let ghost v1 = self@;
                proof {
                    assert(v1.nodes =~= v0.nodes.update(
                        o as int,
                        NodeView { dependencies: v0.nodes[o as int].dependencies.push(node), ..v0.nodes[o as int] },
                    ));
                    assert(v1.values =~= v0.values);
                }
                self.nodes[node].node.dependents.push(o);
                proof {
                    let v = self@;
                    assert(v.nodes =~= v1.nodes.update(
                        node as int,
                        NodeView { dependents: v1.nodes[node as int].dependents.push(o), ..v1.nodes[node as int] },
                    ));
                    assert(v.values =~= v0.values);
                    assert(v == v0.with_read(node));
                    self.lemma_read_wf(v0, node, o);
                }
            },
            None => {},
        }
    }

    proof fn lemma_read_wf(&self, v0: ContextView<A>, n: usize, o: usize)
        requires
            v0.wf(),
            v0.valid(n as int),
            v0.in_node == Some(o),
            self@ == v0.with_read(n),
        ensures
            self@.wf(),
    {
        let v = self@;
        assert(v0.valid(o as int));
        assert forall|i: int| #![trigger v.nodes[i]] v.valid(i) implies {
            &&& v.ids_valid(v.nodes[i].dependencies)
            &&& v.ids_valid(v.nodes[i].dependents)
            &&& v.ids_valid(v.nodes[i].owned)
        } by {
            assert(v0.ids_valid(v0.nodes[i].dependencies));
            assert(v0.ids_valid(v0.nodes[i].dependents));
            assert(v0.ids_valid(v0.nodes[i].owned));
            assert(v.nodes[i].owned == v0.nodes[i].owned);
            assert forall|k: int| 0 <= k < v.nodes[i].dependencies.len() implies v.valid(#[trigger] v.nodes[i].dependencies[k] as int) by {
                if k < v0.nodes[i].dependencies.len() {
                    assert(v.nodes[i].dependencies[k] == v0.nodes[i].dependencies[k]);
                }
            }
            assert forall|k: int| 0 <= k < v.nodes[i].dependents.len() implies v.valid(#[trigger] v.nodes[i].dependents[k] as int) by {
                if k < v0.nodes[i].dependents.len() {
                    assert(v.nodes[i].dependents[k] == v0.nodes[i].dependents[k]);
                }
            }
        }
        assert forall|i: int, j: int|
            #![trigger v.nodes[i].dependencies.contains(j as usize)]
            #![trigger v.nodes[j].dependents.contains(i as usize)]
            v.valid(i) && v.valid(j) implies (v.nodes[i].dependencies.contains(j as usize)
            <==> v.nodes[j].dependents.contains(i as usize)) by {
            assert(v0.nodes[i].dependencies.contains(j as usize) <==> v0.nodes[j].dependents.contains(i as usize));
            let di = v0.nodes[i].dependencies;
            let dj = v0.nodes[j].dependents;
            if i == o {
                assert(v.nodes[i].dependencies == di.push(n));
                assert(di.push(n).contains(j as usize) <==> (di.contains(j as usize) || j == n)) by {
                    if di.push(n).contains(j as usize) && j != n {
                        let k = choose|k: int| 0 <= k < di.push(n).len() && di.push(n)[k] == j as usize;
                        assert(di[k] == j as usize);
                    }
                    if di.contains(j as usize) {
                        let k = choose|k: int| 0 <= k < di.len() && di[k] == j as usize;
                        assert(di.push(n)[k] == j as usize);
                    }
                    assert(di.push(n)[di.len() as int] == n);
                }
            } else {
                assert(v.nodes[i].dependencies == di);
            }
            if j == n {
                assert(v.nodes[j].dependents == dj.push(o));
                assert(dj.push(o).contains(i as usize) <==> (dj.contains(i as usize) || i == o)) by {
                    if dj.push(o).contains(i as usize) && i != o {
                        let k = choose|k: int| 0 <= k < dj.push(o).len() && dj.push(o)[k] == i as usize;
                        assert(dj[k] == i as usize);
                    }
                    if dj.contains(i as usize) {
                        let k = choose|k: int| 0 <= k < dj.len() && dj[k] == i as usize;
                        assert(dj.push(o)[k] == i as usize);
                    }
                    assert(dj.push(o)[dj.len() as int] == o);
                }
            } else {
                assert(v.nodes[j].dependents == dj);
            }
        }
        assert forall|i: int| #![trigger v.values[i]] v.valid(i) && v.nodes[i].update_op is None implies v.values[i] is Some by {
            assert(v0.nodes[i].update_op == v.nodes[i].update_op);
        }
    }
}


impl<A> ContextView<A> {
    /// The control part of the state: everything but the nodes and values.
    pub open spec fn same_control(self, other: ContextView<A>) -> bool {
        &&& self.transaction_depth == other.transaction_depth
        &&& self.in_node == other.in_node
        &&& self.outer_nodes == other.outer_nodes
        &&& self.to_be_updated == other.to_be_updated
        &&& self.reset_visited_flags == other.reset_visited_flags
        &&& self.clear_dirty_flags == other.clear_dirty_flags
        &&& self.effects == other.effects
        &&& self.propagating == other.propagating
        &&& self.pending_effects == other.pending_effects
        &&& self.running == other.running
    }

    /// A state whose graph is well formed, and that differs from a well
    /// formed state only in the edges and flags of its nodes, is well formed.
    pub proof fn lemma_wf_from_graph(v0: ContextView<A>, v: ContextView<A>)
        requires
            v0.wf(),
            v.graph_wf(),
            v.same_control(v0),
            v.nodes.len() == v0.nodes.len(),
            forall|i: int| 0 <= i < v.nodes.len() ==> (#[trigger] v.nodes[i]).update_op == v0.nodes[i].update_op,
            v.flags_noted(),
        ensures
            v.wf(),
    {
        assert forall|k: int| 0 <= k < v.effects.len() implies v.valid(#[trigger] v.effects[k] as int) && v.is_effect(v.effects[k] as int) by {
            assert(v.nodes[v.effects[k] as int].update_op == v0.nodes[v0.effects[k] as int].update_op);
        }
        assert forall|k: int| 0 <= k < v.pending_effects.len() implies v.valid(#[trigger] v.pending_effects[k] as int) && v.is_effect(v.pending_effects[k] as int) by {
            assert(v.nodes[v.pending_effects[k] as int].update_op == v0.nodes[v0.pending_effects[k] as int].update_op);
        }
        if let Some(r) = v.running {
            assert(v.nodes[r as int].update_op == v0.nodes[r as int].update_op);
        }
    }
}

impl<A> ContextView<A> {
    /// A state that differs from a well formed one only in the flags and
    /// handle counts of its nodes and in their values (a value once present
    /// staying present) is well formed.
    pub proof fn lemma_wf_same_shape(v0: ContextView<A>, v: ContextView<A>)
        requires
            v0.wf(),
            v.same_control(v0),
            v.nodes.len() == v0.nodes.len(),
            v.values.len() == v0.values.len(),
            forall|i: int|
                #![trigger v.nodes[i]]
                0 <= i < v.nodes.len() ==> {
                    &&& v.nodes[i].dependencies == v0.nodes[i].dependencies
                    &&& v.nodes[i].dependents == v0.nodes[i].dependents
                    &&& v.nodes[i].owned == v0.nodes[i].owned
                    &&& v.nodes[i].update_op == v0.nodes[i].update_op
                },
            forall|i: int| 0 <= i < v.values.len() && v0.values[i] is Some ==> (#[trigger] v.values[i]) is Some,
            v.flags_noted(),
        ensures
            v.wf(),
    {
        assert forall|i: int| #![trigger v.nodes[i]] v.valid(i) implies {
            &&& v.ids_valid(v.nodes[i].dependencies)
            &&& v.ids_valid(v.nodes[i].dependents)
            &&& v.ids_valid(v.nodes[i].owned)
        } by {
            assert(v0.ids_valid(v0.nodes[i].dependencies));
            assert(v0.ids_valid(v0.nodes[i].dependents));
            assert(v0.ids_valid(v0.nodes[i].owned));
        }
        assert forall|i: int, j: int|
            #![trigger v.nodes[i].dependencies.contains(j as usize)]
            #![trigger v.nodes[j].dependents.contains(i as usize)]
            v.valid(i) && v.valid(j) implies (v.nodes[i].dependencies.contains(j as usize)
            <==> v.nodes[j].dependents.contains(i as usize)) by {
            assert(v0.nodes[i].dependencies.contains(j as usize) <==> v0.nodes[j].dependents.contains(i as usize));
            assert(v.nodes[i].dependencies == v0.nodes[i].dependencies);
            assert(v.nodes[j].dependents == v0.nodes[j].dependents);
        }
        assert forall|i: int| #![trigger v.values[i]] v.valid(i) && v.nodes[i].update_op is None implies v.values[i] is Some by {
            assert(v.nodes[i].update_op == v0.nodes[i].update_op);
        }
        ContextView::lemma_wf_from_graph(v0, v);
    }
}

/// A copy of `v`.
pub(crate) fn copy_ids(v: &Vec<usize>) -> (r: Vec<usize>)
    ensures
        r@ == v@,
{
    let mut r: Vec<usize> = Vec::new();
    let mut i: usize = 0;
    while i < v.len()
        invariant
            0 <= i <= v@.len(),
            r@ == v@.take(i as int),
        decreases v@.len() - i,
    {
        r.push(v[i]);
        assert(v@.take(i + 1) == v@.take(i as int).push(v@[i as int]));
        i = i + 1;
    }
    assert(v@.take(i as int) == v@);
    r
}

impl<A> Context<A> {
    /// Forgets the dependencies of `n`: each of them stops listing `n` as a
    /// dependent, and the dependency list of `n` is emptied.
    pub fn clear_dependencies(&mut self, n: usize)
        requires
            old(self)@.wf(),
            old(self)@.valid(n as int),
        ensures
            final(self)@ == old(self)@.without_dependencies(n),
            final(self)@.wf(),
    {
        let ghost v0 = self@;
        let ghost p = |x: usize| x != n;
        let deps = copy_ids(&self.nodes[n].node.dependencies);
        let mut k: usize = 0;
        while k < deps.len()
            invariant
                0 <= k <= deps@.len(),
                deps@ == v0.nodes[n as int].dependencies,
                v0.wf(),
                v0.valid(n as int),
                self@.same_control(v0),
                self@.values == v0.values,
                self@.nodes.len() == v0.nodes.len(),
                forall|i: int|
                    #![trigger self@.nodes[i]]
                    0 <= i < v0.nodes.len() ==> self@.nodes[i] == (NodeView {
                        dependents: if deps@.take(k as int).contains(i as usize) {
                            without(v0.nodes[i].dependents, n)
                        } else {
                            v0.nodes[i].dependents
                        },
                        ..v0.nodes[i]
                    }),
            decreases deps@.len() - k,
        {
            let d = deps[k];
            proof {
                assert(v0.ids_valid(v0.nodes[n as int].dependencies));
                assert(v0.valid(deps@[k as int] as int));
            }
            let filtered = remove_all(&self.nodes[d].node.dependents, n);
            let ghost vb = self@;
            let ghost nb = self.nodes@;
            self.nodes[d].node.dependents = filtered;
            proof {
                let v = self@;
                let ndk = deps@.take(k + 1);
                assert(ndk == deps@.take(k as int).push(d));
                assert(self.nodes@ == nb.update(d as int, self.nodes@[d as int]));
                let f = without(v0.nodes[d as int].dependents, n);
                if deps@.take(k as int).contains(d) {
                    assert(!f.contains(n)) by {
                        lemma_filter_contains(v0.nodes[d as int].dependents, n, n);
                    }
                    lemma_filter_absent(f, n);
                    assert(vb.nodes[d as int].dependents == f);
                    assert(filtered@ == f);
                } else {
                    assert(vb.nodes[d as int].dependents == v0.nodes[d as int].dependents);
                    assert(filtered@ == f);
                }
                assert forall|i: int|
                    #![trigger v.nodes[i]]
                    0 <= i < v0.nodes.len() implies v.nodes[i] == (NodeView {
                        dependents: if ndk.contains(i as usize) {
                            without(v0.nodes[i].dependents, n)
                        } else {
                            v0.nodes[i].dependents
                        },
                        ..v0.nodes[i]
                    }) by {
                    assert(vb.nodes[i] == nb[i].node@);
                    if i != d as int {
                        assert(v.nodes[i] == vb.nodes[i]);
                        assert(ndk.contains(i as usize) == deps@.take(k as int).contains(i as usize));
                    } else {
                        assert(ndk.contains(i as usize));
                        assert(v.nodes[i] =~= NodeView { dependents: f, ..vb.nodes[i] });
                    }
                }
                assert(v.values =~= vb.values);
            }
            k = k + 1;
        }
        let ghost vm = self@;
        let ghost nm = self.nodes@;
        self.nodes[n].node.dependencies = Vec::new();
        proof {
            let v = self@;
            assert(self.nodes@ == nm.update(n as int, self.nodes@[n as int]));
            let target = v0.without_dependencies(n);
            assert(deps@.take(k as int) == deps@);
            assert forall|i: int| #![trigger v.nodes[i]] 0 <= i < v.nodes.len() implies v.nodes[i] == target.nodes[i] by {
                assert(vm.nodes[i] == nm[i].node@);
                if i != n as int {
                    assert(v.nodes[i] == vm.nodes[i]);
                }
                assert(v.nodes[i].dependencies =~= target.nodes[i].dependencies);
                if !deps@.contains(i as usize) {
                    assert(!v0.nodes[i].dependents.contains(n)) by {
                        assert(v0.nodes[n as int].dependencies.contains(i as usize) <==> v0.nodes[i].dependents.contains(n));
                    }
                    lemma_filter_absent(v0.nodes[i].dependents, n);
                }
                assert(v.nodes[i] =~= target.nodes[i]);
            }
            assert(v.nodes =~= target.nodes);
            assert(v.values =~= target.values);
            assert(v == target);
            Self::lemma_without_dependencies_wf(v0, n);
        }
    }

    proof fn lemma_without_dependencies_wf(v0: ContextView<A>, n: usize)
        requires
            v0.wf(),
            v0.valid(n as int),
        ensures
            v0.without_dependencies(n).wf(),
    {
        let v = v0.without_dependencies(n);
        assert forall|i: int| #![trigger v.nodes[i]] v.valid(i) implies v.nodes[i] == (NodeView {
            dependencies: if i == n {
                Seq::empty()
            } else {
                v0.nodes[i].dependencies
            },
            dependents: without(v0.nodes[i].dependents, n),
            ..v0.nodes[i]
        }) by {}
        assert forall|i: int| #![trigger v.nodes[i]] v.valid(i) implies {
            &&& v.ids_valid(v.nodes[i].dependencies)
            &&& v.ids_valid(v.nodes[i].dependents)
            &&& v.ids_valid(v.nodes[i].owned)
        } by {
            assert(v0.ids_valid(v0.nodes[i].dependencies));
            assert(v0.ids_valid(v0.nodes[i].dependents));
            assert(v0.ids_valid(v0.nodes[i].owned));
            let f = without(v0.nodes[i].dependents, n);
            assert forall|k: int| 0 <= k < f.len() implies v.valid(#[trigger] f[k] as int) by {
                assert(f.contains(f[k]));
                lemma_filter_contains(v0.nodes[i].dependents, n, f[k]);
                let m = choose|m: int| 0 <= m < v0.nodes[i].dependents.len() && v0.nodes[i].dependents[m] == f[k];
                assert(v0.valid(v0.nodes[i].dependents[m] as int));
            }
        }
        assert forall|i: int, j: int|
            #![trigger v.nodes[i].dependencies.contains(j as usize)]
            #![trigger v.nodes[j].dependents.contains(i as usize)]
            v.valid(i) && v.valid(j) implies (v.nodes[i].dependencies.contains(j as usize)
            <==> v.nodes[j].dependents.contains(i as usize)) by {
            assert(v0.nodes[i].dependencies.contains(j as usize) <==> v0.nodes[j].dependents.contains(i as usize));
            lemma_filter_contains(v0.nodes[j].dependents, n, i as usize);
        }
        assert forall|i: int| #![trigger v.values[i]] v.valid(i) && v.nodes[i].update_op is None implies v.values[i] is Some by {
            assert(v0.nodes[i].update_op == v.nodes[i].update_op);
        }
        assert(v.flags_noted()) by {
            assert forall|i: int| v.valid(i) && (#[trigger] v.nodes[i]).visited implies v.reset_visited_flags.contains(i as usize) by {
                assert(v0.nodes[i].visited);
            }
            assert forall|i: int| v.valid(i) && (#[trigger] v.nodes[i]).dirty implies v.clear_dirty_flags.contains(i as usize) by {
                assert(v0.nodes[i].dirty);
            }
        }
        ContextView::lemma_wf_from_graph(v0, v);
    }
}

} // verus!
