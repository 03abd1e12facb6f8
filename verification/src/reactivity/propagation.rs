use vstd::prelude::*;

use super::context::{Context, ContextView, Step, UpdateOutcome, copy_ids};
use super::node::{NodeView, UpdateOp};

verus! {

broadcast use {vstd::seq_lib::group_seq_properties, vstd::seq_lib::group_filter_ensures};

impl<A> ContextView<A> {
    /// The predicate "not visited in this round".
    pub open spec fn unvisited(self) -> spec_fn(usize) -> bool {
        |d: usize| !self.nodes[d as int].visited
    }

    pub open spec fn all_dependencies_visited(self, n: int) -> bool {
        forall|k: int|
            0 <= k < self.nodes[n].dependencies.len() ==> self.nodes[#[trigger] self.nodes[n].dependencies[k] as int].visited
    }

    pub open spec fn any_dependency_dirty(self, n: int) -> bool {
        exists|k: int|
            0 <= k < self.nodes[n].dependencies.len() && self.nodes[#[trigger] self.nodes[n].dependencies[k] as int].dirty
    }

    /// The state after node `n` was brought up to date: if it changed, its
    /// dependents are scheduled; it is marked visited until the round ends.
    pub open spec fn finished(self, n: usize) -> ContextView<A> {
        let nd = self.nodes[n as int];
        ContextView {
            to_be_updated: if nd.dirty {
                self.to_be_updated + nd.dependents
            } else {
                self.to_be_updated
            },
            reset_visited_flags: self.reset_visited_flags.push(n),
            nodes: self.nodes.update(n as int, NodeView { visited: true, ..nd }),
            ..self
        }
    }

    /// What [`Context::update_node`] does to node `n`, and how it reports it.
    pub open spec fn update_node_spec(self, n: usize) -> (ContextView<A>, UpdateOutcome) {
        let nd = self.nodes[n as int];
        if nd.visited {
            (self, UpdateOutcome::Skipped)
        } else if !self.all_dependencies_visited(n as int) {
            (
                ContextView {
                    to_be_updated: seq![n] + (self.to_be_updated + nd.dependencies.filter(
                        self.unvisited(),
                    )),
                    ..self
                },
                UpdateOutcome::Deferred,
            )
        } else if self.any_dependency_dirty(n as int) && nd.update_op matches Some(
            UpdateOp::Recompute { .. },
        ) {
            (
                ContextView { running: Some(n), ..self.without_dependencies(n).entered(n) },
                UpdateOutcome::NeedsRecompute,
            )
        } else if self.any_dependency_dirty(n as int) && nd.update_op matches Some(
            UpdateOp::ScheduleEffect,
        ) {
            (ContextView { effects: self.effects.push(n), ..self }.finished(n), UpdateOutcome::Finished)
        } else {
            (self.finished(n), UpdateOutcome::Finished)
        }
    }

    /// Whether memo `n` reports a change when its recomputation gives a
    /// value that its equality judged `same` as the old one.
    pub open spec fn reports_change(self, n: usize, same: bool) -> bool {
        match self.nodes[n as int].update_op {
            Some(UpdateOp::Recompute { calmed }) => !(calmed && same),
            _ => true,
        }
    }

    /// The state after the recomputation of memo `n` produced `value`.
    pub open spec fn completed_update(self, n: usize, value: A, same: bool) -> ContextView<A> {
        let s1 = ContextView { running: None, ..self.exited() };
        let s2 = if self.reports_change(n, same) {
            ContextView {
                values: s1.values.update(n as int, Some(value)),
                nodes: s1.nodes.update(n as int, NodeView { dirty: true, ..s1.nodes[n as int] }),
                clear_dirty_flags: s1.clear_dirty_flags.push(n),
                ..s1
            }
        } else {
            s1
        };
        s2.finished(n)
    }

    /// The state at the end of a round: the flags noted for clearing are
    /// cleared, the queued effects become pending, and the propagation ends
    /// when there is none.
    pub open spec fn round_ended(self) -> ContextView<A> {
        let s1 = ContextView {
            nodes: Seq::new(
                self.nodes.len(),
                |i: int|
                    NodeView {
                        visited: if self.reset_visited_flags.contains(i as usize) {
                            false
                        } else {
                            self.nodes[i].visited
                        },
                        dirty: if self.clear_dirty_flags.contains(i as usize) {
                            false
                        } else {
                            self.nodes[i].dirty
                        },
                        ..self.nodes[i]
                    },
            ),
            reset_visited_flags: Seq::empty(),
            clear_dirty_flags: Seq::empty(),
            pending_effects: self.effects,
            effects: Seq::empty(),
            ..self
        };
        if s1.pending_effects.len() == 0 {
            ContextView {
                transaction_depth: (s1.transaction_depth - 1) as usize,
                propagating: false,
                ..s1
            }
        } else {
            s1
        }
    }

    /// The state when a propagation starts.
    pub open spec fn started(self) -> ContextView<A> {
        ContextView {
            transaction_depth: (self.transaction_depth + 1) as usize,
            propagating: true,
            ..self
        }
    }

    /// One step of propagation, and what the caller must do next.
    pub open spec fn next_step(self) -> (ContextView<A>, Step) {
        if self.running is Some || (!self.propagating && self.transaction_depth > 0) {
            (self, Step::Idle)
        } else {
            let s0 = if self.propagating {
                self
            } else {
                self.started()
            };
            if s0.pending_effects.len() > 0 {
                let e = s0.pending_effects[0];
                let s1 = ContextView { pending_effects: s0.pending_effects.drop_first(), ..s0 };
                (ContextView { running: Some(e), ..s1.without_dependencies(e).entered(e) }, Step::RunEffect(e))
            } else if s0.to_be_updated.len() > 0 {
                let n = s0.to_be_updated.last();
                let s1 = ContextView { to_be_updated: s0.to_be_updated.drop_last(), ..s0 };
                if s1.alive(n as int) {
                    let (s2, out) = s1.update_node_spec(n);
                    (
                        s2,
                        if out is NeedsRecompute {
                            Step::Recompute(n)
                        } else {
                            Step::Continue
                        },
                    )
                } else {
                    (s1, Step::Continue)
                }
            } else {
                let s1 = s0.round_ended();
                (
                    s1,
                    if s1.propagating {
                        Step::Continue
                    } else {
                        Step::Idle
                    },
                )
            }
        }
    }
}

impl<A> ContextView<A> {
    /// What [`Context::update_node`] leaves alone: values, handles, update
    /// operations, owned nodes and visited flags; dependencies only shrink,
    /// and the only node that may become queued or in progress is `n`.
    pub proof fn lemma_update_node_frame(self, n: usize)
        requires
            self.wf(),
            self.valid(n as int),
        ensures
            ({
                let r = self.update_node_spec(n).0;
                &&& r.values == self.values
                &&& r.nodes.len() == self.nodes.len()
                &&& forall|i: int|
                    0 <= i < self.nodes.len() ==> {
                        &&& (#[trigger] r.nodes[i]).handles == self.nodes[i].handles
                        &&& r.nodes[i].update_op == self.nodes[i].update_op
                        &&& r.nodes[i].owned == self.nodes[i].owned
                        &&& (self.nodes[i].visited ==> r.nodes[i].visited)
                        &&& forall|b: usize|
                            #[trigger] r.nodes[i].dependencies.contains(b)
                                ==> self.nodes[i].dependencies.contains(b)
                    }
                &&& r.pending_effects == self.pending_effects
                &&& forall|i: usize| #[trigger] r.effects.contains(i) ==> self.effects.contains(i) || i == n
                &&& (r.running == self.running || r.running == Some(n))
            }),
    {
        let nd = self.nodes[n as int];
        let r = self.update_node_spec(n).0;
        if nd.visited {
        } else if !self.all_dependencies_visited(n as int) {
        } else if self.any_dependency_dirty(n as int) && nd.update_op matches Some(
            UpdateOp::Recompute { .. },
        ) {
            let w = self.without_dependencies(n);
            assert forall|i: int| 0 <= i < self.nodes.len() implies {
                &&& (#[trigger] r.nodes[i]).handles == self.nodes[i].handles
                &&& r.nodes[i].update_op == self.nodes[i].update_op
                &&& r.nodes[i].owned == self.nodes[i].owned
                &&& (self.nodes[i].visited ==> r.nodes[i].visited)
                &&& forall|b: usize|
                    #[trigger] r.nodes[i].dependencies.contains(b)
                        ==> self.nodes[i].dependencies.contains(b)
            } by {
                assert(r.nodes[i] == w.nodes[i]);
            }
        } else if self.any_dependency_dirty(n as int) && nd.update_op matches Some(
            UpdateOp::ScheduleEffect,
        ) {
        } else {
        }
    }

    /// What a step of propagation leaves alone: values, handles, update
    /// operations and owned nodes; dependencies only shrink; and every node
    /// held directly afterwards was alive before.
    pub proof fn lemma_next_step_frame(self)
        requires
            self.wf(),
        ensures
            ({
                let r = self.next_step().0;
                &&& r.values == self.values
                &&& r.nodes.len() == self.nodes.len()
                &&& forall|i: int|
                    0 <= i < self.nodes.len() ==> {
                        &&& (#[trigger] r.nodes[i]).handles == self.nodes[i].handles
                        &&& r.nodes[i].update_op == self.nodes[i].update_op
                        &&& r.nodes[i].owned == self.nodes[i].owned
                        &&& forall|b: usize|
                            #[trigger] r.nodes[i].dependencies.contains(b)
                                ==> self.nodes[i].dependencies.contains(b)
                    }
                &&& forall|i: int| 0 <= i < self.nodes.len() && #[trigger] r.is_root(i) ==> self.alive(i)
            }),
    {
        let r = self.next_step().0;
        if self.running is Some || (!self.propagating && self.transaction_depth > 0) {
            assert forall|i: int| 0 <= i < self.nodes.len() && #[trigger] r.is_root(i) implies self.alive(i) by {
                self.lemma_root_alive(i);
            }
        } else {
            let s0 = if self.propagating {
                self
            } else {
                self.started()
            };
            if s0.pending_effects.len() > 0 {
                let e = s0.pending_effects[0];
                assert(self.valid(e as int));
                let s1 = ContextView { pending_effects: s0.pending_effects.drop_first(), ..s0 };
                let w = s1.without_dependencies(e);
                assert forall|i: int| 0 <= i < self.nodes.len() implies {
                    &&& (#[trigger] r.nodes[i]).handles == self.nodes[i].handles
                    &&& r.nodes[i].update_op == self.nodes[i].update_op
                    &&& r.nodes[i].owned == self.nodes[i].owned
                    &&& forall|b: usize|
                        #[trigger] r.nodes[i].dependencies.contains(b)
                            ==> self.nodes[i].dependencies.contains(b)
                } by {
                    assert(r.nodes[i] == w.nodes[i]);
                }
                assert forall|i: int| 0 <= i < self.nodes.len() && #[trigger] r.is_root(i) implies self.alive(i) by {
                    assert(r.nodes[i] == w.nodes[i]);
                    if r.pending_effects.contains(i as usize) {
                        let k = choose|k: int| 0 <= k < r.pending_effects.len() && r.pending_effects[k] == i as usize;
                        assert(self.pending_effects[k + 1] == i as usize);
                    }
                    if r.running == Some(i as usize) {
                        assert(self.pending_effects[0] == i as usize);
                    }
                    self.lemma_root_alive(i);
                }
            } else if s0.to_be_updated.len() > 0 {
                let n = s0.to_be_updated.last();
                assert(self.valid(n as int));
                let s1 = ContextView { to_be_updated: s0.to_be_updated.drop_last(), ..s0 };
                assert(s1.wf());
                if s1.alive(n as int) {
                    s1.lemma_update_node_frame(n);
                    assert(self.alive(n as int)) by {
                        let p = choose|p: Seq<usize>| #[trigger] s1.is_path(p) && s1.is_root(p[0] as int) && p.last() == n;
                        assert forall|k: int| #![trigger p[k]] 0 <= k < p.len() - 1 implies self.edge(p[k] as int, p[k + 1] as int) by {
                            assert(s1.edge(p[k] as int, p[k + 1] as int));
                        }
                        assert(self.is_path(p));
                        assert(self.is_root(p[0] as int));
                    }
                    assert forall|i: int| 0 <= i < self.nodes.len() && #[trigger] r.is_root(i) implies self.alive(i) by {
                        if i != n as int {
                            assert(s1.is_root(i));
                            self.lemma_root_alive(i);
                        }
                    }
                } else {
                    assert forall|i: int| 0 <= i < self.nodes.len() && #[trigger] r.is_root(i) implies self.alive(i) by {
                        self.lemma_root_alive(i);
                    }
                }
            } else {
                assert forall|i: int| 0 <= i < self.nodes.len() && #[trigger] r.is_root(i) implies self.alive(i) by {
                    self.lemma_root_alive(i);
                }
            }
        }
    }
}

impl<A> Context<A> {
    /// Marks node `n` visited, schedules its dependents when it changed, and
    /// notes its flag for clearing at the end of the round.
    fn finish_node(&mut self, n: usize)
        requires
            old(self)@.wf(),
            old(self)@.valid(n as int),
        ensures
            final(self)@ == old(self)@.finished(n),
            final(self)@.wf(),
    {
        let ghost v0 = self@;
        self.reset_visited_flag_at_end(n);
        let ghost va = self@;
        let ghost nb = self.nodes@;
        self.nodes[n].node.visited = true;
        proof {
            let v = self@;
            assert(self.nodes@ == nb.update(n as int, self.nodes@[n as int]));
            assert(v.nodes =~= va.nodes.update(n as int, NodeView { visited: true, ..va.nodes[n as int] }));
            assert(v.values =~= va.values);
            assert forall|i: int| v.valid(i) && (#[trigger] v.nodes[i]).visited implies v.reset_visited_flags.contains(i as usize) by {
                if i != n as int {
                    assert(va.nodes[i].visited);
                } else {
                    assert(v.reset_visited_flags[v.reset_visited_flags.len() - 1] == n);
                }
            }
            assert forall|i: int| v.valid(i) && (#[trigger] v.nodes[i]).dirty implies v.clear_dirty_flags.contains(i as usize) by {
                assert(va.nodes[i].dirty);
            }
            ContextView::lemma_wf_same_shape(va, v);
        }
        let ghost v1 = self@;
        if self.nodes[n].node.dirty {
            let dependents = copy_ids(&self.nodes[n].node.dependents);
            proof {
                assert(v1.ids_valid(v1.nodes[n as int].dependents));
            }
            self.mark_nodes_to_be_updated(&dependents);
        }
        proof {
            assert(self@ =~= v0.finished(n));
        }
    }
}


impl<A> Context<A> {
    /// Brings node `n` up to date, as far as the runtime can on its own: a
    /// node already visited in this round is skipped; a node with
    /// dependencies not yet visited is put back under them; otherwise, when a
    /// dependency changed, an effect is queued and a memo is handed to the
    /// caller for recomputation.
    pub fn update_node(&mut self, n: usize) -> (r: UpdateOutcome)
        requires
            old(self)@.wf(),
            old(self)@.valid(n as int),
            old(self)@.running is None,
        ensures
            (final(self)@, r) == old(self)@.update_node_spec(n),
            final(self)@.wf(),
    {
        let ghost v0 = self@;
        if self.nodes[n].node.visited {
            return UpdateOutcome::Skipped;
        }
        let deps = copy_ids(&self.nodes[n].node.dependencies);
        proof {
            assert(deps@ == v0.nodes[n as int].dependencies);
            assert(v0.ids_valid(deps@));
        }
        let mut all_done = true;
        let mut k: usize = 0;
        while k < deps.len()
            invariant
                0 <= k <= deps@.len(),
                deps@ == v0.nodes[n as int].dependencies,
                v0.wf(),
                v0.ids_valid(deps@),
                self@ == (ContextView {
                    to_be_updated: v0.to_be_updated + deps@.take(k as int).filter(v0.unvisited()),
                    ..v0
                }),
                all_done == (forall|j: int| 0 <= j < k ==> v0.nodes[#[trigger] deps@[j] as int].visited),
            decreases deps@.len() - k,
        {
            let d: usize = deps[k];
            proof {
                assert(deps@.take(k + 1) == deps@.take(k as int).push(d));
                deps@.take(k as int).lemma_filter_push(d, v0.unvisited());
                assert(v0.valid(d as int));
            }
            if !self.nodes[d].node.visited {
                all_done = false;
                self.to_be_updated.push(d);
            }
            proof {
                assert(self@.to_be_updated =~= v0.to_be_updated + deps@.take(k + 1).filter(v0.unvisited()));
            }
            k = k + 1;
        }
        proof {
            assert(deps@.take(k as int) == deps@);
        }
        if !all_done {
            let ghost tb = self.to_be_updated@;
            self.to_be_updated.insert(0, n);
            proof {
                assert(self.to_be_updated@ =~= seq![n] + tb);
                assert(!v0.all_dependencies_visited(n as int));
                assert forall|j: int| 0 <= j < self@.to_be_updated.len() implies self@.valid(#[trigger] self@.to_be_updated[j] as int) by {
                    if j > 0 {
                        assert(self@.to_be_updated[j] == tb[j - 1]);
                        if j - 1 >= v0.to_be_updated.len() {
                            let f = deps@.filter(v0.unvisited());
                            assert(tb[j - 1] == f[j - 1 - v0.to_be_updated.len()]);
                            assert(f.contains(f[j - 1 - v0.to_be_updated.len()]));
                            deps@.lemma_filter_contains_rev(v0.unvisited(), f[j - 1 - v0.to_be_updated.len()]);
                        }
                    }
                }
            }
            return UpdateOutcome::Deferred;
        }
        proof {
            assert(deps@.filter(v0.unvisited()).len() == 0) by {
                if deps@.filter(v0.unvisited()).len() > 0 {
                    let f = deps@.filter(v0.unvisited());
                    assert(f.contains(f[0]));
                    deps@.lemma_filter_contains_rev(v0.unvisited(), f[0]);
                    assert(v0.unvisited()(f[0]));
                    let j = choose|j: int| 0 <= j < deps@.len() && deps@[j] == f[0];
                    assert(v0.nodes[deps@[j] as int].visited);
                }
            }
            assert(self@ =~= v0);
            assert(v0.all_dependencies_visited(n as int));
        }
        let mut any_dirty = false;
        let mut j: usize = 0;
        while j < deps.len()
            invariant
                0 <= j <= deps@.len(),
                deps@ == v0.nodes[n as int].dependencies,
                v0.wf(),
                v0.ids_valid(deps@),
                self@ == v0,
                any_dirty == (exists|i: int| 0 <= i < j && v0.nodes[#[trigger] deps@[i] as int].dirty),
            decreases deps@.len() - j,
        {
            let d: usize = deps[j];
            proof {
                assert(v0.valid(d as int));
            }
            if self.nodes[d].node.dirty {
                any_dirty = true;
            }
            j = j + 1;
        }
        proof {
            assert(any_dirty == v0.any_dependency_dirty(n as int));
        }
        if any_dirty {
            match self.nodes[n].node.update_op {
                Some(UpdateOp::Recompute { .. }) => {
                    self.clear_dependencies(n);
                    self.in_node(n);
                    self.running = Some(n);
                    return UpdateOutcome::NeedsRecompute;
                },
                Some(UpdateOp::ScheduleEffect) => {
                    self.push_effect(n);
                },
                None => {},
            }
        }
        self.finish_node(n);
        UpdateOutcome::Finished
    }

    /// Ends the recomputation of memo `n`, which produced `value`; `same`
    /// is what the memo's equality says of the old value and `value`. A
    /// calmed memo keeps its old value and reports no change when `same`
    /// holds; otherwise `value` is stored and the memo's dependents are
    /// scheduled.
    pub fn complete_update(&mut self, n: usize, value: A, same: bool)
        requires
            old(self)@.wf(),
            old(self)@.running == Some(n),
            old(self)@.in_node == Some(n),
            old(self)@.outer_nodes.len() > 0,
            old(self)@.nodes[n as int].update_op matches Some(UpdateOp::Recompute { .. }),
        ensures
            final(self)@ == old(self)@.completed_update(n, value, same),
            final(self)@.wf(),
    {
        let ghost v0 = self@;
        self.exit_node();
        self.running = None;
        let calmed = match self.nodes[n].node.update_op {
            Some(UpdateOp::Recompute { calmed }) => calmed,
            _ => false,
        };
        if !(calmed && same) {
            self.clear_dirty_flag_at_end(n);
            let ghost v1 = self@;
            let ghost nb = self.nodes@;
            self.nodes[n].value = Some(value);
            self.nodes[n].node.dirty = true;
            proof {
                let v = self@;
                assert(self.nodes@ == nb.update(n as int, self.nodes@[n as int]));
                assert(v.nodes =~= v1.nodes.update(n as int, NodeView { dirty: true, ..v1.nodes[n as int] }));
                assert(v.values =~= v1.values.update(n as int, Some(value)));
                assert forall|i: int| v.valid(i) && (#[trigger] v.nodes[i]).dirty implies v.clear_dirty_flags.contains(i as usize) by {
                    if i != n as int {
                        assert(v1.nodes[i].dirty);
                    } else {
                        assert(v.clear_dirty_flags[v.clear_dirty_flags.len() - 1] == n);
                    }
                }
                assert forall|i: int| v.valid(i) && (#[trigger] v.nodes[i]).visited implies v.reset_visited_flags.contains(i as usize) by {
                    assert(v1.nodes[i].visited);
                }
                ContextView::lemma_wf_same_shape(v1, v);
            }
        }
        self.finish_node(n);
    }

    /// Ends the run of the body of effect `n`.
    pub fn complete_effect(&mut self, n: usize)
        requires
            old(self)@.wf(),
            old(self)@.running == Some(n),
            old(self)@.in_node == Some(n),
            old(self)@.outer_nodes.len() > 0,
        ensures
            final(self)@ == (ContextView { running: None, ..old(self)@.exited() }),
            final(self)@.wf(),
    {
        self.exit_node();
        self.running = None;
    }

    /// Ends a round of propagation.
    fn end_round(&mut self)
        requires
            old(self)@.wf(),
            old(self)@.propagating,
            old(self)@.pending_effects.len() == 0,
            old(self)@.running is None,
        ensures
            final(self)@ == old(self)@.round_ended(),
            final(self)@.wf(),
    {
        let ghost v0 = self@;
        let mut k: usize = 0;
        while k < self.reset_visited_flags.len()
            invariant
                0 <= k <= v0.reset_visited_flags.len(),
                v0.wf(),
                self@.same_control(v0),
                self@.values == v0.values,
                self@.nodes.len() == v0.nodes.len(),
                forall|i: int|
                    #![trigger self@.nodes[i]]
                    0 <= i < v0.nodes.len() ==> self@.nodes[i] == (NodeView {
                        visited: if v0.reset_visited_flags.take(k as int).contains(i as usize) {
                            false
                        } else {
                            v0.nodes[i].visited
                        },
                        ..v0.nodes[i]
                    }),
            decreases v0.reset_visited_flags.len() - k,
        {
            let i: usize = self.reset_visited_flags[k];
            proof {
                assert(v0.valid(i as int));
                assert(v0.reset_visited_flags.take(k + 1) == v0.reset_visited_flags.take(k as int).push(i));
            }
            let ghost nb = self.nodes@;
            let ghost vb = self@;
            self.nodes[i].node.visited = false;
            proof {
                let v = self@;
                assert(self.nodes@ == nb.update(i as int, self.nodes@[i as int]));
                assert forall|j: int| #![trigger v.nodes[j]] 0 <= j < v0.nodes.len() implies v.nodes[j] == (NodeView {
                    visited: if v0.reset_visited_flags.take(k + 1).contains(j as usize) {
                        false
                    } else {
                        v0.nodes[j].visited
                    },
                    ..v0.nodes[j]
                }) by {
                    assert(vb.nodes[j] == nb[j].node@);
                    if j != i as int {
                        assert(v.nodes[j] == vb.nodes[j]);
                    }
                }
                assert(v.values =~= vb.values);
            }
            k = k + 1;
        }
        self.reset_visited_flags.clear();
        let ghost vr = self@;
        let mut k: usize = 0;
        while k < self.clear_dirty_flags.len()
            invariant
                0 <= k <= v0.clear_dirty_flags.len(),
                v0.wf(),
                self@ == (ContextView { nodes: self@.nodes, ..vr }),
                vr.clear_dirty_flags == v0.clear_dirty_flags,
                self@.nodes.len() == v0.nodes.len(),
                forall|i: int|
                    #![trigger self@.nodes[i]]
                    0 <= i < v0.nodes.len() ==> self@.nodes[i] == (NodeView {
                        dirty: if v0.clear_dirty_flags.take(k as int).contains(i as usize) {
                            false
                        } else {
                            v0.nodes[i].dirty
                        },
                        ..vr.nodes[i]
                    }),
            decreases v0.clear_dirty_flags.len() - k,
        {
            let i: usize = self.clear_dirty_flags[k];
            proof {
                assert(v0.valid(i as int));
                assert(v0.clear_dirty_flags.take(k + 1) == v0.clear_dirty_flags.take(k as int).push(i));
            }
            let ghost nb = self.nodes@;
            let ghost vb = self@;
            self.nodes[i].node.dirty = false;
            proof {
                let v = self@;
                assert(self.nodes@ == nb.update(i as int, self.nodes@[i as int]));
                assert forall|j: int| #![trigger v.nodes[j]] 0 <= j < v0.nodes.len() implies v.nodes[j] == (NodeView {
                    dirty: if v0.clear_dirty_flags.take(k + 1).contains(j as usize) {
                        false
                    } else {
                        v0.nodes[j].dirty
                    },
                    ..vr.nodes[j]
                }) by {
                    assert(vb.nodes[j] == nb[j].node@);
                    if j != i as int {
                        assert(v.nodes[j] == vb.nodes[j]);
                    }
                }
                assert(v.values =~= vb.values);
                assert(v =~= (ContextView { nodes: v.nodes, ..vr }));
            }
            k = k + 1;
        }
        self.clear_dirty_flags.clear();
        std::mem::swap(&mut self.effects, &mut self.pending_effects);
        if self.pending_effects.len() == 0 {
            self.transaction_depth = self.transaction_depth - 1;
            self.propagating = false;
        }
        proof {
            let v = self@;
            let t = v0.round_ended();
            assert(v0.reset_visited_flags.take(v0.reset_visited_flags.len() as int) == v0.reset_visited_flags);
            assert(v0.clear_dirty_flags.take(v0.clear_dirty_flags.len() as int) == v0.clear_dirty_flags);
            assert forall|i: int| #![trigger v.nodes[i]] 0 <= i < v.nodes.len() implies v.nodes[i] == t.nodes[i] by {
                assert(vr.nodes[i] == NodeView {
                    visited: if v0.reset_visited_flags.contains(i as usize) {
                        false
                    } else {
                        v0.nodes[i].visited
                    },
                    ..v0.nodes[i]
                });
            }
            assert(v.nodes =~= t.nodes);
            assert(v.values =~= t.values);
            assert(v =~= t);
            Self::lemma_round_ended_wf(v0);
        }
    }

    proof fn lemma_round_ended_wf(v0: ContextView<A>)
        requires
            v0.wf(),
            v0.propagating,
            v0.pending_effects.len() == 0,
            v0.running is None,
        ensures
            v0.round_ended().wf(),
    {
        let v = v0.round_ended();
        assert forall|i: int| #![trigger v.nodes[i]] v.valid(i) implies {
            &&& v.ids_valid(v.nodes[i].dependencies)
            &&& v.ids_valid(v.nodes[i].dependents)
            &&& v.ids_valid(v.nodes[i].owned)
        } by {
            assert(v0.ids_valid(v0.nodes[i].dependencies));
            assert(v0.ids_valid(v0.nodes[i].dependents));
            assert(v0.ids_valid(v0.nodes[i].owned));
        }
        assert forall|i: int, j: int|
            #![trigger v.nodes[i].dependencies.contains(j as usize)]
            #![trigger v.nodes[j].dependents.contains(i as usize)]
            v.valid(i) && v.valid(j) implies (v.nodes[i].dependencies.contains(j as usize)
            <==> v.nodes[j].dependents.contains(i as usize)) by {
            assert(v0.nodes[i].dependencies.contains(j as usize) <==> v0.nodes[j].dependents.contains(i as usize));
        }
        assert forall|i: int| #![trigger v.values[i]] v.valid(i) && v.nodes[i].update_op is None implies v.values[i] is Some by {
            assert(v0.nodes[i].update_op == v.nodes[i].update_op);
        }
        assert forall|k: int| 0 <= k < v.pending_effects.len() implies v.valid(#[trigger] v.pending_effects[k] as int) && v.is_effect(v.pending_effects[k] as int) by {
            assert(v.nodes[v.pending_effects[k] as int].update_op == v0.nodes[v0.effects[k] as int].update_op);
        }
    }

    /// Performs one step of the propagation of changes, and says what the
    /// caller must do next. A propagation starts when this is called with no
    /// transaction open; it ends once no node is scheduled and no effect is
    /// queued, and `Step::Idle` is returned. Within a round, the scheduled
    /// nodes that are still alive are brought up to date one at a time; at
    /// the end of a round the queued effects are handed out, first queued
    /// first, each for one run.
    pub fn propergate(&mut self) -> (r: Step)
        requires
            old(self)@.wf(),
        ensures
            (final(self)@, r) == old(self)@.next_step(),
            final(self)@.wf(),
    {
        let ghost v0 = self@;
        if self.running.is_some() || (!self.propagating && self.transaction_depth > 0) {
            return Step::Idle;
        }
        if !self.propagating {
            self.transaction_depth = self.transaction_depth + 1;
            self.propagating = true;
        }
        let ghost s0 = self@;
        proof {
            assert(s0 == if v0.propagating { v0 } else { v0.started() });
        }
        if self.pending_effects.len() > 0 {
            let e: usize = self.pending_effects.remove(0);
            proof {
                assert(self@ =~= (ContextView { pending_effects: s0.pending_effects.drop_first(), ..s0 }));
                assert(s0.valid(e as int));
                assert forall|k: int| 0 <= k < self@.pending_effects.len() implies self@.valid(#[trigger] self@.pending_effects[k] as int) && self@.is_effect(self@.pending_effects[k] as int) by {
                    assert(self@.pending_effects[k] == s0.pending_effects[k + 1]);
                }
            }
            self.clear_dependencies(e);
            self.in_node(e);
            self.running = Some(e);
            proof {
                assert(s0.is_effect(e as int));
            }
            return Step::RunEffect(e);
        }
        match self.to_be_updated.pop() {
            Some(n) => {
                proof {
                    assert(self@ =~= (ContextView { to_be_updated: s0.to_be_updated.drop_last(), ..s0 }));
                    assert(s0.valid(n as int));
                }
                if self.is_alive(n) {
                    let out = self.update_node(n);
                    match out {
                        UpdateOutcome::NeedsRecompute => Step::Recompute(n),
                        _ => Step::Continue,
                    }
                } else {
                    Step::Continue
                }
            },
            None => {
                self.end_round();
                if self.propagating {
                    Step::Continue
                } else {
                    Step::Idle
                }
            },
        }
    }
}

} // verus!
