//! A measure that the steps a propagation takes on its own decrease.
use vstd::prelude::*;

use super::context::{ContextView, Step};
use super::node::{NodeView, UpdateOp};

verus! {

broadcast use {vstd::seq_lib::group_seq_properties, vstd::seq_lib::group_filter_ensures};

/// The number of nodes not visited in this round.
pub open spec fn unvisited_count(nodes: Seq<NodeView>) -> nat
    decreases nodes.len(),
{
    if nodes.len() == 0 {
        0
    } else {
        unvisited_count(nodes.drop_last()) + if nodes.last().visited {
            0nat
        } else {
            1nat
        }
    }
}

/// When no visited flag is cleared, the number of unvisited nodes does not
/// grow, and it shrinks when some node becomes visited.
pub proof fn lemma_unvisited_count_mono(a: Seq<NodeView>, b: Seq<NodeView>, i: int)
    requires
        a.len() == b.len(),
        forall|j: int| 0 <= j < a.len() && (#[trigger] a[j]).visited ==> b[j].visited,
    ensures
        unvisited_count(b) <= unvisited_count(a),
        0 <= i < a.len() && !a[i].visited && b[i].visited ==> unvisited_count(b) < unvisited_count(a),
    decreases a.len(),
{
    if a.len() > 0 {
        let a1 = a.drop_last();
        let b1 = b.drop_last();
        assert forall|j: int| 0 <= j < a1.len() && (#[trigger] a1[j]).visited implies b1[j].visited by {
            assert(a[j].visited);
        }
        lemma_unvisited_count_mono(a1, b1, i);
        if 0 <= i < a.len() - 1 {
            assert(a1[i] == a[i] && b1[i] == b[i]);
        }
    }
}

impl<A> ContextView<A> {
    /// A scheduled node that needs no more work in this round: visited, or
    /// not alive.
    pub open spec fn settled(self, n: usize) -> bool {
        self.nodes[n as int].visited || !self.alive(n as int)
    }

    /// The number of entries of `s` that are settled.
    pub open spec fn settled_count(self, s: Seq<usize>) -> nat
        decreases s.len(),
    {
        if s.len() == 0 {
            0
        } else {
            self.settled_count(s.drop_last()) + if self.settled(s.last()) {
                1nat
            } else {
                0nat
            }
        }
    }

    /// The dependency graph is ordered by `rank`: every dependency of a node
    /// has a smaller rank (so the graph has no cycle).
    pub open spec fn ranked(self, rank: spec_fn(usize) -> nat) -> bool {
        forall|a: int, b: usize|
            self.valid(a) && #[trigger] self.nodes[a].dependencies.contains(b) ==> rank(b) < rank(
                a as usize,
            )
    }

    /// One more than the rank of the node on top of the schedule when it
    /// still needs work, else zero.
    pub open spec fn top_rank(self, rank: spec_fn(usize) -> nat) -> nat {
        if self.to_be_updated.len() > 0 && !self.settled(self.to_be_updated.last()) {
            1 + rank(self.to_be_updated.last())
        } else {
            0
        }
    }

    /// `w` is smaller than `self` in the order of the triple (unvisited
    /// nodes, settled scheduled entries, top rank), compared left to right.
    pub open spec fn measure_decreases_to(self, w: ContextView<A>, rank: spec_fn(usize) -> nat) -> bool {
        ||| unvisited_count(w.nodes) < unvisited_count(self.nodes)
        ||| unvisited_count(w.nodes) == unvisited_count(self.nodes) && w.settled_count(w.to_be_updated)
            < self.settled_count(self.to_be_updated)
        ||| unvisited_count(w.nodes) == unvisited_count(self.nodes) && w.settled_count(w.to_be_updated)
            == self.settled_count(self.to_be_updated) && w.top_rank(rank) < self.top_rank(rank)
    }

    pub proof fn lemma_settled_count_add(self, a: Seq<usize>, b: Seq<usize>)
        ensures
            self.settled_count(a + b) == self.settled_count(a) + self.settled_count(b),
        decreases b.len(),
    {
        if b.len() > 0 {
            assert((a + b).drop_last() == a + b.drop_last());
            self.lemma_settled_count_add(a, b.drop_last());
        } else {
            assert(a + b == a);
        }
    }

    pub proof fn lemma_settled_count_none(self, s: Seq<usize>)
        requires
            forall|k: int| 0 <= k < s.len() ==> !self.settled(#[trigger] s[k]),
        ensures
            self.settled_count(s) == 0,
        decreases s.len(),
    {
        if s.len() > 0 {
            let t = s.drop_last();
            assert forall|k: int| 0 <= k < t.len() implies !self.settled(#[trigger] t[k]) by {
                assert(s[k] == t[k]);
            }
            self.lemma_settled_count_none(t);
        }
    }

    pub proof fn lemma_settled_count_same(self, w: ContextView<A>, s: Seq<usize>)
        requires
            forall|k: int| 0 <= k < s.len() ==> self.settled(#[trigger] s[k]) == w.settled(s[k]),
        ensures
            self.settled_count(s) == w.settled_count(s),
        decreases s.len(),
    {
        if s.len() > 0 {
            let t = s.drop_last();
            assert forall|k: int| 0 <= k < t.len() implies self.settled(#[trigger] t[k]) == w.settled(t[k]) by {
                assert(s[k] == t[k]);
            }
            self.lemma_settled_count_same(w, t);
        }
    }

    /// Liveness depends only on the nodes, the effect queues and the node in
    /// progress for the caller.
    pub proof fn lemma_alive_same(self, w: ContextView<A>, n: int)
        requires
            w.nodes == self.nodes,
            w.effects == self.effects,
            w.pending_effects == self.pending_effects,
            w.running == self.running,
        ensures
            w.alive(n) == self.alive(n),
    {
        if w.alive(n) {
            let p = choose|p: Seq<usize>| #[trigger] w.is_path(p) && w.is_root(p[0] as int) && p.last() == n;
            assert forall|k: int| #![trigger p[k]] 0 <= k < p.len() - 1 implies self.edge(p[k] as int, p[k + 1] as int) by {
                assert(w.edge(p[k] as int, p[k + 1] as int));
            }
            assert(self.is_path(p));
        }
        if self.alive(n) {
            let p = choose|p: Seq<usize>| #[trigger] self.is_path(p) && self.is_root(p[0] as int) && p.last() == n;
            assert forall|k: int| #![trigger p[k]] 0 <= k < p.len() - 1 implies w.edge(p[k] as int, p[k + 1] as int) by {
                assert(self.edge(p[k] as int, p[k + 1] as int));
            }
            assert(w.is_path(p));
        }
    }
}

/// When the dependency graph is ordered by a rank, each step that a round
/// of propagation takes on its own (bringing a scheduled node up to date,
/// putting it back under its dependencies, or setting it aside) decreases
/// the measure. With the law below on completed recomputations, a round whose
/// graph stays ordered ends after finitely many steps.
pub proof fn law_round_steps_decrease<A>(v: ContextView<A>, rank: spec_fn(usize) -> nat)
    requires
        v.wf(),
        v.ranked(rank),
        v.propagating,
        v.running is None,
        v.pending_effects.len() == 0,
        v.to_be_updated.len() > 0,
        v.next_step().1 is Continue,
    ensures
        v.measure_decreases_to(v.next_step().0, rank),
{
    let w = v.next_step().0;
    let n = v.to_be_updated.last();
    assert(v.valid(n as int));
    let rest = v.to_be_updated.drop_last();
    assert(v.to_be_updated == rest.push(n));
    let s1 = ContextView { to_be_updated: rest, ..v };
    s1.lemma_alive_same(v, n as int);
    assert forall|k: int| 0 <= k < rest.len() implies s1.settled(#[trigger] rest[k]) == v.settled(rest[k]) by {
        s1.lemma_alive_same(v, rest[k] as int);
    }
    s1.lemma_settled_count_same(v, rest);
    if !s1.alive(n as int) || v.nodes[n as int].visited {
        assert(w == s1);
        assert(v.settled_count(v.to_be_updated) == v.settled_count(rest) + 1);
    } else if !s1.all_dependencies_visited(n as int) {
        let f = s1.nodes[n as int].dependencies.filter(s1.unvisited());
        let t = seq![n] + (rest + f);
        assert(w.to_be_updated == t);
        assert(w.nodes == v.nodes);
        let k = choose|k: int|
            0 <= k < v.nodes[n as int].dependencies.len() && !v.nodes[v.nodes[n as int].dependencies[k] as int].visited;
        let d0 = v.nodes[n as int].dependencies[k];
        v.nodes[n as int].dependencies.lemma_filter_contains(s1.unvisited(), k);
        assert(f.len() > 0);
        assert forall|j: int| 0 <= j < f.len() implies !w.settled(#[trigger] f[j]) by {
            assert(f.contains(f[j]));
            v.nodes[n as int].dependencies.lemma_filter_contains_rev(s1.unvisited(), f[j]);
            assert(v.ids_valid(v.nodes[n as int].dependencies));
            let m = choose|m: int| 0 <= m < v.nodes[n as int].dependencies.len() && v.nodes[n as int].dependencies[m] == f[j];
            assert(v.valid(f[j] as int));
            assert(v.edge(n as int, f[j] as int));
            v.lemma_edge_alive(n as int, f[j] as int);
            w.lemma_alive_same(v, f[j] as int);
        }
        w.lemma_alive_same(v, n as int);
        w.lemma_settled_count_none(f);
        w.lemma_settled_count_none(seq![n]);
        w.lemma_settled_count_add(rest, f);
        w.lemma_settled_count_add(seq![n], rest + f);
        assert forall|j: int| 0 <= j < rest.len() implies w.settled(#[trigger] rest[j]) == v.settled(rest[j]) by {
            w.lemma_alive_same(v, rest[j] as int);
        }
        w.lemma_settled_count_same(v, rest);
        assert(t.last() == f.last());
        assert(f.contains(f.last()));
        v.nodes[n as int].dependencies.lemma_filter_contains_rev(s1.unvisited(), f.last());
        assert(rank(f.last()) < rank(n));
    } else {
        s1.lemma_update_node_frame(n);
        assert(w == s1.update_node_spec(n).0);
        assert(w.nodes[n as int].visited);
        lemma_unvisited_count_mono(v.nodes, w.nodes, n as int);
    }
}

/// Completing the recomputation of a memo not yet visited in the round
/// decreases the number of unvisited nodes.
pub proof fn law_completion_decreases<A>(v: ContextView<A>, n: usize, value: A, same: bool)
    requires
        v.wf(),
        v.valid(n as int),
        !v.nodes[n as int].visited,
    ensures
        unvisited_count(v.completed_update(n, value, same).nodes) < unvisited_count(v.nodes),
{
    let w = v.completed_update(n, value, same);
    assert forall|j: int| 0 <= j < v.nodes.len() && (#[trigger] v.nodes[j]).visited implies w.nodes[j].visited by {}
    lemma_unvisited_count_mono(v.nodes, w.nodes, n as int);
}

} // verus!
