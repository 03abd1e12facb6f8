//! Properties of the runtime that relate several operations or hold of
//! every state.
use vstd::prelude::*;

use super::context::{ContextView, Step, UpdateOutcome};
use super::effect::{count, lemma_count_contains};
use super::node::{NodeView, UpdateOp};

verus! {

broadcast use {vstd::seq_lib::group_seq_properties, vstd::seq_lib::group_filter_ensures};

/// Leaving a computation restores the node that was in progress before it
/// was entered, and the stack of outer nodes.
pub proof fn law_exit_undoes_in_node<A>(v: ContextView<A>, n: usize)
    ensures
        v.entered(n).exited() == v,
{
    assert(v.entered(n).exited().outer_nodes =~= v.outer_nodes);
}

/// Closing a transaction undoes opening it, and the closed transaction is
/// the outermost exactly when none was open before.
pub proof fn law_end_batch_undoes_batch<A>(v: ContextView<A>)
    requires
        v.transaction_depth < usize::MAX,
    ensures
        v.batch_opened().batch_closed() == v,
        (v.batch_opened().batch_closed().transaction_depth == 0) == (v.transaction_depth == 0),
{
}

/// Reading a node never changes a value.
pub proof fn law_read_keeps_values<A>(v: ContextView<A>, n: usize)
    ensures
        v.with_read(n).values == v.values,
{
}

/// A read made while no computation is in progress changes nothing.
pub proof fn law_read_outside_computation<A>(v: ContextView<A>, n: usize)
    requires
        v.in_node is None,
    ensures
        v.with_read(n) == v,
{
}

/// A read made while node `o` is computed makes the read node a
/// dependency of `o`, and `o` a dependent of the read node.
pub proof fn law_read_records_dependency<A>(v: ContextView<A>, n: usize, o: usize)
    requires
        v.wf(),
        v.valid(n as int),
        v.in_node == Some(o),
    ensures
        v.with_read(n).nodes[o as int].dependencies.contains(n),
        v.with_read(n).nodes[n as int].dependents.contains(o),
{
    let s1 = v.with_node(
        o as int,
        NodeView { dependencies: v.nodes[o as int].dependencies.push(n), ..v.nodes[o as int] },
    );
    assert(s1.nodes[o as int].dependencies.contains(n));
    let d = s1.nodes[n as int].dependents.push(o);
    assert(d[d.len() - 1] == o);
}

/// A signal read after a write gives the written value.
pub proof fn law_read_after_write<A>(v: ContextView<A>, n: usize, value: A)
    requires
        v.wf(),
        v.valid(n as int),
    ensures
        v.written(n, value).with_read(n).values[n as int] == Some(value),
{
}

/// A step of propagation never changes a value: only writes and the
/// completed recomputations handed back by the caller do.
pub proof fn law_propagation_keeps_values<A>(v: ContextView<A>)
    requires
        v.wf(),
    ensures
        v.next_step().0.values == v.values,
{
    v.lemma_next_step_frame();
}

/// A step of propagation never changes the handle count of a node: only
/// taking and giving up handles does.
pub proof fn law_propagation_keeps_handles<A>(v: ContextView<A>, i: int)
    requires
        v.wf(),
        v.valid(i),
    ensures
        v.next_step().0.nodes.len() == v.nodes.len(),
        v.next_step().0.nodes[i].handles == v.nodes[i].handles,
{
    v.lemma_next_step_frame();
    assert(v.next_step().0.nodes[i].handles == v.nodes[i].handles);
}

/// Completing the recomputation of a memo changes no value but the memo's.
pub proof fn law_completion_touches_only_the_memo<A>(
    v: ContextView<A>,
    n: usize,
    value: A,
    same: bool,
    i: int,
)
    requires
        v.wf(),
        v.valid(n as int),
        v.valid(i),
        i != n as int,
    ensures
        v.completed_update(n, value, same).values[i] == v.values[i],
{
}

/// A step of propagation does nothing while the caller still owes the work
/// it was handed, and none starts while a transaction is open.
pub proof fn law_propagation_waits<A>(v: ContextView<A>)
    requires
        v.running is Some || (!v.propagating && v.transaction_depth > 0),
    ensures
        v.next_step() == (v, Step::Idle),
{
}

/// A node already visited in the current round is skipped and nothing
/// changes: each node is brought up to date at most once per round.
pub proof fn law_visited_node_skipped<A>(v: ContextView<A>, n: usize)
    requires
        v.nodes[n as int].visited,
    ensures
        v.update_node_spec(n) == (v, UpdateOutcome::Skipped),
{
}

/// Within a round, a visited node stays visited: the steps that do not end
/// the round never clear the flag, so that, with the law above, no node is
/// brought up to date twice in one round.
pub proof fn law_visited_kept_until_round_end<A>(v: ContextView<A>, i: int)
    requires
        v.wf(),
        v.valid(i),
        v.nodes[i].visited,
        v.propagating,
        v.pending_effects.len() > 0 || v.to_be_updated.len() > 0,
    ensures
        v.next_step().0.nodes[i].visited,
{
    if v.running is None {
        if v.pending_effects.len() > 0 {
            assert(v.valid(v.pending_effects[0] as int));
        } else {
            let n = v.to_be_updated.last();
            assert(v.valid(n as int));
            let s1 = ContextView { to_be_updated: v.to_be_updated.drop_last(), ..v };
            if s1.alive(n as int) {
                s1.lemma_update_node_frame(n);
                assert(s1.update_node_spec(n).0.nodes[i].visited);
            }
        }
    }
}

/// Completing a recomputation or an effect run keeps every visited node
/// visited.
pub proof fn law_completion_keeps_visited<A>(v: ContextView<A>, n: usize, value: A, same: bool, i: int)
    requires
        v.wf(),
        v.valid(n as int),
        v.valid(i),
        v.nodes[i].visited,
    ensures
        v.completed_update(n, value, same).nodes[i].visited,
        (ContextView { running: None, ..v.exited() }).nodes[i].visited,
{
}

/// A node is recomputed, or brought up to date, only once every one of its
/// dependencies was brought up to date in the same round; afterwards it
/// counts as visited, or is handed to the caller.
pub proof fn law_dependencies_first<A>(v: ContextView<A>, n: usize)
    requires
        v.wf(),
        v.valid(n as int),
        v.update_node_spec(n).1 is NeedsRecompute || v.update_node_spec(n).1 is Finished,
    ensures
        !v.nodes[n as int].visited,
        v.all_dependencies_visited(n as int),
        v.update_node_spec(n).1 is Finished ==> v.update_node_spec(n).0.nodes[n as int].visited,
        v.update_node_spec(n).1 is NeedsRecompute ==> v.update_node_spec(n).0.running == Some(n),
{
}

/// A node is handed out for recomputation only when one of its
/// dependencies changed in the round.
pub proof fn law_recompute_only_on_change<A>(v: ContextView<A>, n: usize)
    requires
        v.update_node_spec(n).1 is NeedsRecompute,
    ensures
        v.any_dependency_dirty(n as int),
{
}

/// A calmed memo whose recomputation gives a value judged the same keeps
/// its old value and does not schedule its dependents.
pub proof fn law_calmed_same_keeps_value<A>(v: ContextView<A>, n: usize, value: A)
    requires
        v.valid(n as int),
        v.nodes[n as int].update_op == Some(UpdateOp::Recompute { calmed: true }),
        !v.nodes[n as int].dirty,
    ensures
        v.completed_update(n, value, true).values == v.values,
        v.completed_update(n, value, true).to_be_updated == v.to_be_updated,
{
}

/// A memo that is not calmed stores every recomputed value and schedules
/// its dependents.
pub proof fn law_uncalmed_stores_value<A>(v: ContextView<A>, n: usize, value: A, same: bool)
    requires
        v.wf(),
        v.valid(n as int),
        v.nodes[n as int].update_op == Some(UpdateOp::Recompute { calmed: false }),
    ensures
        v.completed_update(n, value, same).values[n as int] == Some(value),
        v.completed_update(n, value, same).to_be_updated == v.to_be_updated + v.nodes[n as int].dependents,
{
}

/// When a propagation ends, nothing is left scheduled or queued, the
/// transaction it opened is closed, and no node is left visited or changed.
pub proof fn law_propagation_end_is_clean<A>(v: ContextView<A>)
    requires
        v.wf(),
        v.propagating,
        v.running is None,
        v.next_step().1 is Idle,
    ensures
        !v.next_step().0.propagating,
        v.next_step().0.to_be_updated.len() == 0,
        v.next_step().0.effects.len() == 0,
        v.next_step().0.pending_effects.len() == 0,
        v.next_step().0.transaction_depth == v.transaction_depth - 1,
        forall|i: int|
            0 <= i < v.nodes.len() ==> !(#[trigger] v.next_step().0.nodes[i]).visited && !v.next_step().0.nodes[i].dirty,
{
    {
        assert(v.pending_effects.len() == 0);
        assert(v.to_be_updated.len() == 0);
        let s = v.next_step().0;
        assert(s == v.round_ended());
        assert forall|i: int| 0 <= i < v.nodes.len() implies !(#[trigger] s.nodes[i]).visited && !s.nodes[i].dirty by {
            if v.nodes[i].visited {
                assert(v.reset_visited_flags.contains(i as usize));
            }
            if v.nodes[i].dirty {
                assert(v.clear_dirty_flags.contains(i as usize));
            }
        }
    }
}

/// A scheduled node that is no longer alive is dropped from the schedule
/// without being updated.
pub proof fn law_dead_node_dropped<A>(v: ContextView<A>)
    requires
        v.propagating,
        v.running is None,
        v.pending_effects.len() == 0,
        v.to_be_updated.len() > 0,
        !(ContextView { to_be_updated: v.to_be_updated.drop_last(), ..v }).alive(
            v.to_be_updated.last() as int,
        ),
    ensures
        v.next_step() == (ContextView { to_be_updated: v.to_be_updated.drop_last(), ..v }, Step::Continue),
{
}

/// An effect is run with its old dependencies forgotten, inside its own
/// computation, so that its dependencies are exactly what this run reads.
pub proof fn law_effect_runs_afresh<A>(v: ContextView<A>, e: usize)
    requires
        v.wf(),
        v.next_step().1 == Step::RunEffect(e),
    ensures
        v.next_step().0.nodes[e as int].dependencies.len() == 0,
        v.next_step().0.in_node == Some(e),
        v.next_step().0.running == Some(e),
{
}

/// Giving up a handle undoes taking it.
pub proof fn law_dispose_undoes_clone<A>(v: ContextView<A>, n: usize)
    requires
        v.valid(n as int),
        v.nodes[n as int].handles < usize::MAX,
    ensures
        v.with_handles(n, (v.nodes[n as int].handles + 1) as usize).with_handles(
            n,
            v.nodes[n as int].handles,
        ) == v,
{
    let s = v.with_handles(n, (v.nodes[n as int].handles + 1) as usize).with_handles(
        n,
        v.nodes[n as int].handles,
    );
    assert(s.nodes =~= v.nodes);
}

/// A step of propagation hands out only alive nodes: a memo to recompute,
/// or an effect to run, is alive when it is handed out.
pub proof fn law_only_alive_handed_out<A>(v: ContextView<A>)
    requires
        v.wf(),
    ensures
        v.next_step().1 matches Step::Recompute(n) ==> v.alive(n as int),
        v.next_step().1 matches Step::RunEffect(e) ==> v.alive(e as int),
{
    if !(v.running is Some || (!v.propagating && v.transaction_depth > 0)) {
        let s0 = if v.propagating {
            v
        } else {
            v.started()
        };
        if s0.pending_effects.len() > 0 {
            let e = s0.pending_effects[0];
            assert(v.valid(e as int));
            assert(v.pending_effects.contains(e));
            v.lemma_root_alive(e as int);
        } else if s0.to_be_updated.len() > 0 {
            let n = s0.to_be_updated.last();
            let s1 = ContextView { to_be_updated: s0.to_be_updated.drop_last(), ..s0 };
            if s1.alive(n as int) {
                let p = choose|p: Seq<usize>| #[trigger] s1.is_path(p) && s1.is_root(p[0] as int) && p.last() == n;
                assert forall|k: int| #![trigger p[k]] 0 <= k < p.len() - 1 implies v.edge(p[k] as int, p[k + 1] as int) by {
                    assert(s1.edge(p[k] as int, p[k + 1] as int));
                }
                assert(v.is_path(p));
                assert(v.is_root(p[0] as int));
            }
        }
    }
}

/// A node that is not alive stays not alive through a step of propagation.
pub proof fn law_propagation_keeps_dead<A>(v: ContextView<A>)
    requires
        v.wf(),
    ensures
        v.keeps_dead(v.next_step().0),
{
    let r = v.next_step().0;
    v.lemma_next_step_frame();
    assert forall|a: int, b: int|
        0 <= a < r.nodes.len() && 0 <= b < v.nodes.len() && #[trigger] r.edge(a, b) implies (a < v.nodes.len()
            && v.edge(a, b)) || v.alive(b) by {
        assert(r.nodes[a].owned == v.nodes[a].owned);
        if r.nodes[a].dependencies.contains(b as usize) {
            assert(v.nodes[a].dependencies.contains(b as usize));
        }
    }
    v.lemma_keeps_dead(r);
}

/// A node that is not alive stays not alive when a recomputation or an
/// effect run is completed.
pub proof fn law_completion_keeps_dead<A>(v: ContextView<A>, n: usize, value: A, same: bool)
    requires
        v.wf(),
        v.valid(n as int),
        v.outer_nodes.len() > 0,
    ensures
        v.keeps_dead(v.completed_update(n, value, same)),
        v.keeps_dead(ContextView { running: None, ..v.exited() }),
{
    let r = v.completed_update(n, value, same);
    assert forall|i: int| 0 <= i < v.nodes.len() && #[trigger] r.is_root(i) implies v.alive(i) by {
        v.lemma_root_alive(i);
    }
    assert forall|a: int, b: int|
        0 <= a < r.nodes.len() && 0 <= b < v.nodes.len() && #[trigger] r.edge(a, b) implies (a < v.nodes.len()
            && v.edge(a, b)) || v.alive(b) by {
        assert(r.nodes[a].dependencies == v.nodes[a].dependencies);
        assert(r.nodes[a].owned == v.nodes[a].owned);
    }
    v.lemma_keeps_dead(r);
    let q = ContextView { running: None, ..v.exited() };
    assert forall|i: int| 0 <= i < v.nodes.len() && #[trigger] q.is_root(i) implies v.alive(i) by {
        v.lemma_root_alive(i);
    }
    v.lemma_keeps_dead(q);
}

/// A node that is not alive stays not alive when a signal is written, a
/// handle is given up, a transaction is opened or closed, or a computation
/// is entered or left.
pub proof fn law_bookkeeping_keeps_dead<A>(v: ContextView<A>, n: usize, value: A)
    requires
        v.wf(),
        v.valid(n as int),
        v.nodes[n as int].handles > 0,
        v.outer_nodes.len() > 0,
        v.transaction_depth > 0,
    ensures
        v.keeps_dead(v.written(n, value)),
        v.keeps_dead(v.with_handles(n, (v.nodes[n as int].handles - 1) as usize)),
        v.keeps_dead(v.batch_opened()),
        v.keeps_dead(v.batch_closed()),
        v.keeps_dead(v.entered(n)),
        v.keeps_dead(v.exited()),
{
    let w1 = v.written(n, value);
    let w2 = v.with_handles(n, (v.nodes[n as int].handles - 1) as usize);
    assert forall|i: int| 0 <= i < v.nodes.len() && #[trigger] w1.is_root(i) implies v.alive(i) by {
        v.lemma_root_alive(i);
    }
    assert forall|a: int, b: int|
        0 <= a < w1.nodes.len() && 0 <= b < v.nodes.len() && #[trigger] w1.edge(a, b) implies (a < v.nodes.len()
            && v.edge(a, b)) || v.alive(b) by {
        assert(w1.nodes[a].dependencies == v.nodes[a].dependencies);
        assert(w1.nodes[a].owned == v.nodes[a].owned);
    }
    v.lemma_keeps_dead(w1);
    assert forall|i: int| 0 <= i < v.nodes.len() && #[trigger] w2.is_root(i) implies v.alive(i) by {
        v.lemma_root_alive(i);
    }
    assert forall|a: int, b: int|
        0 <= a < w2.nodes.len() && 0 <= b < v.nodes.len() && #[trigger] w2.edge(a, b) implies (a < v.nodes.len()
            && v.edge(a, b)) || v.alive(b) by {
        assert(w2.nodes[a].dependencies == v.nodes[a].dependencies);
        assert(w2.nodes[a].owned == v.nodes[a].owned);
    }
    v.lemma_keeps_dead(w2);
    assert forall|i: int| 0 <= i < v.nodes.len() && #[trigger] v.batch_opened().is_root(i) implies v.alive(i) by {
        v.lemma_root_alive(i);
    }
    v.lemma_keeps_dead(v.batch_opened());
    assert forall|i: int| 0 <= i < v.nodes.len() && #[trigger] v.batch_closed().is_root(i) implies v.alive(i) by {
        v.lemma_root_alive(i);
    }
    v.lemma_keeps_dead(v.batch_closed());
    assert forall|i: int| 0 <= i < v.nodes.len() && #[trigger] v.entered(n).is_root(i) implies v.alive(i) by {
        v.lemma_root_alive(i);
    }
    v.lemma_keeps_dead(v.entered(n));
    assert forall|i: int| 0 <= i < v.nodes.len() && #[trigger] v.exited().is_root(i) implies v.alive(i) by {
        v.lemma_root_alive(i);
    }
    v.lemma_keeps_dead(v.exited());
}

/// A read of an alive node keeps every node that is not alive not alive:
/// it only adds a hold onto the node read.
pub proof fn law_read_keeps_dead<A>(v: ContextView<A>, m: usize)
    requires
        v.wf(),
        v.valid(m as int),
        v.alive(m as int),
    ensures
        v.keeps_dead(v.with_read(m)),
{
    let w = v.with_read(m);
    assert forall|i: int| 0 <= i < v.nodes.len() && #[trigger] w.is_root(i) implies v.alive(i) by {
        v.lemma_root_alive(i);
    }
    assert forall|a: int, b: int|
        0 <= a < w.nodes.len() && 0 <= b < v.nodes.len() && #[trigger] w.edge(a, b) implies (a < v.nodes.len()
            && v.edge(a, b)) || v.alive(b) by {
        assert(w.nodes[a].owned == v.nodes[a].owned);
        if b != m as int {
            if let Some(o) = v.in_node {
                if a == o as int {
                    let d = v.nodes[a].dependencies;
                    if d.push(m).contains(b as usize) {
                        let k = choose|k: int| 0 <= k < d.push(m).len() && d.push(m)[k] == b as usize;
                        assert(d[k] == b as usize);
                    }
                }
            }
        }
    }
    v.lemma_keeps_dead(w);
}

/// Creating a node keeps every node that is not alive not alive: the new
/// node holds only nodes that were alive.
pub proof fn law_creation_keeps_dead<A>(v: ContextView<A>, value: Option<A>, op: Option<UpdateOp>, owned: Seq<usize>)
    requires
        v.wf(),
        forall|k: int| 0 <= k < owned.len() ==> v.valid(#[trigger] owned[k] as int) && v.alive(owned[k] as int),
    ensures
        v.keeps_dead(v.with_new_node(value, NodeView::with_op(op, 1))),
        v.keeps_dead(v.with_new_node(value, NodeView::with_op(op, 1)).entered(v.nodes.len() as usize)),
        v.keeps_dead(v.with_new_effect(owned)),
{
    let w1 = v.with_new_node(value, NodeView::with_op(op, 1));
    let w2 = w1.entered(v.nodes.len() as usize);
    let w3 = v.with_new_effect(owned);
    assert forall|i: int| 0 <= i < v.nodes.len() && #[trigger] w1.is_root(i) implies v.alive(i) by {
        assert(w1.nodes[i] == v.nodes[i]);
        v.lemma_root_alive(i);
    }
    assert forall|a: int, b: int|
        0 <= a < w1.nodes.len() && 0 <= b < v.nodes.len() && #[trigger] w1.edge(a, b) implies (a < v.nodes.len()
            && v.edge(a, b)) || v.alive(b) by {
        if a < v.nodes.len() {
            assert(w1.nodes[a] == v.nodes[a]);
        }
    }
    v.lemma_keeps_dead(w1);
    assert forall|i: int| 0 <= i < v.nodes.len() && #[trigger] w2.is_root(i) implies v.alive(i) by {
        assert(w1.is_root(i));
    }
    assert forall|a: int, b: int|
        0 <= a < w2.nodes.len() && 0 <= b < v.nodes.len() && #[trigger] w2.edge(a, b) implies (a < v.nodes.len()
            && v.edge(a, b)) || v.alive(b) by {
        assert(w1.edge(a, b));
    }
    v.lemma_keeps_dead(w2);
    assert forall|i: int| 0 <= i < v.nodes.len() && #[trigger] w3.is_root(i) implies v.alive(i) by {
        assert(w3.nodes[i] == v.nodes[i]);
        if w3.effects.contains(i as usize) {
            let k = choose|k: int| 0 <= k < w3.effects.len() && w3.effects[k] == i as usize;
            if k < v.effects.len() {
                assert(v.effects[k] == i as usize);
            }
        }
        v.lemma_root_alive(i);
    }
    assert forall|a: int, b: int|
        0 <= a < w3.nodes.len() && 0 <= b < v.nodes.len() && #[trigger] w3.edge(a, b) implies (a < v.nodes.len()
            && v.edge(a, b)) || v.alive(b) by {
        if a < v.nodes.len() {
            assert(w3.nodes[a] == v.nodes[a]);
        } else {
            assert(w3.nodes[a].dependencies.len() == 0);
            assert(w3.nodes[a].owned == owned);
            let k = choose|k: int| 0 <= k < owned.len() && owned[k] == b as usize;
            assert(v.alive(owned[k] as int));
        }
    }
    v.lemma_keeps_dead(w3);
}

/// Merging effects keeps every node that is not alive not alive: the
/// merged effects, whose handles are given up, are held by the new effect.
pub proof fn law_merge_keeps_dead<A>(v: ContextView<A>, ids: Seq<usize>)
    requires
        v.wf(),
        forall|k: int| 0 <= k < ids.len() ==> v.valid(#[trigger] ids[k] as int),
        forall|i: int| v.valid(i) ==> count(ids, i as usize) <= #[trigger] v.nodes[i].handles,
    ensures
        v.keeps_dead(v.released(ids).with_new_effect(ids)),
{
    let w = v.released(ids).with_new_effect(ids);
    assert forall|i: int| 0 <= i < v.nodes.len() && #[trigger] w.is_root(i) implies v.alive(i) by {
        assert(w.nodes[i] == v.released(ids).nodes[i]);
        if w.effects.contains(i as usize) {
            let k = choose|k: int| 0 <= k < w.effects.len() && w.effects[k] == i as usize;
            if k < v.effects.len() {
                assert(v.effects[k] == i as usize);
            }
        }
        v.lemma_root_alive(i);
    }
    assert forall|a: int, b: int|
        0 <= a < w.nodes.len() && 0 <= b < v.nodes.len() && #[trigger] w.edge(a, b) implies (a < v.nodes.len()
            && v.edge(a, b)) || v.alive(b) by {
        if a < v.nodes.len() {
            assert(w.nodes[a] == v.released(ids).nodes[a]);
        } else {
            assert(w.nodes[a].dependencies.len() == 0);
            assert(w.nodes[a].owned == ids);
            lemma_count_contains(ids, b as usize);
            assert(v.nodes[b].handles >= 1);
            v.lemma_root_alive(b);
        }
    }
    v.lemma_keeps_dead(w);
}

/// Within a round, an effect is queued only by the step that brings it up
/// to date, which happens once: it was not visited before and is visited
/// after (and a visited node is skipped until the round ends), and one of
/// its dependencies changed.
pub proof fn law_effect_queued_once_per_round<A>(v: ContextView<A>)
    requires
        v.wf(),
        v.propagating,
        v.running is None,
        v.pending_effects.len() == 0,
        v.to_be_updated.len() > 0,
    ensures
        ({
            let r = v.next_step().0;
            let n = v.to_be_updated.last();
            r.effects != v.effects ==> {
                &&& r.effects == v.effects.push(n)
                &&& v.is_effect(n as int)
                &&& !v.nodes[n as int].visited
                &&& r.nodes[n as int].visited
                &&& v.any_dependency_dirty(n as int)
            }
        }),
{
    let n = v.to_be_updated.last();
    assert(v.valid(n as int));
}

/// Taking another handle to an alive node, and ending a memo's first
/// computation, keep every node that is not alive not alive.
pub proof fn law_clone_and_initial_value_keep_dead<A>(v: ContextView<A>, n: usize, value: A)
    requires
        v.wf(),
        v.valid(n as int),
        v.alive(n as int),
        v.nodes[n as int].handles < usize::MAX,
    ensures
        v.keeps_dead(v.with_handles(n, (v.nodes[n as int].handles + 1) as usize)),
        v.outer_nodes.len() > 0 ==> v.keeps_dead(
            ContextView { values: v.values.update(n as int, Some(value)), ..v.exited() },
        ),
{
    let w1 = v.with_handles(n, (v.nodes[n as int].handles + 1) as usize);
    assert forall|i: int| 0 <= i < v.nodes.len() && #[trigger] w1.is_root(i) implies v.alive(i) by {
        if i != n as int {
            v.lemma_root_alive(i);
        }
    }
    assert forall|a: int, b: int|
        0 <= a < w1.nodes.len() && 0 <= b < v.nodes.len() && #[trigger] w1.edge(a, b) implies (a < v.nodes.len()
            && v.edge(a, b)) || v.alive(b) by {
        assert(w1.nodes[a].dependencies == v.nodes[a].dependencies);
        assert(w1.nodes[a].owned == v.nodes[a].owned);
    }
    v.lemma_keeps_dead(w1);
    let w2 = ContextView { values: v.values.update(n as int, Some(value)), ..v.exited() };
    assert forall|i: int| 0 <= i < v.nodes.len() && #[trigger] w2.is_root(i) implies v.alive(i) by {
        v.lemma_root_alive(i);
    }
    v.lemma_keeps_dead(w2);
}

/// An effect held only by a merged effect lives exactly as long as the
/// merged effect: it is alive if and only if the merged effect is.
pub proof fn law_merged_effect_lifetime<A>(v: ContextView<A>, m: usize, e: usize)
    requires
        v.wf(),
        v.valid(m as int),
        v.valid(e as int),
        v.nodes[m as int].owned.contains(e),
        !v.is_root(e as int),
        forall|a: int| v.valid(a) && a != m as int ==> !#[trigger] v.edge(a, e as int),
    ensures
        v.alive(e as int) <==> v.alive(m as int),
{
    if v.alive(m as int) {
        v.lemma_edge_alive(m as int, e as int);
    }
    if v.alive(e as int) {
        let p = choose|p: Seq<usize>| #[trigger] v.is_path(p) && v.is_root(p[0] as int) && p.last() == e;
        let l = p.len() - 1;
        assert(l > 0);
        assert(p[l - 1] == p[l - 1]);
        assert(v.edge(p[l - 1] as int, p[l] as int));
        assert(v.valid(p[l - 1] as int));
        assert(p[l - 1] == m);
        let q = p.take(l);
        assert forall|k: int| #![trigger q[k]] 0 <= k < q.len() - 1 implies v.edge(q[k] as int, q[k + 1] as int) by {
            assert(q[k] == p[k] && q[k + 1] == p[k + 1]);
            assert(p[k] == p[k]);
        }
        assert forall|k: int| 0 <= k < q.len() implies v.valid(#[trigger] q[k] as int) by {
            assert(q[k] == p[k]);
        }
        assert(v.is_path(q));
        assert(q[0] == p[0]);
    }
}

/// A batch opened inside another closes without starting a propagation,
/// and the pair leaves the state that a single batch leaves: a nested batch
/// behaves as one.
pub proof fn law_nested_batch_is_single<A>(v: ContextView<A>)
    requires
        v.wf(),
        !v.propagating,
        v.transaction_depth < usize::MAX - 1,
    ensures
        v.batch_opened().batch_opened().batch_closed() == v.batch_opened(),
        v.batch_opened().next_step() == (v.batch_opened(), Step::Idle),
        v.batch_opened().batch_opened().batch_closed().batch_closed() == v.batch_opened().batch_closed(),
        v.batch_opened().batch_closed() == v,
{
}

/// A memo whose dependencies are all up to date in the round is handed out
/// for recomputation if and only if one of them changed; otherwise it is
/// brought up to date with its value kept, and does not count as changed.
pub proof fn law_memo_recomputed_iff_changed<A>(v: ContextView<A>, n: usize)
    requires
        v.wf(),
        v.valid(n as int),
        v.nodes[n as int].update_op matches Some(UpdateOp::Recompute { .. }),
        !v.nodes[n as int].visited,
        !v.nodes[n as int].dirty,
        v.all_dependencies_visited(n as int),
    ensures
        (v.update_node_spec(n).1 is NeedsRecompute) <==> v.any_dependency_dirty(n as int),
        !v.any_dependency_dirty(n as int) ==> {
            &&& v.update_node_spec(n).1 is Finished
            &&& v.update_node_spec(n).0.values == v.values
            &&& !v.update_node_spec(n).0.nodes[n as int].dirty
            &&& v.update_node_spec(n).0.to_be_updated == v.to_be_updated
        },
{
}

/// `w` follows `v` within one round: by a step of propagation that does
/// not end the round, by completing the work handed to the caller, or by a
/// write or a read made by that work.
pub open spec fn follows_within_round<A>(v: ContextView<A>, w: ContextView<A>) -> bool {
    ||| v.propagating && (v.pending_effects.len() > 0 || v.to_be_updated.len() > 0) && w == v.next_step().0
    ||| exists|n: usize, value: A, same: bool|
        v.valid(n as int) && w == #[trigger] v.completed_update(n, value, same)
    ||| v.outer_nodes.len() > 0 && w == (ContextView { running: None, ..v.exited() })
    ||| exists|n: usize, value: A| v.valid(n as int) && w == #[trigger] v.written(n, value)
    ||| exists|n: usize| v.valid(n as int) && w == #[trigger] v.with_read(n)
}

proof fn lemma_follows_keeps_visited<A>(v: ContextView<A>, w: ContextView<A>, i: int)
    requires
        v.wf(),
        v.valid(i),
        v.nodes[i].visited,
        follows_within_round(v, w),
    ensures
        w.nodes.len() == v.nodes.len(),
        w.nodes[i].visited,
{
    if v.propagating && (v.pending_effects.len() > 0 || v.to_be_updated.len() > 0) && w == v.next_step().0 {
        v.lemma_next_step_frame();
        law_visited_kept_until_round_end(v, i);
    } else if exists|n: usize, value: A, same: bool|
        v.valid(n as int) && w == #[trigger] v.completed_update(n, value, same) {
        let (n, value, same) = choose|n: usize, value: A, same: bool|
            v.valid(n as int) && w == #[trigger] v.completed_update(n, value, same);
        law_completion_keeps_visited(v, n, value, same, i);
    } else if v.outer_nodes.len() > 0 && w == (ContextView { running: None, ..v.exited() }) {
    } else if exists|n: usize, value: A| v.valid(n as int) && w == #[trigger] v.written(n, value) {
        let (n, value) = choose|n: usize, value: A| v.valid(n as int) && w == #[trigger] v.written(n, value);
    } else {
        let n = choose|n: usize| v.valid(n as int) && w == #[trigger] v.with_read(n);
        if let Some(o) = v.in_node {
            assert(v.valid(o as int));
        }
    }
}

proof fn lemma_trace_keeps_visited<A>(trace: Seq<ContextView<A>>, i: int, k: int)
    requires
        forall|m: int| 0 <= m < trace.len() ==> (#[trigger] trace[m]).wf(),
        forall|m: int| 0 <= m < trace.len() - 1 ==> follows_within_round(#[trigger] trace[m], trace[m + 1]),
        0 <= k < trace.len(),
        0 <= i < trace[k].nodes.len(),
        trace[k].nodes[i].visited,
    ensures
        forall|m: int| k <= m < trace.len() ==> (#[trigger] trace[m]).nodes.len() == trace[k].nodes.len() && trace[m].nodes[i].visited,
    decreases trace.len() - k,
{
    if k + 1 < trace.len() {
        lemma_follows_keeps_visited(trace[k], trace[k + 1], i);
        lemma_trace_keeps_visited(trace, i, k + 1);
    }
}

/// Within a round, each node is brought up to date at most once: once a
/// step of the round has made a node visited, no later step of the same
/// round makes it visited again, whatever the caller's work writes or reads
/// in between.
pub proof fn law_at_most_once_per_round<A>(trace: Seq<ContextView<A>>, n: int, i: int, j: int)
    requires
        forall|m: int| 0 <= m < trace.len() ==> (#[trigger] trace[m]).wf(),
        forall|m: int| 0 <= m < trace.len() - 1 ==> follows_within_round(#[trigger] trace[m], trace[m + 1]),
        0 <= i < j < trace.len() - 1,
        0 <= n < trace[i + 1].nodes.len(),
        !trace[i].nodes[n].visited,
        trace[i + 1].nodes[n].visited,
    ensures
        !(!trace[j].nodes[n].visited && trace[j + 1].nodes[n].visited),
{
    lemma_trace_keeps_visited(trace, n, i + 1);
    assert(trace[j].nodes[n].visited);
}

/// An effect whose dependencies are all up to date in the round is queued
/// to run if and only if one of them changed; either way it is then visited,
/// so it is not queued again in the round.
pub proof fn law_effect_queued_iff_changed<A>(v: ContextView<A>, n: usize)
    requires
        v.wf(),
        v.valid(n as int),
        v.is_effect(n as int),
        !v.nodes[n as int].visited,
        v.all_dependencies_visited(n as int),
    ensures
        v.update_node_spec(n).1 is Finished,
        v.update_node_spec(n).0.nodes[n as int].visited,
        v.any_dependency_dirty(n as int) ==> v.update_node_spec(n).0.effects == v.effects.push(n),
        !v.any_dependency_dirty(n as int) ==> v.update_node_spec(n).0.effects == v.effects,
{
}

/// A node is handed to the caller, or brought up to date, only when every
/// node on its dependency list is already up to date in the round; while
/// any of them is not, the node is put back on the schedule below them.
pub proof fn law_update_waits_for_every_dependency<A>(v: ContextView<A>, n: usize)
    requires
        v.wf(),
        v.valid(n as int),
        !v.nodes[n as int].visited,
    ensures
        (v.update_node_spec(n).1 is NeedsRecompute || v.update_node_spec(n).1 is Finished) ==> forall|k: int|
            0 <= k < v.nodes[n as int].dependencies.len() ==> v.nodes[v.nodes[n as int].dependencies[k] as int].visited,
        (exists|k: int|
            0 <= k < v.nodes[n as int].dependencies.len() && !v.nodes[v.nodes[n as int].dependencies[k] as int].visited)
            ==> {
            &&& v.update_node_spec(n).1 is Deferred
            &&& v.update_node_spec(n).0.to_be_updated[0] == n
            &&& v.update_node_spec(n).0.nodes == v.nodes
            &&& v.update_node_spec(n).0.running == v.running
        },
{
    if exists|k: int|
        0 <= k < v.nodes[n as int].dependencies.len() && !v.nodes[v.nodes[n as int].dependencies[k] as int].visited {
        let k = choose|k: int|
            0 <= k < v.nodes[n as int].dependencies.len() && !v.nodes[v.nodes[n as int].dependencies[k] as int].visited;
        assert(!v.nodes[v.nodes[n as int].dependencies[k] as int].visited);
    }
}

/// Once every dependency of a node is up to date in the round, a change of
/// any one of them, wherever it stands on the list, makes a memo be handed
/// out for recomputation and an effect be queued; when none of them
/// changed, no value changes, nothing is queued and nothing is handed out.
pub proof fn law_any_changed_dependency_triggers_update<A>(v: ContextView<A>, n: usize)
    requires
        v.wf(),
        v.valid(n as int),
        v.running is None,
        !v.nodes[n as int].visited,
        forall|k: int|
            0 <= k < v.nodes[n as int].dependencies.len() ==> v.nodes[v.nodes[n as int].dependencies[k] as int].visited,
    ensures
        (exists|k: int|
            0 <= k < v.nodes[n as int].dependencies.len() && v.nodes[v.nodes[n as int].dependencies[k] as int].dirty)
            ==> {
            &&& (v.nodes[n as int].update_op matches Some(UpdateOp::Recompute { .. }) ==> {
                &&& v.update_node_spec(n).1 is NeedsRecompute
                &&& v.update_node_spec(n).0.running == Some(n)
            })
            &&& (v.nodes[n as int].update_op matches Some(UpdateOp::ScheduleEffect) ==> {
                &&& v.update_node_spec(n).1 is Finished
                &&& v.update_node_spec(n).0.effects == v.effects.push(n)
            })
        },
        (forall|k: int|
            0 <= k < v.nodes[n as int].dependencies.len() ==> !v.nodes[v.nodes[n as int].dependencies[k] as int].dirty)
            ==> {
            &&& v.update_node_spec(n).1 is Finished
            &&& v.update_node_spec(n).0.values == v.values
            &&& v.update_node_spec(n).0.effects == v.effects
            &&& v.update_node_spec(n).0.running is None
        },
{
    if exists|k: int|
        0 <= k < v.nodes[n as int].dependencies.len() && v.nodes[v.nodes[n as int].dependencies[k] as int].dirty {
        let k = choose|k: int|
            0 <= k < v.nodes[n as int].dependencies.len() && v.nodes[v.nodes[n as int].dependencies[k] as int].dirty;
        assert(v.nodes[v.nodes[n as int].dependencies[k] as int].dirty);
    }
}

/// The end of every round, whether effects are waiting or not, leaves no
/// node visited or changed and nothing listed for clearing; the effects
/// queued in the round become the ones to run next, in queue order.
pub proof fn law_round_end_clears_flags<A>(v: ContextView<A>)
    requires
        v.wf(),
        v.propagating,
        v.running is None,
        v.pending_effects.len() == 0,
        v.to_be_updated.len() == 0,
    ensures
        forall|i: int|
            0 <= i < v.nodes.len() ==> !(#[trigger] v.next_step().0.nodes[i]).visited && !v.next_step().0.nodes[i].dirty,
        v.next_step().0.nodes.len() == v.nodes.len(),
        v.next_step().0.reset_visited_flags.len() == 0,
        v.next_step().0.clear_dirty_flags.len() == 0,
        v.next_step().0.pending_effects == v.effects,
        v.next_step().0.effects.len() == 0,
        v.next_step().0.values == v.values,
{
    let r = v.next_step().0;
    assert forall|i: int| 0 <= i < v.nodes.len() implies !(#[trigger] r.nodes[i]).visited && !r.nodes[i].dirty by {
        if v.nodes[i].visited {
            assert(v.reset_visited_flags.contains(i as usize));
        }
        if v.nodes[i].dirty {
            assert(v.clear_dirty_flags.contains(i as usize));
        }
    }
}

/// A memo is always alive: its recomputation holds the memo itself.
pub proof fn law_memo_always_alive<A>(v: ContextView<A>, n: usize)
    requires
        v.wf(),
        v.valid(n as int),
        v.nodes[n as int].update_op matches Some(UpdateOp::Recompute { .. }),
    ensures
        v.alive(n as int),
{
    v.lemma_root_alive(n as int);
}

} // verus!
