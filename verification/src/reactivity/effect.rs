use vstd::prelude::*;

use super::context::{Context, ContextView};
use super::node::{Node, NodeView, NodeWithValue, UpdateOp};

verus! {

/// A handle to a node that runs a body each time a node it read changed.
pub struct Effect {
    data: usize,
}

/// How many times `x` occurs in `s`.
pub open spec fn count(s: Seq<usize>, x: usize) -> nat
    decreases s.len(),
{
    if s.len() == 0 {
        0
    } else {
        count(s.drop_last(), x) + if s.last() == x {
            1nat
        } else {
            0nat
        }
    }
}

/// A prefix holds an element no more often than the whole sequence.
proof fn lemma_count_prefix(s: Seq<usize>, k: int, x: usize)
    requires
        0 <= k <= s.len(),
    ensures
        count(s.take(k), x) <= count(s, x),
    decreases s.len() - k,
{
    if k < s.len() {
        lemma_count_prefix(s, k + 1, x);
        assert(s.take(k + 1).drop_last() == s.take(k));
    } else {
        assert(s.take(k) == s);
    }
}

/// An element held by a sequence occurs at least once in it.
pub proof fn lemma_count_contains(s: Seq<usize>, x: usize)
    requires
        s.contains(x),
    ensures
        count(s, x) >= 1,
    decreases s.len(),
{
    if s.last() != x {
        let k = choose|k: int| 0 <= k < s.len() && s[k] == x;
        assert(s.drop_last()[k] == x);
        lemma_count_contains(s.drop_last(), x);
    }
}

impl<A> ContextView<A> {
    /// The state after the handles listed in `ids` were given up, one per
    /// occurrence.
    pub open spec fn released(self, ids: Seq<usize>) -> ContextView<A> {
        ContextView {
            nodes: Seq::new(
                self.nodes.len(),
                |i: int|
                    NodeView {
                        handles: (self.nodes[i].handles - count(ids, i as usize)) as usize,
                        ..self.nodes[i]
                    },
            ),
            ..self
        }
    }

    /// The state after a new effect owning `owned` was created (with one
    /// handle) and queued for its first run.
    pub open spec fn with_new_effect(self, owned: Seq<usize>) -> ContextView<A> {
        let s1 = self.with_new_node(
            None,
            NodeView { owned, ..NodeView::with_op(Some(UpdateOp::ScheduleEffect), 1) },
        );
        ContextView { effects: s1.effects.push(self.nodes.len() as usize), ..s1 }
    }
}

impl Effect {
    /// The node this handle refers to.
    pub closed spec fn id(&self) -> usize {
        self.data
    }

    /// The index of the node this handle refers to.
    pub fn index(&self) -> (r: usize)
        ensures
            r == self.id(),
    {
        self.data
    }

    fn create<A>(ctx: &mut Context<A>, owned: Vec<usize>) -> (r: Effect)
        requires
            old(ctx)@.wf(),
            old(ctx)@.ids_valid(owned@),
            old(ctx)@.transaction_depth < usize::MAX,
        ensures
            r.id() == old(ctx)@.nodes.len(),
            final(ctx)@ == old(ctx)@.with_new_effect(owned@),
            final(ctx)@.wf(),
    {
        let ghost v0 = ctx@;
        ctx.batch();
        let mut node = Node::new();
        node.update_op = Some(UpdateOp::ScheduleEffect);
        node.handles = 1;
        node.owned = owned;
        let id: usize = ctx.add_node(NodeWithValue::new2(node));
        ctx.push_effect(id);
        ctx.end_batch();
        proof {
            assert(ctx@ =~= v0.with_new_effect(owned@));
        }
        Effect { data: id }
    }

    /// A new effect with this one handle, queued for its first run: the
    /// next propagation hands it to the caller, and the reads made by its
    /// body become its dependencies.
    pub fn new<A>(ctx: &mut Context<A>) -> (r: Effect)
        requires
            old(ctx)@.wf(),
            old(ctx)@.transaction_depth < usize::MAX,
        ensures
            r.id() == old(ctx)@.nodes.len(),
            final(ctx)@ == old(ctx)@.with_new_effect(Seq::empty()),
            final(ctx)@.wf(),
    {
        Self::create(ctx, Vec::new())
    }

    /// A new effect, with an empty body, that keeps the given effects alive
    /// for as long as it is alive itself; their handles are given up.
    pub fn merge<A>(ctx: &mut Context<A>, effects: Vec<Effect>) -> (r: Effect)
        requires
            old(ctx)@.wf(),
            old(ctx)@.transaction_depth < usize::MAX,
            forall|k: int| 0 <= k < effects@.len() ==> old(ctx)@.valid(#[trigger] effects@[k].id() as int),
            forall|i: int|
                old(ctx)@.valid(i) ==> count(effects@.map_values(|e: Effect| e.id()), i as usize)
                    <= #[trigger] old(ctx)@.nodes[i].handles,
        ensures
            r.id() == old(ctx)@.nodes.len(),
            final(ctx)@ == old(ctx)@.released(effects@.map_values(|e: Effect| e.id())).with_new_effect(
                effects@.map_values(|e: Effect| e.id()),
            ),
            final(ctx)@.wf(),
    {
        let ghost v0 = ctx@;
        let ghost all = effects@.map_values(|e: Effect| e.id());
        let mut ids: Vec<usize> = Vec::new();
        let mut k: usize = 0;
        while k < effects.len()
            invariant
                0 <= k <= effects@.len(),
                all == effects@.map_values(|e: Effect| e.id()),
                v0.wf(),
                forall|j: int| 0 <= j < effects@.len() ==> v0.valid(#[trigger] effects@[j].id() as int),
                forall|i: int| v0.valid(i) ==> count(all, i as usize) <= #[trigger] v0.nodes[i].handles,
                ids@ == all.take(k as int),
                ctx@ == v0.released(ids@),
                ctx@.wf(),
            decreases effects@.len() - k,
        {
            let id: usize = effects[k].data;
            let ghost before = ctx@;
            proof {
                assert(all[k as int] == id);
                assert(all.take(k + 1) == all.take(k as int).push(id));
                assert(all.take(k + 1).drop_last() == all.take(k as int));
                lemma_count_prefix(all, k + 1, id);
                assert(v0.valid(id as int));
                assert(before.nodes[id as int].handles == (v0.nodes[id as int].handles - count(all.take(k as int), id)) as usize);
            }
            let h: usize = ctx.nodes[id].node.handles;
            ctx.set_handles(id, h - 1);
            ids.push(id);
            proof {
                let v = ctx@;
                let t = v0.released(ids@);
                assert forall|i: int| 0 <= i < v.nodes.len() implies v.nodes[i] == t.nodes[i] by {
                    assert(ids@.drop_last() == all.take(k as int));
                    if i != id as int {
                        assert(v.nodes[i] == before.nodes[i]);
                    }
                }
                assert(v.nodes =~= t.nodes);
                assert(v =~= t);
            }
            k = k + 1;
        }
        proof {
            assert(all.take(k as int) == all);
            assert(ids@ == all);
        }
        Self::create(ctx, ids)
    }

    /// Another handle to the same effect.
    pub fn clone_handle<A>(&self, ctx: &mut Context<A>) -> (r: Effect)
        requires
            old(ctx)@.wf(),
            old(ctx)@.valid(self.id() as int),
            old(ctx)@.nodes[self.id() as int].handles < usize::MAX,
        ensures
            r.id() == self.id(),
            final(ctx)@ == old(ctx)@.with_handles(
                self.id(),
                (old(ctx)@.nodes[self.id() as int].handles + 1) as usize,
            ),
            final(ctx)@.wf(),
    {
        let h: usize = ctx.nodes[self.data].node.handles;
        ctx.set_handles(self.data, h + 1);
        Effect { data: self.data }
    }

    /// Gives up this handle; once no handle, queue or other alive node holds
    /// the effect, it is no longer run.
    pub fn dispose<A>(self, ctx: &mut Context<A>)
        requires
            old(ctx)@.wf(),
            old(ctx)@.valid(self.id() as int),
            old(ctx)@.nodes[self.id() as int].handles > 0,
        ensures
            final(ctx)@ == old(ctx)@.with_handles(
                self.id(),
                (old(ctx)@.nodes[self.id() as int].handles - 1) as usize,
            ),
            final(ctx)@.wf(),
    {
        let h: usize = ctx.nodes[self.data].node.handles;
        ctx.set_handles(self.data, h - 1);
    }
}

} // verus!
