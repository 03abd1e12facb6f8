use vstd::prelude::*;
use std::marker::PhantomData;

use super::context::{Context, ContextView};
use super::node::{NodeValRef, NodeView, NodeWithValue};

verus! {

/// A handle to a node that holds a value set from outside.
pub struct Signal<A> {
    data: usize,
    phantom: PhantomData<A>,
}

impl<A> ContextView<A> {
    /// The state after `value` was written to signal `n`: the signal holds
    /// `value`, is marked changed until the round ends, and is scheduled.
    pub open spec fn written(self, n: usize, value: A) -> ContextView<A> {
        ContextView {
            values: self.values.update(n as int, Some(value)),
            nodes: self.nodes.update(n as int, NodeView { dirty: true, ..self.nodes[n as int] }),
            clear_dirty_flags: self.clear_dirty_flags.push(n),
            to_be_updated: self.to_be_updated.push(n),
            ..self
        }
    }

    /// The state with the handle count of node `n` set to `handles`.
    pub open spec fn with_handles(self, n: usize, handles: usize) -> ContextView<A> {
        self.with_node(n as int, NodeView { handles, ..self.nodes[n as int] })
    }
}

impl<A> Context<A> {
    /// Sets the handle count of node `n`.
    pub(crate) fn set_handles(&mut self, n: usize, handles: usize)
        requires
            old(self)@.wf(),
            old(self)@.valid(n as int),
        ensures
            final(self)@ == old(self)@.with_handles(n, handles),
            final(self)@.wf(),
    {
        let ghost v0 = self@;
        let ghost nb = self.nodes@;
        self.nodes[n].node.handles = handles;
        proof {
            let v = self@;
            assert(self.nodes@ == nb.update(n as int, self.nodes@[n as int]));
            assert(v.nodes =~= v0.with_handles(n, handles).nodes);
            assert(v.values =~= v0.values);
            ContextView::lemma_wf_same_shape(v0, v);
        }
    }
}

impl<A> Signal<A> {
    /// The node this handle refers to.
    pub closed spec fn id(&self) -> usize {
        self.data
    }

    /// The index of the node this handle refers to.
    pub fn index(&self) -> (r: usize)
        ensures
            r == self.id(),
    {
        self.data
    }

    /// A new signal holding `init_value`, with this one handle.
    pub fn new(ctx: &mut Context<A>, init_value: A) -> (r: Signal<A>)
        requires
            old(ctx)@.wf(),
        ensures
            r.id() == old(ctx)@.nodes.len(),
            final(ctx)@ == old(ctx)@.with_new_node(Some(init_value), NodeView::with_op(None, 1)),
            final(ctx)@.wf(),
    {
        let mut data = NodeWithValue::new(init_value);
        data.node.handles = 1;
        let id: usize = ctx.add_node(data);
        Signal { data: id, phantom: PhantomData }
    }

    /// Takes the value of the signal. The read is recorded as the value is
    /// handed out: when a node is in progress, the signal becomes one of its
    /// dependencies.
    pub fn read<'a>(&self, ctx: &'a mut Context<A>) -> (r: NodeValRef<'a, A>)
        requires
            old(ctx)@.wf(),
            old(ctx)@.valid(self.id() as int),
            old(ctx)@.values[self.id() as int] is Some,
            old(ctx)@.alive(self.id() as int),
        ensures
            r.node == self.id(),
            Some(*r.value) == old(ctx)@.values[self.id() as int],
            final(ctx)@ == old(ctx)@.with_read(self.id()),
            final(ctx)@.wf(),
    {
        ctx.record_read(self.data);
        let c: &'a Context<A> = ctx;
        NodeValRef::new(c, self.data)
    }

    /// The value of the signal, read without recording any dependency.
    pub fn peek<'a>(&self, ctx: &'a Context<A>) -> (r: &'a A)
        requires
            ctx@.wf(),
            ctx@.valid(self.id() as int),
            ctx@.values[self.id() as int] is Some,
        ensures
            Some(*r) == ctx@.values[self.id() as int],
    {
        match &ctx.nodes[self.data].value {
            Some(v) => v,
            None => unreached(),
        }
    }

    /// Writes `value` to the signal and schedules it, so that the nodes that
    /// read it are brought up to date by the next propagation.
    pub fn write(&mut self, ctx: &mut Context<A>, value: A)
        requires
            old(ctx)@.wf(),
            old(ctx)@.valid(old(self).id() as int),
            old(ctx)@.nodes[old(self).id() as int].update_op is None,
            old(ctx)@.transaction_depth < usize::MAX,
        ensures
            final(self).id() == old(self).id(),
            final(ctx)@ == old(ctx)@.written(old(self).id(), value),
            final(ctx)@.wf(),
    {
        let n: usize = self.data;
        let ghost v0 = ctx@;
        ctx.clear_dirty_flag_at_end(n);
        let ghost va = ctx@;
        let ghost nb = ctx.nodes@;
        ctx.nodes[n].value = Some(value);
        ctx.nodes[n].node.dirty = true;
        proof {
            let v = ctx@;
            assert(ctx.nodes@ == nb.update(n as int, ctx.nodes@[n as int]));
            assert(v.nodes =~= va.nodes.update(n as int, NodeView { dirty: true, ..va.nodes[n as int] }));
            assert(v.values =~= va.values.update(n as int, Some(value)));
            assert forall|i: int| v.valid(i) && (#[trigger] v.nodes[i]).dirty implies v.clear_dirty_flags.contains(i as usize) by {
                if i != n as int {
                    assert(va.nodes[i].dirty);
                } else {
                    assert(v.clear_dirty_flags[v.clear_dirty_flags.len() - 1] == n);
                }
            }
            assert forall|i: int| v.valid(i) && (#[trigger] v.nodes[i]).visited implies v.reset_visited_flags.contains(i as usize) by {
                assert(va.nodes[i].visited);
            }
            ContextView::lemma_wf_same_shape(va, v);
        }
        ctx.batch();
        let mut marked: Vec<usize> = Vec::new();
        marked.push(n);
        ctx.mark_nodes_to_be_updated(&marked);
        ctx.end_batch();
        proof {
            assert(ctx@ =~= v0.written(n, value));
        }
    }

    /// Another handle to the same signal.
    pub fn clone_handle(&self, ctx: &mut Context<A>) -> (r: Signal<A>)
        requires
            old(ctx)@.wf(),
            old(ctx)@.valid(self.id() as int),
            old(ctx)@.nodes[self.id() as int].handles < usize::MAX,
        ensures
            r.id() == self.id(),
            final(ctx)@ == old(ctx)@.with_handles(
                self.id(),
                (old(ctx)@.nodes[self.id() as int].handles + 1) as usize,
            ),
            final(ctx)@.wf(),
    {
        let h: usize = ctx.nodes[self.data].node.handles;
        ctx.set_handles(self.data, h + 1);
        Signal { data: self.data, phantom: PhantomData }
    }

    /// Gives up this handle.
    pub fn dispose(self, ctx: &mut Context<A>)
        requires
            old(ctx)@.wf(),
            old(ctx)@.valid(self.id() as int),
            old(ctx)@.nodes[self.id() as int].handles > 0,
        ensures
            final(ctx)@ == old(ctx)@.with_handles(
                self.id(),
                (old(ctx)@.nodes[self.id() as int].handles - 1) as usize,
            ),
            final(ctx)@.wf(),
    {
        let h: usize = ctx.nodes[self.data].node.handles;
        ctx.set_handles(self.data, h - 1);
    }
}

} // verus!
