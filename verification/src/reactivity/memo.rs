use vstd::prelude::*;
use std::marker::PhantomData;

use super::context::{Context, ContextView};
use super::node::{Node, NodeValRef, NodeView, NodeWithValue, UpdateOp};
use vstd::std_specs::cmp::PartialEqSpec;

verus! {

/// A handle to a node whose value is computed from other nodes.
pub struct Memo<A> {
    data: usize,
    phantom: PhantomData<A>,
}

impl<A> Memo<A> {
    /// The node this handle refers to.
    pub closed spec fn id(&self) -> usize {
        self.data
    }

    /// The index of the node this handle refers to.
    pub fn index(&self) -> (r: usize)
        ensures
            r == self.id(),
    {
        self.data
    }

    /// A new memo with this one handle; `calmed` tells whether it reports a
    /// change only when a recomputation gives a value its equality judges
    /// different. Its first computation is entered: the caller computes the
    /// value (the reads it makes become the memo's dependencies) and hands it
    /// to [`Memo::set_initial`].
    fn create(ctx: &mut Context<A>, calmed: bool) -> (r: Memo<A>)
        requires
            old(ctx)@.wf(),
        ensures
            r.id() == old(ctx)@.nodes.len(),
            final(ctx)@ == old(ctx)@.with_new_node(
                None,
                NodeView::with_op(Some(UpdateOp::Recompute { calmed }), 1),
            ).entered(r.id()),
            final(ctx)@.wf(),
    {
        let mut node = Node::new();
        node.update_op = Some(UpdateOp::Recompute { calmed });
        node.handles = 1;
        let id: usize = ctx.add_node(NodeWithValue::new2(node));
        ctx.in_node(id);
        Memo { data: id, phantom: PhantomData }
    }

    /// A new memo that reports a change at every recomputation.
    pub fn new(ctx: &mut Context<A>) -> (r: Memo<A>)
        requires
            old(ctx)@.wf(),
        ensures
            r.id() == old(ctx)@.nodes.len(),
            final(ctx)@ == old(ctx)@.with_new_node(
                None,
                NodeView::with_op(Some(UpdateOp::Recompute { calmed: false }), 1),
            ).entered(r.id()),
            final(ctx)@.wf(),
    {
        Self::create(ctx, false)
    }

    /// A new memo that reports a change only when a recomputation gives a
    /// value different (by `==`) from the old one; its recomputations are
    /// completed with [`Context::complete_update_eq`].
    pub fn new_calmed_eq(ctx: &mut Context<A>) -> (r: Memo<A>)
        requires
            old(ctx)@.wf(),
        ensures
            r.id() == old(ctx)@.nodes.len(),
            final(ctx)@ == old(ctx)@.with_new_node(
                None,
                NodeView::with_op(Some(UpdateOp::Recompute { calmed: true }), 1),
            ).entered(r.id()),
            final(ctx)@.wf(),
    {
        Self::create(ctx, true)
    }

    /// A new memo that reports a change only when a recomputation gives a
    /// value that the caller's equality judges different from the old one.
    pub fn new_calmed(ctx: &mut Context<A>) -> (r: Memo<A>)
        requires
            old(ctx)@.wf(),
        ensures
            r.id() == old(ctx)@.nodes.len(),
            final(ctx)@ == old(ctx)@.with_new_node(
                None,
                NodeView::with_op(Some(UpdateOp::Recompute { calmed: true }), 1),
            ).entered(r.id()),
            final(ctx)@.wf(),
    {
        Self::create(ctx, true)
    }

    /// Ends the first computation of the memo, which produced `value`.
    pub fn set_initial(&self, ctx: &mut Context<A>, value: A)
        requires
            old(ctx)@.wf(),
            old(ctx)@.valid(self.id() as int),
            old(ctx)@.in_node == Some(self.id()),
            old(ctx)@.outer_nodes.len() > 0,
        ensures
            final(ctx)@ == (ContextView {
                values: old(ctx)@.values.update(self.id() as int, Some(value)),
                ..old(ctx)@.exited()
            }),
            final(ctx)@.wf(),
    {
        ctx.exit_node();
        ctx.set_value(self.data, value);
    }

    /// Takes the value of the memo. The read is recorded as the value is
    /// handed out: when a node is in progress, the memo becomes one of its
    /// dependencies.
    pub fn read<'a>(&self, ctx: &'a mut Context<A>) -> (r: NodeValRef<'a, A>)
        requires
            old(ctx)@.wf(),
            old(ctx)@.valid(self.id() as int),
            old(ctx)@.values[self.id() as int] is Some,
            old(ctx)@.alive(self.id() as int),
        ensures
            r.node == self.id(),
            Some(*r.value) == old(ctx)@.values[self.id() as int],
            final(ctx)@ == old(ctx)@.with_read(self.id()),
            final(ctx)@.wf(),
    {
        ctx.record_read(self.data);
        let c: &'a Context<A> = ctx;
        NodeValRef::new(c, self.data)
    }

    /// Another handle to the same memo.
    pub fn clone_handle(&self, ctx: &mut Context<A>) -> (r: Memo<A>)
        requires
            old(ctx)@.wf(),
            old(ctx)@.valid(self.id() as int),
            old(ctx)@.nodes[self.id() as int].handles < usize::MAX,
        ensures
            r.id() == self.id(),
            final(ctx)@ == old(ctx)@.with_handles(
                self.id(),
                (old(ctx)@.nodes[self.id() as int].handles + 1) as usize,
            ),
            final(ctx)@.wf(),
    {
        let h: usize = ctx.nodes[self.data].node.handles;
        ctx.set_handles(self.data, h + 1);
        Memo { data: self.data, phantom: PhantomData }
    }

    /// Gives up this handle. The memo itself stays alive, since its
    /// recomputation holds it, and it keeps being brought up to date.
    pub fn dispose(self, ctx: &mut Context<A>)
        requires
            old(ctx)@.wf(),
            old(ctx)@.valid(self.id() as int),
            old(ctx)@.nodes[self.id() as int].handles > 0,
        ensures
            final(ctx)@ == old(ctx)@.with_handles(
                self.id(),
                (old(ctx)@.nodes[self.id() as int].handles - 1) as usize,
            ),
            final(ctx)@.wf(),
    {
        let h: usize = ctx.nodes[self.data].node.handles;
        ctx.set_handles(self.data, h - 1);
    }
}

impl<A: PartialEq> Context<A> {
    /// Ends the recomputation of memo `n`, judging with `==` whether `value`
    /// is the same as the old value; returns that judgement.
    pub fn complete_update_eq(&mut self, n: usize, value: A) -> (same: bool)
        requires
            old(self)@.wf(),
            old(self)@.running == Some(n),
            old(self)@.in_node == Some(n),
            old(self)@.outer_nodes.len() > 0,
            old(self)@.nodes[n as int].update_op matches Some(UpdateOp::Recompute { .. }),
            old(self)@.values[n as int] is Some,
        ensures
            final(self)@ == old(self)@.completed_update(n, value, same),
            A::obeys_eq_spec() ==> same == old(self)@.values[n as int]->Some_0.eq_spec(&value),
            final(self)@.wf(),
    {
        let same = match &self.nodes[n].value {
            Some(old_value) => old_value.eq(&value),
            None => false,
        };
        self.complete_update(n, value, same);
        same
    }
}

impl<A> Context<A> {
    /// Stores `value` in node `n`.
    pub(crate) fn set_value(&mut self, n: usize, value: A)
        requires
            old(self)@.wf(),
            old(self)@.valid(n as int),
        ensures
            final(self)@ == (ContextView {
                values: old(self)@.values.update(n as int, Some(value)),
                ..old(self)@
            }),
            final(self)@.wf(),
    {
        let ghost v0 = self@;
        let ghost nb = self.nodes@;
        self.nodes[n].value = Some(value);
        proof {
            let v = self@;
            assert(self.nodes@ == nb.update(n as int, self.nodes@[n as int]));
            assert(v.nodes =~= v0.nodes);
            assert(v.values =~= v0.values.update(n as int, Some(value)));
            assert forall|i: int| #![trigger v.values[i]] v.valid(i) && v.nodes[i].update_op is None implies v.values[i] is Some by {
                if i != n as int {
                    assert(v0.values[i] == v.values[i]);
                }
            }
        }
    }
}

} // verus!
