use reactive::{
    Context, Effect, HasNode, Memo, Node, NodeValRef, NodeWithValue, Signal, Step, UpdateOutcome,
};
use std::cell::RefCell;
use std::collections::HashMap;
use std::rc::Rc;

type Compute = Box<dyn FnMut(&mut Rt) -> i32>;
type Equal = Box<dyn FnMut(&i32, &i32) -> bool>;
type Body = Box<dyn FnMut(&mut Rt)>;

enum Calm {
    Never,
    Eq,
    Custom(Equal),
}

/// Drives a context: holds the computations of memos and the bodies of
/// effects, and performs the steps that a propagation hands out.
struct Rt {
    ctx: Context<i32>,
    memos: HashMap<usize, (Compute, Calm)>,
    effects: HashMap<usize, Body>,
}

impl Rt {
    fn new() -> Rt {
        Rt { ctx: Context::new(), memos: HashMap::new(), effects: HashMap::new() }
    }

    fn signal(&mut self, v: i32) -> Signal<i32> {
        Signal::new(&mut self.ctx, v)
    }

    fn get(&mut self, s: &Signal<i32>) -> i32 {
        *s.read(&mut self.ctx).get()
    }

    fn get_memo(&mut self, m: &Memo<i32>) -> i32 {
        *m.read(&mut self.ctx).get()
    }

    fn set(&mut self, s: &mut Signal<i32>, v: i32) {
        s.write(&mut self.ctx, v);
        self.run();
    }

    fn memo_with(&mut self, m: Memo<i32>, mut k: Compute, calm: Calm) -> Memo<i32> {
        let v = k(self);
        m.set_initial(&mut self.ctx, v);
        self.memos.insert(m.index(), (k, calm));
        m
    }

    fn memo(&mut self, k: impl FnMut(&mut Rt) -> i32 + 'static) -> Memo<i32> {
        let m = Memo::new(&mut self.ctx);
        self.memo_with(m, Box::new(k), Calm::Never)
    }

    fn memo_calmed_eq(&mut self, k: impl FnMut(&mut Rt) -> i32 + 'static) -> Memo<i32> {
        let m = Memo::new_calmed_eq(&mut self.ctx);
        self.memo_with(m, Box::new(k), Calm::Eq)
    }

    fn memo_calmed(
        &mut self,
        k: impl FnMut(&mut Rt) -> i32 + 'static,
        eq: impl FnMut(&i32, &i32) -> bool + 'static,
    ) -> Memo<i32> {
        let m = Memo::new_calmed(&mut self.ctx);
        self.memo_with(m, Box::new(k), Calm::Custom(Box::new(eq)))
    }

    fn effect(&mut self, k: impl FnMut(&mut Rt) + 'static) -> Effect {
        let e = Effect::new(&mut self.ctx);
        self.effects.insert(e.index(), Box::new(k));
        self.run();
        e
    }

    fn batch(&mut self, k: impl FnOnce(&mut Rt)) {
        self.ctx.batch();
        k(self);
        self.ctx.end_batch();
        self.run();
    }

    fn run(&mut self) {
        loop {
            match self.ctx.propergate() {
                Step::Idle => break,
                Step::Continue => {}
                Step::Recompute(n) => {
                    let (mut k, mut calm) = self.memos.remove(&n).unwrap();
                    let v = k(self);
                    match &mut calm {
                        Calm::Never => self.ctx.complete_update(n, v, false),
                        Calm::Eq => {
                            self.ctx.complete_update_eq(n, v);
                        }
                        Calm::Custom(eq) => {
                            let same = eq(self.ctx.nodes[n].value.as_ref().unwrap(), &v);
                            self.ctx.complete_update(n, v, same);
                        }
                    }
                    self.memos.insert(n, (k, calm));
                }
                Step::RunEffect(n) => {
                    match self.effects.remove(&n) {
                        Some(mut k) => {
                            k(self);
                            self.effects.insert(n, k);
                        }
                        None => {}
                    }
                    self.ctx.complete_effect(n);
                }
            }
        }
    }
}

#[test]
fn test_effect() {
    let out = Rc::new(RefCell::new(Vec::new()));
    let mut rt = Rt::new();
    let mut a = rt.signal(1);
    let mut b = rt.signal(2);
    let (a2, b2) = (a.clone_handle(&mut rt.ctx), b.clone_handle(&mut rt.ctx));
    let c = rt.memo(move |rt| rt.get(&a2) + rt.get(&b2));
    let out2 = out.clone();
    let _effect = rt.effect(move |rt| {
        let v = rt.get_memo(&c);
        out2.borrow_mut().push(v)
    });
    rt.set(&mut a, 3);
    rt.batch(|rt| {
        rt.set(&mut a, 10);
        rt.set(&mut b, 12);
    });
    assert_eq!(*out.borrow(), vec![3, 5, 22]);
}

#[test]
fn test_calmed() {
    let out = Rc::new(RefCell::new(Vec::new()));
    let mut rt = Rt::new();
    let mut a: Signal<i32> = rt.signal(1);
    let a2 = a.clone_handle(&mut rt.ctx);
    let b = rt.memo_calmed_eq(move |rt| rt.get(&a2));
    let out2 = out.clone();
    let _effect = rt.effect(move |rt| {
        let v = rt.get_memo(&b);
        out2.borrow_mut().push(v)
    });
    rt.set(&mut a, 2);
    rt.set(&mut a, 2);
    rt.set(&mut a, 3);
    assert_eq!(*out.borrow(), vec![1, 2, 3]);
}

#[test]
fn test_memo_mem() {
    let out = Rc::new(RefCell::new(Vec::new()));
    let mut rt = Rt::new();
    let mut a = rt.signal(1);
    {
        let a2 = a.clone_handle(&mut rt.ctx);
        let out2 = out.clone();
        let e = rt.effect(move |rt| {
            let v = rt.get(&a2);
            out2.borrow_mut().push(v)
        });
        rt.set(&mut a, 2);
        e.dispose(&mut rt.ctx);
    }
    rt.set(&mut a, 3);
    // here should only output 1 2
    assert_eq!(*out.borrow(), vec![1, 2]);
}

#[test]
fn test_write_sig_in_effect() {
    let out = Rc::new(RefCell::new(Vec::new()));
    let mut rt = Rt::new();
    let mut a = rt.signal(1);
    let mut b = rt.signal(0);
    let a2 = a.clone_handle(&mut rt.ctx);
    let mut b2 = b.clone_handle(&mut rt.ctx);
    let b3 = b.clone_handle(&mut rt.ctx);
    let _e1 = rt.effect(move |rt| {
        let v = rt.get(&a2) * 2;
        rt.set(&mut b2, v)
    });
    let out2 = out.clone();
    let _e2 = rt.effect(move |rt| {
        let v = rt.get(&b3);
        out2.borrow_mut().push(v)
    });
    rt.batch(move |rt| {
        rt.set(&mut a, 2);
        rt.set(&mut b, 3);
    });
    assert_eq!(*out.borrow(), vec![2, 3, 4]);
}

#[test]
fn exit_node_restores_outer_node() {
    let mut ctx: Context<i32> = Context::new();
    let a = Signal::new(&mut ctx, 1);
    let b = Signal::new(&mut ctx, 2);
    assert_eq!(ctx.outer_node(), None);
    ctx.in_node(a.index());
    ctx.in_node(b.index());
    assert_eq!(ctx.outer_node(), Some(b.index()));
    ctx.exit_node();
    assert_eq!(ctx.outer_node(), Some(a.index()));
    ctx.exit_node();
    assert_eq!(ctx.outer_node(), None);
    assert!(ctx.outer_nodes.is_empty());
}

#[test]
fn end_batch_reports_outermost() {
    let mut ctx: Context<i32> = Context::new();
    ctx.batch();
    ctx.batch();
    assert_eq!(ctx.transaction_depth, 2);
    assert!(!ctx.end_batch());
    assert!(ctx.end_batch());
    assert_eq!(ctx.transaction_depth, 0);
}

#[test]
fn read_after_write_gives_written_value() {
    let mut ctx: Context<i32> = Context::new();
    let mut a = Signal::new(&mut ctx, 1);
    a.write(&mut ctx, 7);
    assert_eq!(*a.read(&mut ctx).get(), 7);
    assert!(ctx.nodes[a.index()].node.dirty);
    assert_eq!(ctx.to_be_updated, vec![a.index()]);
    assert_eq!(ctx.clear_dirty_flags, vec![a.index()]);
}

#[test]
fn read_outside_computation_records_nothing() {
    let mut ctx: Context<i32> = Context::new();
    let a = Signal::new(&mut ctx, 1);
    let r = a.read(&mut ctx);
    assert_eq!(*r.value, 1);
    assert_eq!(r.node, a.index());
    assert!(ctx.nodes[a.index()].node.dependents.is_empty());
}

#[test]
fn read_inside_computation_records_dependency() {
    let mut ctx: Context<i32> = Context::new();
    let a = Signal::new(&mut ctx, 5);
    let m = Memo::new(&mut ctx);
    let v = *a.read(&mut ctx).get() * 3;
    m.set_initial(&mut ctx, v);
    assert_eq!(ctx.nodes[m.index()].node.dependencies, vec![a.index()]);
    assert_eq!(ctx.nodes[a.index()].node.dependents, vec![m.index()]);
    assert_eq!(*m.read(&mut ctx).get(), 15);
    assert_eq!(ctx.outer_node(), None);
}

#[test]
fn propagation_steps_for_one_memo() {
    let mut ctx: Context<i32> = Context::new();
    let mut a = Signal::new(&mut ctx, 1);
    let m = Memo::new(&mut ctx);
    let v = *a.read(&mut ctx).get() + 1;
    m.set_initial(&mut ctx, v);
    a.write(&mut ctx, 10);
    // the signal is brought up to date and schedules the memo
    assert!(matches!(ctx.propergate(), Step::Continue));
    assert!(ctx.propagating);
    assert_eq!(ctx.transaction_depth, 1);
    assert!(matches!(ctx.propergate(), Step::Recompute(n) if n == m.index()));
    // while the recomputation is owed, nothing moves
    assert!(matches!(ctx.propergate(), Step::Idle));
    assert!(ctx.nodes[m.index()].node.dependencies.is_empty());
    let v = *a.read(&mut ctx).get() + 1;
    ctx.complete_update(m.index(), v, false);
    assert_eq!(*m.read(&mut ctx).get(), 11);
    assert!(matches!(ctx.propergate(), Step::Idle));
    assert!(!ctx.propagating);
    assert_eq!(ctx.transaction_depth, 0);
    for n in &ctx.nodes {
        assert!(!n.node.visited);
        assert!(!n.node.dirty);
    }
    assert!(ctx.reset_visited_flags.is_empty());
    assert!(ctx.clear_dirty_flags.is_empty());
}

#[test]
fn no_propagation_inside_batch() {
    let mut ctx: Context<i32> = Context::new();
    let mut a = Signal::new(&mut ctx, 1);
    ctx.batch();
    a.write(&mut ctx, 2);
    assert!(matches!(ctx.propergate(), Step::Idle));
    assert_eq!(ctx.to_be_updated, vec![a.index()]);
    assert!(ctx.end_batch());
    assert!(matches!(ctx.propergate(), Step::Continue));
    assert!(matches!(ctx.propergate(), Step::Idle));
    assert_eq!(*a.read(&mut ctx).get(), 2);
}

#[test]
fn update_node_defers_then_skips() {
    let mut ctx: Context<i32> = Context::new();
    let a = Signal::new(&mut ctx, 1);
    let m = Memo::new(&mut ctx);
    let v = *a.read(&mut ctx).get();
    m.set_initial(&mut ctx, v);
    // the dependency was not visited yet: the memo is put back under it
    assert!(matches!(ctx.update_node(m.index()), UpdateOutcome::Deferred));
    assert_eq!(ctx.to_be_updated, vec![m.index(), a.index()]);
    assert!(matches!(ctx.update_node(a.index()), UpdateOutcome::Finished));
    assert!(ctx.nodes[a.index()].node.visited);
    // no dependency changed: the memo is finished without a recomputation
    assert!(matches!(ctx.update_node(m.index()), UpdateOutcome::Finished));
    assert!(matches!(ctx.update_node(m.index()), UpdateOutcome::Skipped));
    assert_eq!(ctx.reset_visited_flags, vec![a.index(), m.index()]);
}

#[test]
fn calmed_memo_with_custom_equality() {
    let out = Rc::new(RefCell::new(Vec::new()));
    let mut rt = Rt::new();
    let mut a = rt.signal(11);
    let a2 = a.clone_handle(&mut rt.ctx);
    let tens = rt.memo_calmed(move |rt| rt.get(&a2), |x, y| x / 10 == y / 10);
    let out2 = out.clone();
    let _e = rt.effect(move |rt| {
        let v = rt.get_memo(&tens);
        out2.borrow_mut().push(v)
    });
    rt.set(&mut a, 15);
    rt.set(&mut a, 23);
    rt.set(&mut a, 27);
    rt.set(&mut a, 5);
    assert_eq!(*out.borrow(), vec![11, 23, 5]);
}

#[test]
fn complete_update_eq_judges_with_eq() {
    let mut ctx: Context<i32> = Context::new();
    let mut a = Signal::new(&mut ctx, 4);
    let m = Memo::new_calmed_eq(&mut ctx);
    let v = *a.read(&mut ctx).get() % 2;
    m.set_initial(&mut ctx, v);
    a.write(&mut ctx, 6);
    assert!(matches!(ctx.propergate(), Step::Continue));
    assert!(matches!(ctx.propergate(), Step::Recompute(_)));
    let v = *a.read(&mut ctx).get() % 2;
    assert!(ctx.complete_update_eq(m.index(), v));
    assert!(!ctx.nodes[m.index()].node.dirty);
    assert_eq!(*m.read(&mut ctx).get(), 0);
    assert!(matches!(ctx.propergate(), Step::Idle));
}

#[test]
fn memo_kept_alive_by_its_reader() {
    let out = Rc::new(RefCell::new(Vec::new()));
    let mut rt = Rt::new();
    let mut a = rt.signal(1);
    let a2 = a.clone_handle(&mut rt.ctx);
    let m = rt.memo(move |rt| rt.get(&a2) * 10);
    let m2 = m.clone_handle(&mut rt.ctx);
    let out2 = out.clone();
    let _e = rt.effect(move |rt| {
        let v = rt.get_memo(&m2);
        out2.borrow_mut().push(v)
    });
    let id = m.index();
    m.dispose(&mut rt.ctx);
    assert_eq!(rt.ctx.nodes[id].node.handles, 1);
    assert!(rt.ctx.is_alive(id));
    rt.set(&mut a, 2);
    assert_eq!(*out.borrow(), vec![10, 20]);
}

#[test]
fn memo_outlives_its_handles() {
    let count = Rc::new(RefCell::new(0));
    let mut rt = Rt::new();
    let mut a = rt.signal(1);
    let a2 = a.clone_handle(&mut rt.ctx);
    let count2 = count.clone();
    let m = rt.memo(move |rt| {
        *count2.borrow_mut() += 1;
        rt.get(&a2)
    });
    let id = m.index();
    rt.set(&mut a, 2);
    assert_eq!(*count.borrow(), 2);
    m.dispose(&mut rt.ctx);
    // the memo holds itself: it stays alive and keeps recomputing
    assert!(rt.ctx.is_alive(id));
    rt.set(&mut a, 3);
    assert_eq!(*count.borrow(), 3);
    assert_eq!(rt.ctx.nodes[id].value, Some(3));
}

#[test]
fn peek_records_no_dependency() {
    let out = Rc::new(RefCell::new(Vec::new()));
    let mut rt = Rt::new();
    let mut a = rt.signal(1);
    let mut a2 = a.clone_handle(&mut rt.ctx);
    let mut b = rt.signal(0);
    let b2 = b.clone_handle(&mut rt.ctx);
    let out2 = out.clone();
    // the effect bumps a by what it reads of b, without reading a
    let _e = rt.effect(move |rt| {
        let v = *a2.peek(&rt.ctx) + rt.get(&b2);
        out2.borrow_mut().push(v);
        rt.set(&mut a2, v);
    });
    assert_eq!(rt.ctx.nodes[a.index()].node.dependents, Vec::<usize>::new());
    rt.set(&mut b, 10);
    rt.set(&mut a, 5);
    assert_eq!(*out.borrow(), vec![1, 11]);
    assert_eq!(*a.peek(&rt.ctx), 5);
}

#[test]
fn handle_usable_after_write() {
    let mut ctx: Context<i32> = Context::new();
    let mut a = Signal::new(&mut ctx, 1);
    let id = a.index();
    a.write(&mut ctx, 2);
    assert_eq!(a.index(), id);
    a.write(&mut ctx, 3);
    assert_eq!(*a.read(&mut ctx).get(), 3);
}

#[test]
fn merged_effects_live_as_long_as_the_merge() {
    let out = Rc::new(RefCell::new(Vec::new()));
    let mut rt = Rt::new();
    let mut a = rt.signal(1);
    let a2 = a.clone_handle(&mut rt.ctx);
    let out2 = out.clone();
    let e = rt.effect(move |rt| {
        let v = rt.get(&a2);
        out2.borrow_mut().push(v)
    });
    let e_id = e.index();
    let merged = Effect::merge(&mut rt.ctx, vec![e]);
    rt.run();
    assert_eq!(rt.ctx.nodes[e_id].node.handles, 0);
    assert_eq!(rt.ctx.nodes[merged.index()].node.owned, vec![e_id]);
    rt.set(&mut a, 2);
    assert_eq!(*out.borrow(), vec![1, 2]);
    merged.dispose(&mut rt.ctx);
    assert!(!rt.ctx.is_alive(e_id));
    rt.set(&mut a, 3);
    assert_eq!(*out.borrow(), vec![1, 2]);
}

#[test]
fn effect_dependencies_follow_last_run() {
    let out = Rc::new(RefCell::new(Vec::new()));
    let mut rt = Rt::new();
    let mut flag = rt.signal(1);
    let mut b = rt.signal(100);
    let flag2 = flag.clone_handle(&mut rt.ctx);
    let b2 = b.clone_handle(&mut rt.ctx);
    let out2 = out.clone();
    let _e = rt.effect(move |rt| {
        let v = if rt.get(&flag2) > 0 { rt.get(&b2) } else { -1 };
        out2.borrow_mut().push(v)
    });
    rt.set(&mut b, 101);
    rt.set(&mut flag, 0);
    // b is no longer read: writing it runs nothing
    rt.set(&mut b, 102);
    assert_eq!(*out.borrow(), vec![100, 101, -1]);
}

#[test]
fn handles_count_clones_and_disposals() {
    let mut ctx: Context<i32> = Context::new();
    let a = Signal::new(&mut ctx, 1);
    let a2 = a.clone_handle(&mut ctx);
    assert_eq!(a2.index(), a.index());
    assert_eq!(ctx.nodes[a.index()].node.handles, 2);
    let id = a.index();
    a2.dispose(&mut ctx);
    assert!(ctx.is_alive(id));
    a.dispose(&mut ctx);
    assert_eq!(ctx.nodes[id].node.handles, 0);
    assert!(!ctx.is_alive(id));
}

#[test]
fn clear_dependencies_is_symmetric() {
    let mut ctx: Context<i32> = Context::new();
    let a = Signal::new(&mut ctx, 1);
    let b = Signal::new(&mut ctx, 2);
    let m = Memo::new(&mut ctx);
    let x = *a.read(&mut ctx).get();
    let y = *b.read(&mut ctx).get();
    let z = *a.read(&mut ctx).get();
    m.set_initial(&mut ctx, x + y + z);
    assert_eq!(ctx.nodes[m.index()].node.dependencies, vec![a.index(), b.index(), a.index()]);
    assert_eq!(ctx.nodes[a.index()].node.dependents, vec![m.index(), m.index()]);
    ctx.clear_dependencies(m.index());
    assert!(ctx.nodes[m.index()].node.dependencies.is_empty());
    assert!(ctx.nodes[a.index()].node.dependents.is_empty());
    assert!(ctx.nodes[b.index()].node.dependents.is_empty());
}

#[test]
fn node_constructors() {
    let n = Node::new();
    assert!(n.update_op.is_none() && !n.visited && !n.dirty && n.handles == 0);
    let v: NodeWithValue<i32> = NodeWithValue::new(3);
    assert_eq!(v.value, Some(3));
    let w: NodeWithValue<i32> = NodeWithValue::new2(Node::new());
    assert!(w.value.is_none());
    assert!(w.node().dependencies.is_empty());
    let mut ctx: Context<i32> = Context::new();
    ctx.mark_nodes_to_be_updated(&vec![]);
    let s = Signal::new(&mut ctx, 9);
    ctx.mark_nodes_to_be_updated(&vec![s.index(), s.index()]);
    assert_eq!(ctx.to_be_updated, vec![s.index(), s.index()]);
    let r = NodeValRef::new(&ctx, s.index());
    assert_eq!(*r.get(), 9);
}

#[test]
fn diamond_runs_effect_once_with_final_values() {
    let out = Rc::new(RefCell::new(Vec::new()));
    let mut rt = Rt::new();
    let mut a = rt.signal(1);
    let (a2, a3) = (a.clone_handle(&mut rt.ctx), a.clone_handle(&mut rt.ctx));
    let left = rt.memo(move |rt| rt.get(&a2) + 1);
    let right = rt.memo(move |rt| rt.get(&a3) * 2);
    let out2 = out.clone();
    let _e = rt.effect(move |rt| {
        let l = rt.get_memo(&left);
        let r = rt.get_memo(&right);
        out2.borrow_mut().push((l, r))
    });
    rt.set(&mut a, 5);
    assert_eq!(*out.borrow(), vec![(2, 2), (6, 10)]);
}

#[test]
fn chain_propagation_ends() {
    let mut ctx: Context<i32> = Context::new();
    let mut a = Signal::new(&mut ctx, 0);
    let mut prev: Option<Memo<i32>> = None;
    let mut memos = Vec::new();
    for _ in 0..5 {
        let m = Memo::new(&mut ctx);
        let v = match &prev {
            None => *a.read(&mut ctx).get(),
            Some(p) => *p.read(&mut ctx).get(),
        } + 1;
        m.set_initial(&mut ctx, v);
        memos.push(m.index());
        prev = Some(m);
    }
    a.write(&mut ctx, 10);
    let mut steps = 0;
    loop {
        steps += 1;
        assert!(steps < 100);
        match ctx.propergate() {
            Step::Idle => break,
            Step::Continue | Step::RunEffect(_) => {}
            Step::Recompute(n) => {
                let dep = if n == memos[0] { a.index() } else { memos[memos.iter().position(|&x| x == n).unwrap() - 1] };
                ctx.record_read(dep);
                let v = *NodeValRef::new(&ctx, dep).get() + 1;
                ctx.complete_update(n, v, false);
            }
        }
    }
    assert_eq!(ctx.nodes[memos[4]].value, Some(15));
}

#[test]
fn disposed_effect_never_runs_again() {
    let out = Rc::new(RefCell::new(Vec::new()));
    let mut rt = Rt::new();
    let mut a = rt.signal(1);
    let a2 = a.clone_handle(&mut rt.ctx);
    let out2 = out.clone();
    let e = rt.effect(move |rt| {
        let v = rt.get(&a2);
        out2.borrow_mut().push(v)
    });
    let id = e.index();
    e.dispose(&mut rt.ctx);
    for v in 2..6 {
        rt.set(&mut a, v);
        assert!(!rt.ctx.is_alive(id));
    }
    rt.batch(|rt| rt.set(&mut a, 7));
    assert_eq!(*out.borrow(), vec![1]);
}

#[test]
fn making_a_read_handle_records_nothing() {
    let mut ctx: Context<i32> = Context::new();
    let a = Signal::new(&mut ctx, 4);
    let m = Memo::new(&mut ctx);
    // inside the memo's computation, borrowing a value records no dependency
    let r = NodeValRef::new(&ctx, a.index());
    assert_eq!(*r.get(), 4);
    assert!(ctx.nodes[m.index()].node.dependencies.is_empty());
    assert!(ctx.nodes[a.index()].node.dependents.is_empty());
    // taking the value through the signal records it
    let v = *a.read(&mut ctx).get();
    assert_eq!(ctx.nodes[m.index()].node.dependencies, vec![a.index()]);
    m.set_initial(&mut ctx, v);
}
