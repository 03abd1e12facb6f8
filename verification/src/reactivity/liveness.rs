use vstd::prelude::*;
use vstd::set_lib::{lemma_int_range, lemma_len_subset, set_int_range};

use super::context::{Context, ContextView};
use super::node::UpdateOp;
use super::util::vec_contains;

verus! {

broadcast use vstd::seq_lib::group_seq_properties;

impl<A> ContextView<A> {
    /// A node is held directly: by a user handle, by the effect queues,
    /// because the caller is performing its work, or because it is a memo
    /// (a memo's recomputation holds the memo itself, so a memo is never
    /// let go).
    pub open spec fn is_root(self, n: int) -> bool {
        ||| self.nodes[n].handles > 0
        ||| self.nodes[n].update_op matches Some(UpdateOp::Recompute { .. })
        ||| self.effects.contains(n as usize)
        ||| self.pending_effects.contains(n as usize)
        ||| self.running == Some(n as usize)
    }

    /// Node `a` holds node `b`: `b` is one of its dependencies or is owned
    /// by it.
    pub open spec fn edge(self, a: int, b: int) -> bool {
        self.nodes[a].dependencies.contains(b as usize) || self.nodes[a].owned.contains(b as usize)
    }

    /// `p` is a non-empty chain of nodes, each holding the next.
    pub open spec fn is_path(self, p: Seq<usize>) -> bool {
        &&& p.len() > 0
        &&& forall|k: int| 0 <= k < p.len() ==> self.valid(#[trigger] p[k] as int)
        &&& forall|k: int|
            #![trigger p[k]]
            0 <= k < p.len() - 1 ==> self.edge(p[k] as int, p[k + 1] as int)
    }

    /// A node is alive when a chain of holds leads to it from a root; the
    /// nodes that are not alive are the ones the runtime no longer updates.
    pub open spec fn alive(self, n: int) -> bool {
        exists|p: Seq<usize>| #[trigger] self.is_path(p) && self.is_root(p[0] as int) && p.last() == n
    }

    /// Every node marked in `seen` is alive.
    pub open spec fn seen_sound(self, seen: Seq<bool>) -> bool {
        forall|j: int| 0 <= j < seen.len() && #[trigger] seen[j] ==> self.alive(j)
    }

    /// `seen` holds every root, and every successor of a marked node that is
    /// not on `stack`.
    pub open spec fn seen_closed(self, seen: Seq<bool>, stack: Seq<usize>, except: int) -> bool {
        &&& forall|j: int| self.valid(j) && #[trigger] self.is_root(j) ==> seen[j]
        &&& forall|j: int, m: int|
            #![trigger seen[j], self.edge(j, m)]
            self.valid(j) && self.valid(m) && seen[j] && !stack.contains(j as usize) && j != except
                && self.edge(j, m) ==> seen[m]
    }

    /// A root is alive.
    pub proof fn lemma_root_alive(self, n: int)
        requires
            self.nodes.len() <= usize::MAX,
            self.valid(n),
            self.is_root(n),
        ensures
            self.alive(n),
    {
        let p = seq![n as usize];
        assert(self.is_path(p));
    }

    /// A successor of an alive node is alive.
    pub proof fn lemma_edge_alive(self, x: int, m: int)
        requires
            self.nodes.len() <= usize::MAX,
            self.valid(x),
            self.valid(m),
            self.alive(x),
            self.edge(x, m),
        ensures
            self.alive(m),
    {
        let p = choose|p: Seq<usize>| #[trigger] self.is_path(p) && self.is_root(p[0] as int) && p.last() == x;
        let q = p.push(m as usize);
        assert forall|k: int| 0 <= k < q.len() implies self.valid(#[trigger] q[k] as int) by {
            if k < p.len() {
                assert(q[k] == p[k]);
            }
        }
        assert forall|k: int| #![trigger q[k]] 0 <= k < q.len() - 1 implies self.edge(q[k] as int, q[k + 1] as int) by {
            if k < p.len() - 1 {
                assert(q[k] == p[k]);
                assert(q[k + 1] == p[k + 1]);
                assert(p[k] == p[k]);
            } else {
                assert(q[k] == x);
            }
        }
        assert(self.is_path(q));
        assert(q[0] == p[0]);
    }

    /// A set of nodes that holds every root and is closed under holds holds
    /// every alive node.
    pub proof fn lemma_closed_holds_alive(self, seen: Seq<bool>, n: int)
        requires
            seen.len() == self.nodes.len(),
            self.seen_closed(seen, Seq::empty(), -1),
            self.alive(n),
        ensures
            seen[n],
    {
        let p = choose|p: Seq<usize>| #[trigger] self.is_path(p) && self.is_root(p[0] as int) && p.last() == n;
        self.lemma_path_seen(seen, p, p.len() - 1);
    }

    proof fn lemma_path_seen(self, seen: Seq<bool>, p: Seq<usize>, k: int)
        requires
            seen.len() == self.nodes.len(),
            self.seen_closed(seen, Seq::empty(), -1),
            self.is_path(p),
            self.is_root(p[0] as int),
            0 <= k < p.len(),
        ensures
            seen[p[k] as int],
        decreases k,
    {
        assert(self.valid(p[k] as int));
        if k > 0 {
            self.lemma_path_seen(seen, p, k - 1);
            assert(self.valid(p[k - 1] as int));
            assert(self.edge(p[k - 1] as int, p[k] as int));
            assert(!Seq::<usize>::empty().contains(p[k - 1]));
        }
    }
}

impl<A> ContextView<A> {
    /// Every node of `self` that is not alive is not alive in `w` either.
    pub open spec fn keeps_dead(self, w: ContextView<A>) -> bool {
        forall|n: int| 0 <= n < self.nodes.len() && !self.alive(n) ==> !#[trigger] w.alive(n)
    }

    /// In `w`, which has at least the nodes of `self`, every root among the
    /// nodes of `self` was alive in `self`, and every hold onto a node of
    /// `self` is a hold of `self` or leads to a node that was alive.
    pub open spec fn holds_come_from(self, w: ContextView<A>) -> bool {
        &&& w.nodes.len() >= self.nodes.len()
        &&& forall|i: int| 0 <= i < self.nodes.len() && #[trigger] w.is_root(i) ==> self.alive(i)
        &&& forall|a: int, b: int|
            0 <= a < w.nodes.len() && 0 <= b < self.nodes.len() && #[trigger] w.edge(a, b) ==> (a
                < self.nodes.len() && self.edge(a, b)) || self.alive(b)
    }

    /// When the roots and holds of `w` come from `self`, a node that is not
    /// alive in `self` is not alive in `w`.
    pub proof fn lemma_keeps_dead(self, w: ContextView<A>)
        requires
            self.nodes.len() <= usize::MAX,
            self.holds_come_from(w),
        ensures
            self.keeps_dead(w),
    {
        assert forall|n: int| 0 <= n < self.nodes.len() && !self.alive(n) implies !#[trigger] w.alive(n) by {
            if w.alive(n) {
                let p = choose|p: Seq<usize>| #[trigger] w.is_path(p) && w.is_root(p[0] as int) && p.last() == n;
                self.lemma_path_back(w, p, p.len() - 1);
            }
        }
    }

    proof fn lemma_path_back(self, w: ContextView<A>, p: Seq<usize>, k: int)
        requires
            self.nodes.len() <= usize::MAX,
            self.holds_come_from(w),
            w.is_path(p),
            w.is_root(p[0] as int),
            0 <= k < p.len(),
        ensures
            p[k] >= self.nodes.len() || self.alive(p[k] as int),
        decreases k,
    {
        assert(w.valid(p[k] as int));
        if k == 0 {
        } else {
            self.lemma_path_back(w, p, k - 1);
            assert(w.valid(p[k - 1] as int));
            assert(w.edge(p[k - 1] as int, p[k] as int));
            if p[k] < self.nodes.len() && !self.alive(p[k] as int) {
                assert(p[k - 1] < self.nodes.len() && self.edge(p[k - 1] as int, p[k] as int));
                self.lemma_edge_alive(p[k - 1] as int, p[k] as int);
            }
        }
    }
}

impl<A> Context<A> {
    fn is_root_exec(&self, n: usize) -> (r: bool)
        requires
            self@.wf(),
            self@.valid(n as int),
        ensures
            r == self@.is_root(n as int),
    {
        if self.nodes[n].node.handles > 0 {
            return true;
        }
        if let Some(UpdateOp::Recompute { .. }) = self.nodes[n].node.update_op {
            return true;
        }
        if vec_contains(&self.effects, n) {
            return true;
        }
        if vec_contains(&self.pending_effects, n) {
            return true;
        }
        match self.running {
            Some(r) => r == n,
            None => false,
        }
    }

    /// The dependencies of `x` followed by the nodes it owns.
    fn successors(&self, x: usize) -> (r: Vec<usize>)
        requires
            self@.wf(),
            self@.valid(x as int),
        ensures
            forall|m: int| self@.valid(m) ==> (r@.contains(m as usize) <==> self@.edge(x as int, m)),
            forall|k: int| 0 <= k < r@.len() ==> self@.valid(#[trigger] r@[k] as int),
    {
        let ghost v = self@;
        let mut r: Vec<usize> = Vec::new();
        let deps = &self.nodes[x].node.dependencies;
        let owned = &self.nodes[x].node.owned;
        proof {
            assert(deps@ == v.nodes[x as int].dependencies);
            assert(owned@ == v.nodes[x as int].owned);
            assert(v.ids_valid(deps@));
            assert(v.ids_valid(owned@));
        }
        let mut i: usize = 0;
        while i < deps.len()
            invariant
                0 <= i <= deps@.len(),
                r@ == deps@.take(i as int),
            decreases deps@.len() - i,
        {
            r.push(deps[i]);
            assert(deps@.take(i + 1) == deps@.take(i as int).push(deps@[i as int]));
            i = i + 1;
        }
        assert(deps@.take(i as int) == deps@);
        let mut j: usize = 0;
        while j < owned.len()
            invariant
                0 <= j <= owned@.len(),
                r@ == deps@ + owned@.take(j as int),
            decreases owned@.len() - j,
        {
            r.push(owned[j]);
            assert(owned@.take(j + 1) == owned@.take(j as int).push(owned@[j as int]));
            j = j + 1;
        }
        assert(owned@.take(j as int) == owned@);
        proof {
            assert forall|k: int| 0 <= k < r@.len() implies v.valid(#[trigger] r@[k] as int) by {
                if k < deps@.len() {
                    assert(r@[k] == deps@[k]);
                } else {
                    assert(r@[k] == owned@[k - deps@.len()]);
                }
            }
        }
        r
    }

    /// Whether node `n` is alive: found by a search from the roots along the
    /// holds between nodes.
    #[verifier::rlimit(40)]
    pub fn is_alive(&self, n: usize) -> (r: bool)
        requires
            self@.wf(),
            self@.valid(n as int),
        ensures
            r == self@.alive(n as int),
    {
        let ghost v = self@;
        let len: usize = self.nodes.len();
        let mut seen: Vec<bool> = Vec::new();
        let mut stack: Vec<usize> = Vec::new();
        let mut i: usize = 0;
        while i < len
            invariant
                0 <= i <= len,
                len == v.nodes.len(),
                v.wf(),
                v == self@,
                seen@.len() == i,
                forall|j: int| 0 <= j < i ==> #[trigger] seen@[j] == v.is_root(j),
                forall|k: int| 0 <= k < stack@.len() ==> 0 <= #[trigger] stack@[k] < i,
                forall|j: int| 0 <= j < i ==> (#[trigger] seen@[j] <==> stack@.contains(j as usize)),
                forall|a: int, b: int| 0 <= a < b < stack@.len() ==> stack@[a] < stack@[b],
            decreases len - i,
        {
            let root = self.is_root_exec(i);
            let ghost st0 = stack@;
            seen.push(root);
            if root {
                stack.push(i);
            }
            proof {
                assert forall|j: int| 0 <= j < i + 1 implies (#[trigger] seen@[j] <==> stack@.contains(j as usize)) by {
                    if j < i {
                        assert(seen@[j] <==> st0.contains(j as usize));
                        if stack@.contains(j as usize) {
                            let k = choose|k: int| 0 <= k < stack@.len() && stack@[k] == j as usize;
                            assert(k < st0.len());
                            assert(st0[k] == j as usize);
                        }
                        if st0.contains(j as usize) {
                            let k = choose|k: int| 0 <= k < st0.len() && st0[k] == j as usize;
                            assert(stack@[k] == j as usize);
                        }
                    } else if root {
                        assert(stack@[st0.len() as int] == i);
                    } else {
                        assert(stack@ == st0);
                    }
                }
            }
            i = i + 1;
        }
        let ghost mut marked: Set<int> = Set::new(|j: int| 0 <= j < len && seen@[j]);
        proof {
            assert forall|j: int| 0 <= j < seen@.len() && #[trigger] seen@[j] implies v.alive(j) by {
                v.lemma_root_alive(j);
            }
            lemma_int_range(0, len as int);
            lemma_len_subset(marked, set_int_range(0, len as int));
        }
        while stack.len() > 0
            invariant
                len == v.nodes.len(),
                v.wf(),
                v == self@,
                seen@.len() == len,
                marked == Set::new(|j: int| 0 <= j < len && seen@[j]),
                marked.finite(),
                marked.len() <= len,
                forall|k: int| 0 <= k < stack@.len() ==> 0 <= #[trigger] stack@[k] < len && seen@[stack@[k] as int],
                forall|a: int, b: int| 0 <= a < b < stack@.len() ==> stack@[a] != stack@[b],
                v.seen_sound(seen@),
                v.seen_closed(seen@, stack@, -1),
            decreases (len - marked.len()) + stack@.len(),
        {
            let ghost measure = (len - marked.len()) + stack@.len();
            let ghost st0 = stack@;
            let x: usize = stack.pop().unwrap();
            proof {
                assert(st0 == stack@.push(x));
                assert(seen@[x as int]);
                assert forall|j: int, m: int|
                    #![trigger seen@[j], v.edge(j, m)]
                    v.valid(j) && v.valid(m) && seen@[j] && !stack@.contains(j as usize) && j != x as int
                        && v.edge(j, m) implies seen@[m] by {
                    if st0.contains(j as usize) {
                        let k = choose|k: int| 0 <= k < st0.len() && st0[k] == j as usize;
                        assert(k < stack@.len());
                        assert(stack@[k] == j as usize);
                    }
                }
                assert(!stack@.contains(x)) by {
                    if stack@.contains(x) {
                        let k = choose|k: int| 0 <= k < stack@.len() && stack@[k] == x;
                        assert(st0[k] == x);
                        assert(st0[stack@.len() as int] == x);
                    }
                }
            }
            let succ = self.successors(x);
            let mut t: usize = 0;
            while t < succ.len()
                invariant
                    0 <= t <= succ@.len(),
                    len == v.nodes.len(),
                    v.wf(),
                    v == self@,
                    v.valid(x as int),
                    forall|m: int| v.valid(m) ==> (succ@.contains(m as usize) <==> v.edge(x as int, m)),
                    forall|k: int| 0 <= k < succ@.len() ==> v.valid(#[trigger] succ@[k] as int),
                    seen@.len() == len,
                    seen@[x as int],
                    !stack@.contains(x),
                    marked == Set::new(|j: int| 0 <= j < len && seen@[j]),
                    marked.finite(),
                    marked.len() <= len,
                    (len - marked.len()) + stack@.len() + 1 == measure,
                    forall|k: int| 0 <= k < stack@.len() ==> 0 <= #[trigger] stack@[k] < len && seen@[stack@[k] as int],
                    forall|a: int, b: int| 0 <= a < b < stack@.len() ==> stack@[a] != stack@[b],
                    v.seen_sound(seen@),
                    v.seen_closed(seen@, stack@, x as int),
                    forall|k: int| 0 <= k < t ==> seen@[#[trigger] succ@[k] as int],
                decreases succ@.len() - t,
            {
                let m: usize = succ[t];
                if !seen[m] {
                    let ghost s0 = seen@;
                    let ghost st0 = stack@;
                    seen.set(m, true);
                    stack.push(m);
                    proof {
                        assert(succ@.contains(m));
                        v.lemma_edge_alive(x as int, m as int);
                        let new_marked = Set::new(|j: int| 0 <= j < len && seen@[j]);
                        assert(new_marked =~= marked.insert(m as int));
                        assert(!marked.contains(m as int));
                        marked = new_marked;
                        lemma_int_range(0, len as int);
                        lemma_len_subset(marked, set_int_range(0, len as int));
                        assert forall|j: int| 0 <= j < seen@.len() && #[trigger] seen@[j] implies v.alive(j) by {
                            if j != m as int {
                                assert(s0[j]);
                            }
                        }
                        assert forall|k: int| 0 <= k < stack@.len() implies 0 <= #[trigger] stack@[k] < len && seen@[stack@[k] as int] by {
                            if k < st0.len() {
                                assert(stack@[k] == st0[k]);
                            }
                        }
                        assert forall|a: int, b: int| 0 <= a < b < stack@.len() implies stack@[a] != stack@[b] by {
                            if b == st0.len() {
                                assert(s0[st0[a] as int]);
                            }
                        }
                        assert forall|j: int| v.valid(j) && #[trigger] v.is_root(j) implies seen@[j] by {
                            assert(s0[j]);
                        }
                        assert forall|j: int, mm: int|
                            #![trigger seen@[j], v.edge(j, mm)]
                            v.valid(j) && v.valid(mm) && seen@[j] && !stack@.contains(j as usize) && j != x as int
                                && v.edge(j, mm) implies seen@[mm] by {
                            if j != m as int {
                                assert(s0[j]);
                                assert(!st0.contains(j as usize)) by {
                                    if st0.contains(j as usize) {
                                        let k = choose|k: int| 0 <= k < st0.len() && st0[k] == j as usize;
                                        assert(stack@[k] == j as usize);
                                    }
                                }
                                assert(s0[mm]);
                            } else {
                                assert(stack@[st0.len() as int] == m);
                            }
                        }
                        assert forall|k: int| 0 <= k < t + 1 implies seen@[#[trigger] succ@[k] as int] by {
                            if k < t {
                                assert(s0[succ@[k] as int]);
                            }
                        }
                    }
                }
                t = t + 1;
            }
            proof {
                assert forall|j: int, m: int|
                    #![trigger seen@[j], v.edge(j, m)]
                    v.valid(j) && v.valid(m) && seen@[j] && !stack@.contains(j as usize) && v.edge(j, m)
                        implies seen@[m] by {
                    if j == x as int {
                        assert(succ@.contains(m as usize));
                        let k = choose|k: int| 0 <= k < succ@.len() && succ@[k] == m as usize;
                        assert(seen@[succ@[k] as int]);
                    }
                }
            }
        }
        proof {
            assert(stack@ =~= Seq::<usize>::empty());
            if v.alive(n as int) {
                v.lemma_closed_holds_alive(seen@, n as int);
            }
        }
        seen[n]
    }
}

} // verus!
