use vstd::prelude::*;

verus! {

broadcast use vstd::seq_lib::group_filter_ensures;

/// The elements of `s` that differ from `x`, in order.
pub open spec fn without(s: Seq<usize>, x: usize) -> Seq<usize> {
    s.filter(differs(x))
}

/// The predicate "differs from `x`".
pub open spec fn differs(x: usize) -> spec_fn(usize) -> bool {
    |y: usize| y != x
}

/// Whether `v` holds `x`.
pub fn vec_contains(v: &Vec<usize>, x: usize) -> (r: bool)
    ensures
        r == v@.contains(x),
{
    let mut i: usize = 0;
    while i < v.len()
        invariant
            0 <= i <= v@.len(),
            forall|k: int| 0 <= k < i ==> v@[k] != x,
        decreases v@.len() - i,
    {
        if v[i] == x {
            return true;
        }
        i = i + 1;
    }
    false
}

/// The elements of `v` that differ from `x`, in order.
pub fn remove_all(v: &Vec<usize>, x: usize) -> (r: Vec<usize>)
    ensures
        r@ == without(v@, x),
{
    let mut r: Vec<usize> = Vec::new();
    let mut i: usize = 0;
    while i < v.len()
        invariant
            0 <= i <= v@.len(),
            r@ == v@.take(i as int).filter(differs(x)),
        decreases v@.len() - i,
    {
        proof {
            assert(v@.take(i + 1) == v@.take(i as int).push(v@[i as int]));
            v@.take(i as int).lemma_filter_push(v@[i as int], differs(x));
        }
        if v[i] != x {
            r.push(v[i]);
        }
        i = i + 1;
    }
    assert(v@.take(i as int) == v@);
    r
}

/// Removing an absent element changes nothing.
pub proof fn lemma_filter_absent(s: Seq<usize>, x: usize)
    requires
        !s.contains(x),
    ensures
        without(s, x) == s,
    decreases s.len(),
{
    if s.len() > 0 {
        let t = s.drop_last();
        assert(s == t.push(s.last()));
        assert(!t.contains(x)) by {
            if t.contains(x) {
                let k = choose|k: int| 0 <= k < t.len() && t[k] == x;
                assert(s[k] == x);
            }
        }
        lemma_filter_absent(t, x);
        t.lemma_filter_push(s.last(), differs(x));
    } else {
        reveal(Seq::filter);
    }
}

/// An element is kept by the removal exactly when it is present and differs
/// from the removed one.
pub proof fn lemma_filter_contains(s: Seq<usize>, x: usize, y: usize)
    ensures
        without(s, x).contains(y) <==> (s.contains(y) && y != x),
{
    let p = differs(x);
    if s.filter(p).contains(y) {
        let k = choose|k: int| 0 <= k < s.filter(p).len() && s.filter(p)[k] == y;
        s.lemma_filter_contains_rev(p, y);
    }
    if s.contains(y) && y != x {
        let k = choose|k: int| 0 <= k < s.len() && s[k] == y;
        s.lemma_filter_contains(p, k);
    }
}

} // verus!
