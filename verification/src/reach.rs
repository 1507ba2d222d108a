//! Reachability under a step relation: the one notion of "transitively" that
//! both closures are stated in.

use vstd::prelude::*;

verus! {

/// `p` is a walk: it has a first node, and each node leads to the next by `step`.
pub open spec fn is_path<N>(step: spec_fn(N, N) -> bool, p: Seq<N>) -> bool {
    &&& p.len() >= 1
    &&& forall|i: int| 0 <= i < p.len() - 1 ==> step(#[trigger] p[i], p[i + 1])
}

/// `b` is `a` itself or lies at the end of a finite walk from `a`.
pub open spec fn reaches<N>(step: spec_fn(N, N) -> bool, a: N, b: N) -> bool {
    exists|p: Seq<N>| #[trigger] is_path(step, p) && p.first() == a && p.last() == b
}

/// Every node reaches itself.
pub proof fn lemma_reaches_self<N>(step: spec_fn(N, N) -> bool, a: N)
    ensures
        reaches(step, a, a),
{
    let p = seq![a];
    assert(is_path(step, p));
    assert(p.first() == a && p.last() == a);
}

/// A walk can be lengthened by one step at its end.
pub proof fn lemma_reaches_then_step<N>(step: spec_fn(N, N) -> bool, a: N, b: N, c: N)
    requires
        reaches(step, a, b),
        step(b, c),
    ensures
        reaches(step, a, c),
{
    let p = choose|p: Seq<N>| #[trigger] is_path(step, p) && p.first() == a && p.last() == b;
    let q = p.push(c);
    assert forall|i: int| 0 <= i < q.len() - 1 implies step(#[trigger] q[i], q[i + 1]) by {
        if i < p.len() - 1 {
            assert(step(p[i], p[i + 1]));
        }
    }
    assert(is_path(step, q));
    assert(q.first() == a && q.last() == c);
}

/// A walk can be lengthened by one step at its start.
pub proof fn lemma_step_then_reaches<N>(step: spec_fn(N, N) -> bool, a: N, b: N, c: N)
    requires
        step(a, b),
        reaches(step, b, c),
    ensures
        reaches(step, a, c),
{
    let p = choose|p: Seq<N>| #[trigger] is_path(step, p) && p.first() == b && p.last() == c;
    let q = seq![a] + p;
    assert forall|i: int| 0 <= i < q.len() - 1 implies step(#[trigger] q[i], q[i + 1]) by {
        if i >= 1 {
            assert(step(p[i - 1], p[i - 1 + 1]));
        }
    }
    assert(is_path(step, q));
    assert(q.first() == a && q.last() == c);
}

/// A walk that moves at all begins with a step, and the rest is a walk again.
pub proof fn lemma_reaches_first_step<N>(step: spec_fn(N, N) -> bool, a: N, b: N) -> (c: N)
    requires
        reaches(step, a, b),
        a != b,
    ensures
        step(a, c),
        reaches(step, c, b),
{
    let p = choose|p: Seq<N>| #[trigger] is_path(step, p) && p.first() == a && p.last() == b;
    assert(p.len() >= 2);
    let q = p.subrange(1, p.len() as int);
    assert forall|i: int| 0 <= i < q.len() - 1 implies step(#[trigger] q[i], q[i + 1]) by {
        assert(step(p[i + 1], p[i + 1 + 1]));
    }
    assert(is_path(step, q));
    assert(q.first() == p[1] && q.last() == b);
    assert(step(p[0], p[1]));
    p[1]
}

/// Whatever holds of `a` and is kept by every step holds of all that `a` reaches.
pub proof fn lemma_reaches_induct<N>(
    step: spec_fn(N, N) -> bool,
    inv: spec_fn(N) -> bool,
    a: N,
    b: N,
)
    requires
        inv(a),
        forall|x: N, y: N| inv(x) && #[trigger] step(x, y) ==> inv(y),
        reaches(step, a, b),
    ensures
        inv(b),
{
    let p = choose|p: Seq<N>| #[trigger] is_path(step, p) && p.first() == a && p.last() == b;
    lemma_path_keeps(step, inv, p, p.len() - 1);
}

proof fn lemma_path_keeps<N>(
    step: spec_fn(N, N) -> bool,
    inv: spec_fn(N) -> bool,
    p: Seq<N>,
    k: int,
)
    requires
        is_path(step, p),
        inv(p.first()),
        forall|x: N, y: N| inv(x) && #[trigger] step(x, y) ==> inv(y),
        0 <= k < p.len(),
    ensures
        inv(p[k]),
    decreases k,
{
    if k > 0 {
        lemma_path_keeps(step, inv, p, k - 1);
        assert(step(p[k - 1], p[k - 1 + 1]));
    }
}

/// Walks compose.
pub proof fn lemma_reaches_trans<N>(step: spec_fn(N, N) -> bool, a: N, b: N, c: N)
    requires
        reaches(step, a, b),
        reaches(step, b, c),
    ensures
        reaches(step, a, c),
{
    let inv = |x: N| reaches(step, a, x);
    assert forall|x: N, y: N| inv(x) && #[trigger] step(x, y) implies inv(y) by {
        lemma_reaches_then_step(step, a, x, y);
    }
    lemma_reaches_induct(step, inv, b, c);
}

} // verus!
