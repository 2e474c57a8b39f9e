//! Reachability along an abstract edge relation, with an `avoid` set so
//! that traversals started on a partially visited graph can be described.

use vstd::prelude::*;

verus! {

/// `p` is a walk under `edge`: every consecutive pair is an edge.
pub open spec fn is_walk<A>(edge: spec_fn(A, A) -> bool, p: Seq<A>) -> bool {
    forall|i: int| 0 <= i < p.len() - 1 ==> #[trigger] edge(p[i], p[i + 1])
}

/// No node of the walk lies in `avoid`.
pub open spec fn walk_avoids<A>(p: Seq<A>, avoid: Set<A>) -> bool {
    forall|i: int| 0 <= i < p.len() ==> !avoid.contains(#[trigger] p[i])
}

/// Some walk under `edge` leads from `from` to `to` and touches no node
/// of `avoid`.
pub open spec fn reaches_avoiding<A>(
    edge: spec_fn(A, A) -> bool,
    avoid: Set<A>,
    from: A,
    to: A,
) -> bool {
    exists|p: Seq<A>|
        #![auto]
        p.len() >= 1 && p.first() == from && p.last() == to && is_walk(edge, p) && walk_avoids(
            p,
            avoid,
        )
}

/// Some walk under `edge` leads from `from` to `to`.
pub open spec fn reaches<A>(edge: spec_fn(A, A) -> bool, from: A, to: A) -> bool {
    reaches_avoiding(edge, Set::empty(), from, to)
}

/// A node outside `avoid` reaches itself.
pub proof fn lemma_reaches_refl<A>(edge: spec_fn(A, A) -> bool, avoid: Set<A>, from: A)
    requires
        !avoid.contains(from),
    ensures
        reaches_avoiding(edge, avoid, from, from),
{
    let p = seq![from];
    assert(p.len() >= 1 && p.first() == from && p.last() == from);
    assert(is_walk(edge, p));
    assert(walk_avoids(p, avoid));
}

/// A reached node's edge extends the walk by one step.
pub proof fn lemma_reaches_step<A>(
    edge: spec_fn(A, A) -> bool,
    avoid: Set<A>,
    from: A,
    mid: A,
    to: A,
)
    requires
        reaches_avoiding(edge, avoid, from, mid),
        edge(mid, to),
        !avoid.contains(to),
    ensures
        reaches_avoiding(edge, avoid, from, to),
{
    let p = choose|p: Seq<A>|
        #![auto]
        p.len() >= 1 && p.first() == from && p.last() == mid && is_walk(edge, p) && walk_avoids(
            p,
            avoid,
        );
    let q = p.push(to);
    assert(q.last() == to);
    assert(q.first() == from);
    assert forall|i: int| 0 <= i < q.len() - 1 implies #[trigger] edge(q[i], q[i + 1]) by {
        if i < p.len() - 1 {
            assert(q[i] == p[i] && q[i + 1] == p[i + 1]);
        } else {
            assert(q[i] == p.last() && q[i + 1] == to);
        }
    }
    assert(walk_avoids(q, avoid));
}

/// Two avoiding walks compose end to end.
pub proof fn lemma_reaches_trans<A>(
    edge: spec_fn(A, A) -> bool,
    avoid: Set<A>,
    from: A,
    mid: A,
    to: A,
)
    requires
        reaches_avoiding(edge, avoid, from, mid),
        reaches_avoiding(edge, avoid, mid, to),
    ensures
        reaches_avoiding(edge, avoid, from, to),
{
    let q = choose|q: Seq<A>|
        #![auto]
        q.len() >= 1 && q.first() == mid && q.last() == to && is_walk(edge, q) && walk_avoids(
            q,
            avoid,
        );
    lemma_reaches_trans_helper(edge, avoid, from, mid, to, q);
}

/// Composition along an explicitly given middle walk; the recursion of
/// `lemma_reaches_trans` shortens that walk one node at a time.
proof fn lemma_reaches_trans_helper<A>(
    edge: spec_fn(A, A) -> bool,
    avoid: Set<A>,
    from: A,
    mid: A,
    to: A,
    q: Seq<A>,
)
    requires
        reaches_avoiding(edge, avoid, from, mid),
        q.len() >= 1,
        q.first() == mid,
        q.last() == to,
        is_walk(edge, q),
        walk_avoids(q, avoid),
    ensures
        reaches_avoiding(edge, avoid, from, to),
    decreases q.len(),
{
    if q.len() == 1 {
        assert(mid == to);
    } else {
        let q1 = q.drop_last();
        assert(q1.len() >= 1 && q1.first() == mid && q1.last() == q[q.len() - 2]);
        assert forall|i: int| 0 <= i < q1.len() - 1 implies #[trigger] edge(q1[i], q1[i + 1]) by {
            assert(edge(q[i], q[i + 1]));
        }
        assert(walk_avoids(q1, avoid));
        lemma_reaches_trans_helper(edge, avoid, from, mid, q1.last(), q1);
        let j = q.len() - 2;
        assert(edge(q[j], q[j + 1]));
        lemma_reaches_step(edge, avoid, from, q1.last(), to);
    }
}

/// An avoiding walk also avoids any smaller set.
pub proof fn lemma_reaches_weaken<A>(
    edge: spec_fn(A, A) -> bool,
    avoid1: Set<A>,
    avoid2: Set<A>,
    from: A,
    to: A,
)
    requires
        reaches_avoiding(edge, avoid1, from, to),
        avoid2.subset_of(avoid1),
    ensures
        reaches_avoiding(edge, avoid2, from, to),
{
    let p = choose|p: Seq<A>|
        #![auto]
        p.len() >= 1 && p.first() == from && p.last() == to && is_walk(edge, p) && walk_avoids(
            p,
            avoid1,
        );
    assert(walk_avoids(p, avoid2));
}

/// A set that contains `from` and follows every edge leaving it (outside
/// `avoid`) contains every node that `from` reaches while avoiding `avoid`.
pub proof fn lemma_closed_set_reaches<A>(
    edge: spec_fn(A, A) -> bool,
    avoid: Set<A>,
    s: Set<A>,
    from: A,
    to: A,
)
    requires
        reaches_avoiding(edge, avoid, from, to),
        s.contains(from),
        forall|u: A, v: A|
            s.contains(u) && !avoid.contains(u) && #[trigger] edge(u, v) ==> s.contains(v),
    ensures
        s.contains(to),
{
    let p = choose|p: Seq<A>|
        #![auto]
        p.len() >= 1 && p.first() == from && p.last() == to && is_walk(edge, p) && walk_avoids(
            p,
            avoid,
        );
    lemma_walk_in_closed(edge, avoid, s, p);
}

/// Walk version of the closure argument, by induction on the walk.
proof fn lemma_walk_in_closed<A>(edge: spec_fn(A, A) -> bool, avoid: Set<A>, s: Set<A>, p: Seq<A>)
    requires
        p.len() >= 1,
        is_walk(edge, p),
        walk_avoids(p, avoid),
        s.contains(p.first()),
        forall|u: A, v: A|
            s.contains(u) && !avoid.contains(u) && #[trigger] edge(u, v) ==> s.contains(v),
    ensures
        s.contains(p.last()),
    decreases p.len(),
{
    if p.len() > 1 {
        let q = p.drop_last();
        assert forall|i: int| 0 <= i < q.len() - 1 implies #[trigger] edge(q[i], q[i + 1]) by {
            assert(edge(p[i], p[i + 1]));
        }
        assert(walk_avoids(q, avoid));
        lemma_walk_in_closed(edge, avoid, s, q);
        let j = p.len() - 2;
        assert(edge(p[j], p[j + 1]));
        assert(!avoid.contains(q.last()));
    }
}

} // verus!
