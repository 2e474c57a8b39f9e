//! The recursive depth-first variant over the graph store, kept as the
//! readable reference form: it marks a caller-supplied visited set
//! instead of producing an order, and recursion depth is bounded by the
//! longest simple path, so the explicit-stack `dfs` is the preferred
//! default for deep graphs.

use vstd::prelude::*;
use vstd::set_lib::lemma_len_subset;

use crate::assoc::{lemma_node_pool_covers, lemma_node_pool_finite, lookup, node_pool};
use crate::graph::Graph;
use crate::reach::{
    is_walk, lemma_closed_set_reaches, lemma_reaches_refl, lemma_reaches_step,
    lemma_reaches_trans, lemma_reaches_weaken, reaches, reaches_avoiding, walk_avoids,
};
use crate::traversal::{adj_edge, dfs_order, lemma_dfs_order_reaches};

verus! {

/// The record of nodes already visited within one traversal call;
/// never shared across calls. Marking is monotone: nothing is ever
/// unmarked.
pub struct VisitedSet {
    items: Vec<i32>,
}

impl View for VisitedSet {
    type V = Set<i32>;

    closed spec fn view(&self) -> Set<i32> {
        self.items.deep_view().to_set()
    }
}

impl VisitedSet {
    /// A fresh record with nothing visited.
    pub fn new() -> (s: VisitedSet)
        ensures
            s@ == Set::<i32>::empty(),
    {
        let s = VisitedSet { items: Vec::new() };
        proof {
            assert(s@ =~= Set::<i32>::empty());
        }
        s
    }

    /// Whether `n` has been visited.
    pub fn is_visited(&self, n: i32) -> (b: bool)
        ensures
            b == self@.contains(n),
    {
        let len = self.items.len();
        let mut i: usize = 0;
        while i < len
            invariant
                i <= len,
                len == self.items.len(),
                forall|j: int| 0 <= j < i ==> self.items.deep_view()[j] != n,
            decreases len - i,
        {
            if self.items[i] == n {
                assert(self.items.deep_view()[i as int] == n);
                return true;
            }
            i = i + 1;
        }
        false
    }

    /// Marks `n` visited.
    pub fn mark(&mut self, n: i32)
        ensures
            final(self)@ == old(self)@.insert(n),
    {
        let ghost d = self.items.deep_view();
        self.items.push(n);
        proof {
            assert(self.items.deep_view() =~= d.push(n));
            d.lemma_push_to_set_commute(n);
        }
    }
}

/// Recursive depth-first visit: marks `start`, then recurses into each
/// unvisited neighbor. Afterwards the set has grown by exactly nodes
/// that `start` reaches without crossing the previously visited ones,
/// and every newly visited node has all its neighbors visited.
pub fn dfs_visit(g: &Graph, start: i32, visited: &mut VisitedSet)
    requires
        g.wf(),
        !old(visited)@.contains(start),
    ensures
        old(visited)@.subset_of(final(visited)@),
        final(visited)@.contains(start),
        forall|n: i32|
            #[trigger] final(visited)@.contains(n) && !old(visited)@.contains(n)
                ==> reaches_avoiding(g.edge(), old(visited)@, start, n),
        forall|n: i32, m: i32|
            final(visited)@.contains(n) && !old(visited)@.contains(n) && #[trigger] g.nbrs(
                n,
            ).contains(m) ==> final(visited)@.contains(m),
    decreases node_pool(g.entries()).insert(start).difference(old(visited)@).len(), 0nat, 0nat,
{
    let ghost pool = node_pool(g.entries());
    let ghost vis0 = visited@;
    let ghost edge = g.edge();
    proof {
        lemma_node_pool_finite(g.entries());
        lemma_reaches_refl(edge, vis0, start);
    }
    visited.mark(start);
    let ns = g.neighbors(start);
    proof {
        lemma_node_pool_covers(g.entries());
        assert forall|k: int| 0 <= k < ns@.len() implies pool.contains(ns@[k]) by {
            assert(ns@.contains(ns@[k]));
            assert(g.nbrs(start).contains(ns@[k]));
        }
        // the measure drops strictly once start is marked
        assert(pool.difference(visited@).subset_of(
            pool.insert(start).difference(vis0).remove(start),
        ));
        lemma_len_subset(
            pool.difference(visited@),
            pool.insert(start).difference(vis0).remove(start),
        );
        assert(pool.insert(start).difference(vis0).contains(start));
    }
    dfs_visit_list(g, &ns, 0, visited);
    proof {
        let vis1 = vis0.insert(start);
        assert forall|n: i32|
            #[trigger] visited@.contains(n) && !vis0.contains(n) implies reaches_avoiding(
            edge,
            vis0,
            start,
            n,
        ) by {
            if n != start {
                assert(visited@.contains(n) && !vis1.contains(n));
                let k = choose|k: int|
                    0 <= k < ns@.len() && !vis1.contains(ns@[k]) && reaches_avoiding(
                        edge,
                        vis1,
                        ns@[k],
                        n,
                    );
                assert(ns@.contains(ns@[k]));
                assert(g.nbrs(start).contains(ns@[k]));
                assert(edge(start, ns@[k]));
                lemma_reaches_step(edge, vis0, start, start, ns@[k]);
                lemma_reaches_weaken(edge, vis1, vis0, ns@[k], n);
                lemma_reaches_trans(edge, vis0, start, ns@[k], n);
            }
        }
        assert forall|n: i32, m: i32|
            visited@.contains(n) && !vis0.contains(n) && #[trigger] g.nbrs(n).contains(
                m,
            ) implies visited@.contains(m) by {
            if n == start {
                assert(ns@.contains(m));
                let k = choose|k: int| 0 <= k < ns@.len() && ns@[k] == m;
            } else {
                assert(visited@.contains(n) && !vis1.contains(n));
            }
        }
    }
}

/// Visits, in order, each still-unvisited neighbor among `ns[j..]`.
fn dfs_visit_list(g: &Graph, ns: &Vec<i32>, j: usize, visited: &mut VisitedSet)
    requires
        g.wf(),
        j <= ns@.len(),
        forall|k: int| 0 <= k < ns@.len() ==> node_pool(g.entries()).contains(#[trigger] ns@[k]),
    ensures
        old(visited)@.subset_of(final(visited)@),
        forall|n: i32|
            #[trigger] final(visited)@.contains(n) && !old(visited)@.contains(n) ==> exists|k: int|
                0 <= k < ns@.len() && !old(visited)@.contains(ns@[k]) && reaches_avoiding(
                    g.edge(),
                    old(visited)@,
                    ns@[k],
                    n,
                ),
        forall|n: i32, m: i32|
            final(visited)@.contains(n) && !old(visited)@.contains(n) && #[trigger] g.nbrs(
                n,
            ).contains(m) ==> final(visited)@.contains(m),
        forall|k: int| j <= k < ns@.len() ==> final(visited)@.contains(#[trigger] ns@[k]),
    decreases node_pool(g.entries()).difference(old(visited)@).len(), 1nat, ns@.len() - j,
{
    let ghost pool = node_pool(g.entries());
    let ghost vis0 = visited@;
    let ghost edge = g.edge();
    if j < ns.len() {
        let v = ns[j];
        let was_visited = visited.is_visited(v);
        if !was_visited {
            proof {
                assert(pool.contains(ns@[j as int]));
                assert(pool.insert(v) =~= pool);
            }
            dfs_visit(g, v, visited);
        }
        let ghost vis1 = visited@;
        proof {
            lemma_node_pool_finite(g.entries());
            assert(pool.difference(vis1).subset_of(pool.difference(vis0)));
            lemma_len_subset(pool.difference(vis1), pool.difference(vis0));
        }
        dfs_visit_list(g, ns, j + 1, visited);
        proof {
            assert forall|n: i32|
                #[trigger] visited@.contains(n) && !vis0.contains(n) implies exists|k: int|
                0 <= k < ns@.len() && !vis0.contains(ns@[k]) && reaches_avoiding(
                    edge,
                    vis0,
                    ns@[k],
                    n,
                ) by {
                if vis1.contains(n) {
                    // visited during the call on ns[j]
                    assert(reaches_avoiding(edge, vis0, ns@[j as int], n));
                    assert(0 <= j < ns@.len() && !vis0.contains(ns@[j as int]));
                } else {
                    // visited during the recursion over the rest
                    let k = choose|k: int|
                        0 <= k < ns@.len() && !vis1.contains(ns@[k]) && reaches_avoiding(
                            edge,
                            vis1,
                            ns@[k],
                            n,
                        );
                    lemma_reaches_weaken(edge, vis1, vis0, ns@[k], n);
                    assert(!vis0.contains(ns@[k]));
                }
            }
            assert forall|n: i32, m: i32|
                visited@.contains(n) && !vis0.contains(n) && #[trigger] g.nbrs(n).contains(
                    m,
                ) implies visited@.contains(m) by {
                if vis1.contains(n) {
                    assert(vis1.contains(m));
                }
            }
        }
    }
}

/// Depth-first traversal of the store from `start` with a fresh record:
/// afterwards the record holds exactly the nodes reachable from `start`
/// — every reachable node, and no unreachable one.
pub fn dfs_recursive(g: &Graph, start: i32) -> (visited: VisitedSet)
    requires
        g.wf(),
    ensures
        forall|n: i32| #[trigger] visited@.contains(n) <==> reaches(g.edge(), start, n),
{
    let mut visited = VisitedSet::new();
    dfs_visit(g, start, &mut visited);
    proof {
        let edge = g.edge();
        assert forall|n: i32| #[trigger] visited@.contains(n) <==> reaches(edge, start, n) by {
            if reaches(edge, start, n) {
                assert forall|u: i32, v: i32|
                    visited@.contains(u) && !Set::<i32>::empty().contains(u) && #[trigger] edge(
                        u,
                        v,
                    ) implies visited@.contains(v) by {
                    assert(g.nbrs(u).contains(v));
                }
                lemma_closed_set_reaches(edge, Set::<i32>::empty(), visited@, start, n);
            }
        }
    }
    visited
}

/// A walk in the store maps, node by node, to a walk in a
/// corresponding adjacency mapping.
proof fn lemma_walk_forward(
    g: Graph,
    entries: Seq<(Seq<char>, Seq<Seq<char>>)>,
    f: spec_fn(i32) -> Seq<char>,
    p: Seq<i32>,
)
    requires
        p.len() >= 1,
        is_walk(g.edge(), p),
        forall|u: i32, v: i32|
            #[trigger] g.nbrs(u).contains(v) <==> lookup(entries, f(u)).contains(f(v)),
    ensures
        reaches(adj_edge(entries), f(p.first()), f(p.last())),
{
    let q = p.map_values(f);
    assert(q.first() == f(p.first()));
    assert(q.last() == f(p.last()));
    assert forall|i: int| 0 <= i < q.len() - 1 implies #[trigger] adj_edge(entries)(
        q[i],
        q[i + 1],
    ) by {
        assert(g.edge()(p[i], p[i + 1]));
        assert(g.nbrs(p[i]).contains(p[i + 1]));
        assert(q[i] == f(p[i]) && q[i + 1] == f(p[i + 1]));
    }
    assert(walk_avoids(q, Set::<Seq<char>>::empty()));
    assert(q.len() >= 1 && q.first() == f(p.first()) && q.last() == f(p.last()) && is_walk(
        adj_edge(entries),
        q,
    ) && walk_avoids(q, Set::<Seq<char>>::empty()));
}

/// A walk in the adjacency mapping that starts on a corresponded node
/// stays on corresponded nodes and maps back to store reachability.
proof fn lemma_walk_backward(
    g: Graph,
    entries: Seq<(Seq<char>, Seq<Seq<char>>)>,
    f: spec_fn(i32) -> Seq<char>,
    u0: i32,
    q: Seq<Seq<char>>,
)
    requires
        q.len() >= 1,
        q.first() == f(u0),
        is_walk(adj_edge(entries), q),
        forall|u: i32, v: i32|
            #[trigger] g.nbrs(u).contains(v) <==> lookup(entries, f(u)).contains(f(v)),
        forall|u: i32, w: Seq<char>|
            #[trigger] lookup(entries, f(u)).contains(w) ==> exists|v: i32| w == #[trigger] f(v),
    ensures
        exists|n: i32| q.last() == f(n) && #[trigger] reaches(g.edge(), u0, n),
    decreases q.len(),
{
    if q.len() == 1 {
        lemma_reaches_refl(g.edge(), Set::<i32>::empty(), u0);
        assert(q.last() == f(u0) && reaches(g.edge(), u0, u0));
    } else {
        let q1 = q.drop_last();
        assert forall|i: int| 0 <= i < q1.len() - 1 implies #[trigger] adj_edge(entries)(
            q1[i],
            q1[i + 1],
        ) by {
            assert(adj_edge(entries)(q[i], q[i + 1]));
        }
        lemma_walk_backward(g, entries, f, u0, q1);
        let m = choose|m: i32| q1.last() == f(m) && #[trigger] reaches(g.edge(), u0, m);
        let j = q.len() - 2;
        assert(adj_edge(entries)(q[j], q[j + 1]));
        assert(lookup(entries, f(m)).contains(q.last()));
        let v = choose|v: i32| q.last() == #[trigger] f(v);
        assert(lookup(entries, f(m)).contains(f(v)));
        assert(g.nbrs(m).contains(v));
        assert(g.edge()(m, v));
        lemma_reaches_step(g.edge(), Set::<i32>::empty(), u0, m, v);
        assert(q.last() == f(v) && reaches(g.edge(), u0, v));
    }
}

/// The two traversal variants report the same reachability. Whenever a
/// one-to-one node correspondence carries the store's edges exactly
/// onto an ordered adjacency mapping — and the mapping lists only
/// corresponded neighbors — the explicit-stack order holds a node's
/// image exactly when the recursive visit reaches the node itself.
pub proof fn lemma_variants_agree(
    g: Graph,
    entries: Seq<(Seq<char>, Seq<Seq<char>>)>,
    f: spec_fn(i32) -> Seq<char>,
    start: i32,
)
    requires
        forall|u: i32, v: i32| #[trigger] f(u) == #[trigger] f(v) ==> u == v,
        forall|u: i32, v: i32|
            #[trigger] g.nbrs(u).contains(v) <==> lookup(entries, f(u)).contains(f(v)),
        forall|u: i32, w: Seq<char>|
            #[trigger] lookup(entries, f(u)).contains(w) ==> exists|v: i32| w == #[trigger] f(v),
    ensures
        forall|n: i32|
            #[trigger] reaches(g.edge(), start, n) <==> dfs_order(entries, f(start)).contains(
                f(n),
            ),
{
    lemma_dfs_order_reaches(entries, f(start));
    assert forall|n: i32|
        #[trigger] reaches(g.edge(), start, n) <==> dfs_order(entries, f(start)).contains(
        f(n),
    ) by {
        if reaches(g.edge(), start, n) {
            let p = choose|p: Seq<i32>|
                #![auto]
                p.len() >= 1 && p.first() == start && p.last() == n && is_walk(g.edge(), p)
                    && walk_avoids(p, Set::<i32>::empty());
            lemma_walk_forward(g, entries, f, p);
            assert(reaches(adj_edge(entries), f(start), f(n)));
        }
        if dfs_order(entries, f(start)).contains(f(n)) {
            assert(reaches(adj_edge(entries), f(start), f(n)));
            let q = choose|q: Seq<Seq<char>>|
                #![auto]
                q.len() >= 1 && q.first() == f(start) && q.last() == f(n) && is_walk(
                    adj_edge(entries),
                    q,
                ) && walk_avoids(q, Set::<Seq<char>>::empty());
            lemma_walk_backward(g, entries, f, start, q);
            let v = choose|v: i32| q.last() == f(v) && #[trigger] reaches(g.edge(), start, v);
            assert(f(v) == f(n));
        }
    }
}

} // verus!
