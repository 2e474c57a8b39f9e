//! The depth-first traversal engine over an ordered adjacency mapping.
//!
//! `dfs_from` is the mathematical run of the explicit-stack algorithm;
//! the executable `dfs` is proved to return exactly that run, which
//! pins the whole output order to the input — two calls on identical
//! input cannot differ.

use vstd::prelude::*;
use vstd::seq_lib::seq_to_set_is_finite;
use vstd::set_lib::lemma_len_subset;

use crate::adjacency::Adjacency;
use crate::assoc::{lemma_node_pool_covers, lemma_node_pool_finite, lookup, node_pool};
use crate::distinct_seq;
use crate::reach::{
    lemma_closed_set_reaches, lemma_reaches_refl, lemma_reaches_step, reaches,
};

verus! {

/// The edge relation an adjacency sequence describes: from each node to
/// each element of its ordered neighbor sequence.
pub open spec fn adj_edge(
    entries: Seq<(Seq<char>, Seq<Seq<char>>)>,
) -> spec_fn(Seq<char>, Seq<char>) -> bool {
    |u: Seq<char>, v: Seq<char>| lookup(entries, u).contains(v)
}

/// Every identifier a traversal in this state can still touch: all
/// identifiers of the entries plus whatever is on the stack.
pub open spec fn scope(
    entries: Seq<(Seq<char>, Seq<Seq<char>>)>,
    stack: Seq<Seq<char>>,
) -> Set<Seq<char>> {
    node_pool(entries).union(stack.to_set())
}

/// Termination measure: how many touchable identifiers are unvisited.
pub open spec fn dfs_measure(
    entries: Seq<(Seq<char>, Seq<Seq<char>>)>,
    stack: Seq<Seq<char>>,
    visited: Set<Seq<char>>,
) -> nat {
    scope(entries, stack).difference(visited).len()
}

/// The run of the explicit-stack depth-first traversal from an
/// intermediate state: pop a node; drop it if visited; otherwise record
/// it and push its neighbors in reverse, so the first-listed neighbor
/// is explored next.
pub open spec fn dfs_from(
    entries: Seq<(Seq<char>, Seq<Seq<char>>)>,
    stack: Seq<Seq<char>>,
    visited: Set<Seq<char>>,
    result: Seq<Seq<char>>,
) -> Seq<Seq<char>>
    decreases dfs_measure(entries, stack, visited), stack.len(),
        via dfs_from_decreases
{
    if stack.len() == 0 {
        result
    } else {
        let n = stack.last();
        let rest = stack.drop_last();
        if visited.contains(n) {
            dfs_from(entries, rest, visited, result)
        } else {
            dfs_from(
                entries,
                rest + lookup(entries, n).reverse(),
                visited.insert(n),
                result.push(n),
            )
        }
    }
}

/// The complete traversal order for `start`: the run begun with the
/// stack holding only `start`, nothing visited and nothing recorded.
pub open spec fn dfs_order(
    entries: Seq<(Seq<char>, Seq<Seq<char>>)>,
    start: Seq<char>,
) -> Seq<Seq<char>> {
    dfs_from(entries, seq![start], Set::empty(), Seq::empty())
}

/// A sequence and its reverse contain the same elements.
proof fn lemma_reverse_contains<A>(s: Seq<A>)
    ensures
        forall|x: A| #[trigger] s.reverse().contains(x) <==> s.contains(x),
{
    assert forall|x: A| #[trigger] s.reverse().contains(x) <==> s.contains(x) by {
        if s.reverse().contains(x) {
            let k = choose|k: int| 0 <= k < s.reverse().len() && s.reverse()[k] == x;
            assert(s[s.len() - 1 - k] == x);
        }
        if s.contains(x) {
            let k = choose|k: int| 0 <= k < s.len() && s[k] == x;
            assert(s.reverse()[s.len() - 1 - k] == x);
        }
    }
}

/// Membership in a concatenation splits over the two parts.
proof fn lemma_concat_contains<A>(a: Seq<A>, b: Seq<A>)
    ensures
        forall|x: A| #[trigger] (a + b).contains(x) <==> a.contains(x) || b.contains(x),
{
    assert forall|x: A| #[trigger] (a + b).contains(x) <==> a.contains(x) || b.contains(x) by {
        if (a + b).contains(x) {
            let k = choose|k: int| 0 <= k < (a + b).len() && (a + b)[k] == x;
            if k < a.len() {
                assert(a[k] == x);
            } else {
                assert(b[k - a.len()] == x);
            }
        }
        if a.contains(x) {
            let k = choose|k: int| 0 <= k < a.len() && a[k] == x;
            assert((a + b)[k] == x);
        }
        if b.contains(x) {
            let k = choose|k: int| 0 <= k < b.len() && b[k] == x;
            assert((a + b)[a.len() + k] == x);
        }
    }
}

/// Membership in a nonempty sequence splits over the last element and
/// the rest.
proof fn lemma_drop_last_contains<A>(s: Seq<A>)
    requires
        s.len() > 0,
    ensures
        forall|x: A| #[trigger] s.contains(x) <==> s.drop_last().contains(x) || x == s.last(),
{
    assert forall|x: A| #[trigger] s.contains(x) <==> s.drop_last().contains(x) || x == s.last() by {
        if s.contains(x) {
            let k = choose|k: int| 0 <= k < s.len() && s[k] == x;
            if k < s.len() - 1 {
                assert(s.drop_last()[k] == x);
            }
        }
        if s.drop_last().contains(x) {
            let k = choose|k: int| 0 <= k < s.drop_last().len() && s.drop_last()[k] == x;
            assert(s[k] == x);
        }
        if x == s.last() {
            assert(s[s.len() - 1] == x);
        }
    }
}

/// The scope is a finite set.
proof fn lemma_scope_finite(entries: Seq<(Seq<char>, Seq<Seq<char>>)>, stack: Seq<Seq<char>>)
    ensures
        scope(entries, stack).finite(),
{
    lemma_node_pool_finite(entries);
    seq_to_set_is_finite(stack);
}

/// Dropping a visited node from the stack does not grow the measure.
proof fn lemma_measure_skip(
    entries: Seq<(Seq<char>, Seq<Seq<char>>)>,
    stack: Seq<Seq<char>>,
    visited: Set<Seq<char>>,
)
    requires
        stack.len() > 0,
    ensures
        dfs_measure(entries, stack.drop_last(), visited) <= dfs_measure(entries, stack, visited),
{
    lemma_scope_finite(entries, stack);
    lemma_scope_finite(entries, stack.drop_last());
    lemma_drop_last_contains(stack);
    assert(scope(entries, stack.drop_last()).difference(visited).subset_of(
        scope(entries, stack).difference(visited),
    ));
    lemma_len_subset(
        scope(entries, stack.drop_last()).difference(visited),
        scope(entries, stack).difference(visited),
    );
}

/// Visiting the top of the stack strictly shrinks the measure.
proof fn lemma_measure_visit(
    entries: Seq<(Seq<char>, Seq<Seq<char>>)>,
    stack: Seq<Seq<char>>,
    visited: Set<Seq<char>>,
)
    requires
        stack.len() > 0,
        !visited.contains(stack.last()),
    ensures
        dfs_measure(
            entries,
            stack.drop_last() + lookup(entries, stack.last()).reverse(),
            visited.insert(stack.last()),
        ) < dfs_measure(entries, stack, visited),
{
    let n = stack.last();
    let stack2 = stack.drop_last() + lookup(entries, n).reverse();
    let big = scope(entries, stack).difference(visited);
    let small = scope(entries, stack2).difference(visited.insert(n));
    lemma_scope_finite(entries, stack);
    lemma_scope_finite(entries, stack2);
    lemma_drop_last_contains(stack);
    lemma_concat_contains(stack.drop_last(), lookup(entries, n).reverse());
    lemma_reverse_contains(lookup(entries, n));
    lemma_node_pool_covers(entries);
    assert(stack.contains(n)) by {
        assert(stack[stack.len() - 1] == n);
    }
    assert(big.contains(n));
    assert forall|x: Seq<char>| #[trigger] small.contains(x) implies big.remove(n).contains(x) by {
        if stack2.to_set().contains(x) {
            assert(stack2.contains(x));
            if lookup(entries, n).reverse().contains(x) {
                assert(lookup(entries, n).contains(x));
                assert(node_pool(entries).contains(x));
            } else {
                assert(stack.contains(x));
            }
        }
    }
    lemma_len_subset(small, big.remove(n));
    assert(big.remove(n).len() == big.len() - 1);
}

#[via_fn]
proof fn dfs_from_decreases(
    entries: Seq<(Seq<char>, Seq<Seq<char>>)>,
    stack: Seq<Seq<char>>,
    visited: Set<Seq<char>>,
    result: Seq<Seq<char>>,
) {
    if stack.len() > 0 {
        if visited.contains(stack.last()) {
            lemma_measure_skip(entries, stack, visited);
        } else {
            lemma_measure_visit(entries, stack, visited);
        }
    }
}

/// The run invariant, by induction along the run: starting from a
/// consistent intermediate state, the finished run is duplicate-free,
/// reaches only reachable nodes, keeps everything already recorded or
/// stacked, and is closed under the edge relation.
proof fn lemma_dfs_from_props(
    entries: Seq<(Seq<char>, Seq<Seq<char>>)>,
    start: Seq<char>,
    stack: Seq<Seq<char>>,
    visited: Set<Seq<char>>,
    result: Seq<Seq<char>>,
)
    requires
        visited == result.to_set(),
        distinct_seq(result),
        forall|s: Seq<char>| #[trigger]
            stack.contains(s) ==> reaches(adj_edge(entries), start, s),
        forall|u: Seq<char>| #[trigger]
            visited.contains(u) ==> reaches(adj_edge(entries), start, u),
        forall|u: Seq<char>, v: Seq<char>|
            visited.contains(u) && #[trigger] lookup(entries, u).contains(v) ==> visited.contains(
                v,
            ) || stack.contains(v),
    ensures
        distinct_seq(dfs_from(entries, stack, visited, result)),
        forall|n: Seq<char>| #[trigger]
            dfs_from(entries, stack, visited, result).contains(n) ==> reaches(
                adj_edge(entries),
                start,
                n,
            ),
        forall|s: Seq<char>| #[trigger]
            stack.contains(s) ==> dfs_from(entries, stack, visited, result).contains(s),
        forall|u: Seq<char>| #[trigger]
            visited.contains(u) ==> dfs_from(entries, stack, visited, result).contains(u),
        forall|u: Seq<char>, v: Seq<char>|
            dfs_from(entries, stack, visited, result).contains(u) && #[trigger] lookup(
                entries,
                u,
            ).contains(v) ==> dfs_from(entries, stack, visited, result).contains(v),
    decreases dfs_measure(entries, stack, visited), stack.len(),
{
    let edge = adj_edge(entries);
    let out = dfs_from(entries, stack, visited, result);
    if stack.len() == 0 {
        assert(out == result);
        assert forall|u: Seq<char>| #[trigger] visited.contains(u) implies out.contains(u) by {
            assert(result.to_set().contains(u));
        }
        assert forall|nn: Seq<char>| #[trigger] out.contains(nn) implies reaches(
            edge,
            start,
            nn,
        ) by {
            assert(result.to_set().contains(nn));
            assert(visited.contains(nn));
        }
        assert forall|u: Seq<char>, v: Seq<char>|
            out.contains(u) && #[trigger] lookup(entries, u).contains(v) implies out.contains(
            v,
        ) by {
            assert(visited.contains(u));
            assert(!stack.contains(v));
        }
    } else {
        let n = stack.last();
        let rest = stack.drop_last();
        lemma_drop_last_contains(stack);
        assert(stack.contains(n)) by {
            assert(stack[stack.len() - 1] == n);
        }
        if visited.contains(n) {
            lemma_measure_skip(entries, stack, visited);
            assert forall|s: Seq<char>| #[trigger] rest.contains(s) implies reaches(
                adj_edge(entries),
                start,
                s,
            ) by {
                assert(stack.contains(s));
            }
            assert forall|u: Seq<char>, v: Seq<char>|
                visited.contains(u) && #[trigger] lookup(entries, u).contains(v) implies visited
                .contains(v) || rest.contains(v) by {
                if stack.contains(v) && !visited.contains(v) {
                    assert(v != n);
                }
            }
            lemma_dfs_from_props(entries, start, rest, visited, result);
            let sub = dfs_from(entries, rest, visited, result);
            assert(out == sub);
            assert forall|s: Seq<char>| #[trigger] stack.contains(s) implies out.contains(s) by {
                if s == n {
                    assert(visited.contains(s));
                    assert(sub.contains(s));
                } else {
                    assert(rest.contains(s));
                    assert(sub.contains(s));
                }
            }
            assert forall|nn: Seq<char>| #[trigger] out.contains(nn) implies reaches(
                edge,
                start,
                nn,
            ) by {
                assert(sub.contains(nn));
            }
            assert forall|u: Seq<char>| #[trigger] visited.contains(u) implies out.contains(
                u,
            ) by {
                assert(sub.contains(u));
            }
            assert forall|u: Seq<char>, v: Seq<char>|
                out.contains(u) && #[trigger] lookup(entries, u).contains(v) implies out.contains(
                v,
            ) by {
                assert(sub.contains(u));
                assert(sub.contains(v));
            }
        } else {
            let ns = lookup(entries, n);
            let stack2 = rest + ns.reverse();
            let visited2 = visited.insert(n);
            let result2 = result.push(n);
            lemma_measure_visit(entries, stack, visited);
            lemma_concat_contains(rest, ns.reverse());
            lemma_reverse_contains(ns);
            // the pushed record stays a duplicate-free set-image
            assert(!result.contains(n));
            assert(visited2 =~= result2.to_set()) by {
                assert forall|x: Seq<char>| #[trigger] result2.to_set().contains(x) implies visited2
                    .contains(x) by {
                    let k = choose|k: int| 0 <= k < result2.len() && result2[k] == x;
                    if k < result.len() {
                        assert(result[k] == x);
                    }
                }
                assert forall|x: Seq<char>| visited2.contains(x) implies result2.to_set().contains(
                    x,
                ) by {
                    if x == n {
                        assert(result2[result.len() as int] == x);
                    } else {
                        let k = choose|k: int| 0 <= k < result.len() && result[k] == x;
                        assert(result2[k] == x);
                    }
                }
            }
            assert(distinct_seq(result2)) by {
                assert forall|p: int, q: int| 0 <= p < q < result2.len() implies result2[p]
                    != result2[q] by {
                    if q == result.len() {
                        assert(result2[p] == result[p]);
                        assert(result.contains(result[p]));
                    }
                }
            }
            // everything newly stacked is reachable through n
            assert(reaches(edge, start, n));
            assert forall|s: Seq<char>| #[trigger] stack2.contains(s) implies reaches(
                edge,
                start,
                s,
            ) by {
                if ns.reverse().contains(s) {
                    assert(edge(n, s));
                    lemma_reaches_step(edge, Set::empty(), start, n, s);
                } else {
                    assert(stack.contains(s));
                }
            }
            // visit obligations of every visited node stay covered
            assert forall|u: Seq<char>, v: Seq<char>|
                visited2.contains(u) && #[trigger] lookup(entries, u).contains(v) implies visited2
                .contains(v) || stack2.contains(v) by {
                if u == n {
                    assert(ns.contains(v));
                    assert(ns.reverse().contains(v));
                    assert(stack2.contains(v));
                } else {
                    assert(visited.contains(u));
                    if !visited.contains(v) {
                        assert(stack.contains(v));
                        if v == n {
                            assert(visited2.contains(v));
                        } else {
                            assert(rest.contains(v));
                        }
                    }
                }
            }
            lemma_dfs_from_props(entries, start, stack2, visited2, result2);
            let sub = dfs_from(entries, stack2, visited2, result2);
            assert(out == sub);
            assert forall|s: Seq<char>| #[trigger] stack.contains(s) implies out.contains(s) by {
                if s == n {
                    assert(visited2.contains(s));
                    assert(sub.contains(s));
                } else {
                    assert(rest.contains(s));
                    assert(stack2.contains(s));
                    assert(sub.contains(s));
                }
            }
            assert forall|nn: Seq<char>| #[trigger] out.contains(nn) implies reaches(
                edge,
                start,
                nn,
            ) by {
                assert(sub.contains(nn));
            }
            assert forall|u: Seq<char>| #[trigger] visited.contains(u) implies out.contains(
                u,
            ) by {
                assert(visited2.contains(u));
                assert(sub.contains(u));
            }
            assert forall|u: Seq<char>, v: Seq<char>|
                out.contains(u) && #[trigger] lookup(entries, u).contains(v) implies out.contains(
                v,
            ) by {
                assert(sub.contains(u));
                assert(sub.contains(v));
            }
        }
    }
}

/// Instantiates the run invariant for a fresh traversal: stack holding
/// only `start`, nothing visited, nothing recorded.
proof fn lemma_dfs_order_props(entries: Seq<(Seq<char>, Seq<Seq<char>>)>, start: Seq<char>)
    ensures
        distinct_seq(dfs_order(entries, start)),
        dfs_order(entries, start).contains(start),
        forall|n: Seq<char>| #[trigger]
            dfs_order(entries, start).contains(n) ==> reaches(adj_edge(entries), start, n),
        forall|u: Seq<char>, v: Seq<char>|
            dfs_order(entries, start).contains(u) && #[trigger] lookup(entries, u).contains(v)
                ==> dfs_order(entries, start).contains(v),
{
    let stack = seq![start];
    let visited = Set::<Seq<char>>::empty();
    let result = Seq::<Seq<char>>::empty();
    assert(visited =~= result.to_set());
    lemma_reaches_refl(adj_edge(entries), Set::<Seq<char>>::empty(), start);
    assert forall|s: Seq<char>| #[trigger] stack.contains(s) implies reaches(
        adj_edge(entries),
        start,
        s,
    ) by {
        let k = choose|k: int| 0 <= k < stack.len() && stack[k] == s;
        assert(s == start);
    }
    lemma_dfs_from_props(entries, start, stack, visited, result);
    assert(stack.contains(start)) by {
        assert(stack[0] == start);
    }
}

/// Every node the result holds is reachable from `start`, and every
/// node reachable from `start` is in the result: the traversal is
/// sound and complete, and unreachable nodes never appear.
pub proof fn lemma_dfs_order_reaches(entries: Seq<(Seq<char>, Seq<Seq<char>>)>, start: Seq<char>)
    ensures
        forall|n: Seq<char>| #[trigger]
            dfs_order(entries, start).contains(n) <==> reaches(adj_edge(entries), start, n),
{
    let out = dfs_order(entries, start);
    let edge = adj_edge(entries);
    lemma_dfs_order_props(entries, start);
    assert forall|n: Seq<char>| #[trigger] out.contains(n) <==> reaches(edge, start, n) by {
        if reaches(edge, start, n) {
            assert forall|u: Seq<char>, v: Seq<char>|
                out.to_set().contains(u) && !Set::<Seq<char>>::empty().contains(u)
                    && #[trigger] edge(u, v) implies out.to_set().contains(v) by {
                assert(lookup(entries, u).contains(v));
                assert(out.contains(v));
            }
            lemma_closed_set_reaches(edge, Set::<Seq<char>>::empty(), out.to_set(), start, n);
        }
    }
}

/// The traversal order never repeats an identifier, whatever the graph
/// — cycles included.
pub proof fn lemma_dfs_order_distinct(entries: Seq<(Seq<char>, Seq<Seq<char>>)>, start: Seq<char>)
    ensures
        distinct_seq(dfs_order(entries, start)),
{
    lemma_dfs_order_props(entries, start);
}

/// A start node with no listed neighbors — including one the mapping
/// never mentions — traverses to exactly the one-element order.
pub proof fn lemma_dfs_order_isolated(entries: Seq<(Seq<char>, Seq<Seq<char>>)>, start: Seq<char>)
    requires
        lookup(entries, start).len() == 0,
    ensures
        dfs_order(entries, start) == seq![start],
{
    let stack = seq![start];
    let visited = Set::<Seq<char>>::empty();
    let result = Seq::<Seq<char>>::empty();
    assert(stack.last() == start);
    assert(lookup(entries, start).reverse() =~= Seq::<Seq<char>>::empty());
    let stack2 = stack.drop_last() + lookup(entries, start).reverse();
    assert(stack2 =~= Seq::<Seq<char>>::empty());
    assert(dfs_order(entries, start) == dfs_from(
        entries,
        stack2,
        visited.insert(start),
        result.push(start),
    ));
    assert(dfs_from(entries, stack2, visited.insert(start), result.push(start)) == result.push(
        start,
    ));
    assert(result.push(start) =~= seq![start]);
}

/// Whether the list contains a string equal to `x`.
fn contains_string(v: &Vec<String>, x: &String) -> (b: bool)
    ensures
        b == v.deep_view().contains(x@),
{
    let n = v.len();
    let mut i: usize = 0;
    while i < n
        invariant
            i <= n,
            n == v.len(),
            forall|j: int| 0 <= j < i ==> v.deep_view()[j] != x@,
        decreases n - i,
    {
        if v[i] == *x {
            assert(v.deep_view()[i as int] == x@);
            return true;
        }
        i = i + 1;
    }
    false
}

/// Depth-first traversal of `adj` from `start`, with an explicit stack.
///
/// The result is exactly the abstract run `dfs_order`, so identical
/// inputs give identical outputs; it holds each node reachable from
/// `start` exactly once — `start` itself included, even when the
/// mapping never mentions it — and nothing else. Cycles, self-loops and
/// neighbors absent from the mapping are all handled; no input fails.
pub fn dfs(adj: &Adjacency, start: &String) -> (result: Vec<String>)
    ensures
        result.deep_view() == dfs_order(adj@, start@),
        distinct_seq(result.deep_view()),
        forall|n: Seq<char>|
            #[trigger] result.deep_view().contains(n) <==> reaches(adj_edge(adj@), start@, n),
{
    let mut visited: Vec<String> = Vec::new();
    let mut stack: Vec<String> = Vec::new();
    let mut result: Vec<String> = Vec::new();
    stack.push(start.clone());
    proof {
        assert(stack.deep_view() =~= seq![start@]);
        assert(visited.deep_view().to_set() =~= Set::<Seq<char>>::empty());
        assert(result.deep_view() =~= Seq::<Seq<char>>::empty());
    }
    while stack.len() != 0
        invariant
            dfs_from(adj@, stack.deep_view(), visited.deep_view().to_set(), result.deep_view())
                == dfs_order(adj@, start@),
        decreases dfs_measure(adj@, stack.deep_view(), visited.deep_view().to_set()),
            stack.deep_view().len(),
    {
        let ghost s0 = stack.deep_view();
        let ghost v0 = visited.deep_view().to_set();
        let ghost r0 = result.deep_view();
        let node = stack.pop().unwrap();
        proof {
            assert(stack.deep_view() =~= s0.drop_last());
            assert(node@ == s0.last());
        }
        if !contains_string(&visited, &node) {
            proof {
                assert(!v0.contains(node@));
            }
            let ghost vd0 = visited.deep_view();
            let ghost rd0 = result.deep_view();
            visited.push(node.clone());
            result.push(node.clone());
            proof {
                assert(visited.deep_view() =~= vd0.push(node@));
                assert(result.deep_view() =~= rd0.push(node@));
                vd0.lemma_push_to_set_commute(node@);
                assert(visited.deep_view().to_set() == v0.insert(node@));
                assert(result.deep_view() == r0.push(node@));
            }
            let ghost base = stack.deep_view();
            match adj.neighbors(&node) {
                Some(ns) => {
                    let ghost d = ns.deep_view();
                    let m = ns.len();
                    let mut j: usize = m;
                    proof {
                        assert(d.skip(m as int).reverse() =~= Seq::<Seq<char>>::empty());
                        assert(stack.deep_view() =~= base + d.skip(m as int).reverse());
                    }
                    while j > 0
                        invariant
                            j <= m,
                            m == ns.len(),
                            d == ns.deep_view(),
                            stack.deep_view() == base + d.skip(j as int).reverse(),
                        decreases j,
                    {
                        let ghost jj = j as int;
                        j = j - 1;
                        stack.push(ns[j].clone());
                        proof {
                            assert(stack.deep_view() =~= (base + d.skip(jj).reverse()).push(
                                d[jj - 1],
                            ));
                            assert((base + d.skip(jj).reverse()).push(d[jj - 1]) =~= base + d.skip(
                                jj - 1,
                            ).reverse());
                        }
                    }
                    proof {
                        assert(d.skip(0) =~= d);
                        assert(stack.deep_view() == base + lookup(adj@, node@).reverse());
                    }
                },
                None => {
                    proof {
                        assert(lookup(adj@, node@).reverse() =~= Seq::<Seq<char>>::empty());
                        assert(stack.deep_view() =~= base + lookup(adj@, node@).reverse());
                    }
                },
            }
            proof {
                assert(s0.len() > 0 && s0.last() == node@ && !v0.contains(node@));
                assert(dfs_from(adj@, s0, v0, r0) == dfs_from(
                    adj@,
                    s0.drop_last() + lookup(adj@, node@).reverse(),
                    v0.insert(node@),
                    r0.push(node@),
                ));
                lemma_measure_visit(adj@, s0, v0);
            }
        } else {
            proof {
                assert(v0.contains(node@));
                assert(dfs_from(adj@, s0, v0, r0) == dfs_from(adj@, s0.drop_last(), v0, r0));
                lemma_measure_skip(adj@, s0, v0);
            }
        }
    }
    proof {
        assert(stack.deep_view().len() == 0);
        assert(dfs_from(
            adj@,
            stack.deep_view(),
            visited.deep_view().to_set(),
            result.deep_view(),
        ) == result.deep_view());
        lemma_dfs_order_distinct(adj@, start@);
        lemma_dfs_order_reaches(adj@, start@);
    }
    result
}

} // verus!
