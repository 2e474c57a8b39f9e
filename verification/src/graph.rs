//! The mutable, undirected graph store: node identifiers mapped to
//! duplicate-free neighbor sets, with symmetric edge insertion, and the
//! per-traversal record of visited nodes.

use vstd::prelude::*;

use crate::assoc::{
    has_key, keys_distinct, lemma_lookup_absent, lemma_lookup_index, lemma_lookup_push,
    lemma_lookup_update, lookup,
};
use crate::distinct_seq;

verus! {

/// An undirected graph: each node identifier owns the set of its
/// neighbors. Nodes come into being on first reference; unknown nodes
/// read as having no neighbors.
pub struct Graph {
    adjacency: Vec<(i32, Vec<i32>)>,
}

impl Graph {
    /// The adjacency entries, as an association sequence.
    pub closed spec fn entries(&self) -> Seq<(i32, Seq<i32>)> {
        self.adjacency.deep_view()
    }

    /// The neighbor set recorded for `u`; empty when `u` was never
    /// referenced.
    pub open spec fn nbrs(&self, u: i32) -> Set<i32> {
        lookup(self.entries(), u).to_set()
    }

    /// The store's invariant: one entry per node, duplicate-free
    /// neighbor lists, and edges recorded symmetrically.
    pub open spec fn wf(&self) -> bool {
        &&& keys_distinct(self.entries())
        &&& forall|i: int|
            0 <= i < self.entries().len() ==> distinct_seq((#[trigger] self.entries()[i]).1)
        &&& forall|u: i32, v: i32| #[trigger] self.nbrs(u).contains(v) ==> self.nbrs(v).contains(u)
    }

    /// The edge relation that the store currently represents.
    pub open spec fn edge(self) -> spec_fn(i32, i32) -> bool {
        |u: i32, v: i32| self.nbrs(u).contains(v)
    }

    /// Creates an empty store: no entries at all, so no node has any
    /// neighbor.
    pub fn new() -> (g: Graph)
        ensures
            g.wf(),
            g.entries() == Seq::<(i32, Seq<i32>)>::empty(),
            forall|u: i32, v: i32| !(#[trigger] g.nbrs(u).contains(v)),
    {
        let g = Graph { adjacency: Vec::new() };
        proof {
            assert(g.entries() =~= Seq::<(i32, Seq<i32>)>::empty());
            assert forall|u: i32, v: i32| !(#[trigger] g.nbrs(u).contains(v)) by {
                assert(lookup(g.entries(), u) =~= Seq::<i32>::empty());
            }
        }
        g
    }

    /// The index of the entry that carries `a`, if one does.
    fn find_key(&self, a: i32) -> (r: Option<usize>)
        ensures
            match r {
                Some(i) => i < self.entries().len() && self.entries()[i as int].0 == a
                    && forall|j: int| 0 <= j < i ==> (#[trigger] self.entries()[j]).0 != a,
                None => !has_key(self.entries(), a),
            },
    {
        let n = self.adjacency.len();
        let mut i: usize = 0;
        while i < n
            invariant
                i <= n,
                n == self.adjacency.len(),
                forall|j: int| 0 <= j < i ==> (#[trigger] self.entries()[j]).0 != a,
            decreases n - i,
        {
            if self.adjacency[i].0 == a {
                return Some(i);
            }
            i = i + 1;
        }
        None
    }

    /// Records `b` as a neighbor of `a`, creating `a`'s entry if absent;
    /// no other neighbor set changes, and no entry appears or vanishes
    /// beyond `a`'s own.
    fn insert_half(&mut self, a: i32, b: i32)
        requires
            keys_distinct(old(self).entries()),
            forall|i: int|
                0 <= i < old(self).entries().len() ==> distinct_seq(
                    (#[trigger] old(self).entries()[i]).1,
                ),
        ensures
            keys_distinct(final(self).entries()),
            forall|i: int|
                0 <= i < final(self).entries().len() ==> distinct_seq(
                    (#[trigger] final(self).entries()[i]).1,
                ),
            forall|x: i32, y: i32|
                #[trigger] final(self).nbrs(x).contains(y) <==> old(self).nbrs(x).contains(y) || (
                x == a && y == b),
            forall|k: i32|
                has_key(final(self).entries(), k) <==> has_key(old(self).entries(), k) || k == a,
    {
        let ghost old_entries = self.entries();
        match self.find_key(a) {
            Some(i) => {
                proof {
                    lemma_lookup_index(old_entries, i as int, a);
                }
                if contains_i32(&self.adjacency[i].1, b) {
                    proof {
                        assert forall|x: i32, y: i32| #[trigger]
                            self.nbrs(x).contains(y) <==> old(self).nbrs(x).contains(y) || (x == a
                            && y == b) by {
                            assert(lookup(old_entries, a).contains(b));
                        }
                        assert(has_key(old_entries, a)) by {
                            assert(old_entries[i as int].0 == a);
                        }
                    }
                } else {
                    let pair = self.adjacency.remove(i);
                    let key = pair.0;
                    let mut list = pair.1;
                    let ghost old_list = list.deep_view();
                    list.push(b);
                    self.adjacency.insert(i, (key, list));
                    proof {
                        let updated = old_entries.update(i as int, (a, old_list.push(b)));
                        assert(self.entries() =~~= updated);
                        lemma_lookup_update(old_entries, i as int, (a, old_list.push(b)));
                        assert(!old_list.contains(b));
                        assert forall|x: i32, y: i32| #[trigger]
                            self.nbrs(x).contains(y) <==> old(self).nbrs(x).contains(y) || (x == a
                            && y == b) by {
                            if x == a {
                                assert(lookup(updated, a) == old_list.push(b));
                                assert(lookup(old_entries, a) == old_list);
                                assert(old_list.push(b).contains(y) <==> old_list.contains(y) || y
                                    == b) by {
                                    if old_list.contains(y) {
                                        let k = choose|k: int|
                                            0 <= k < old_list.len() && old_list[k] == y;
                                        assert(old_list.push(b)[k] == y);
                                    }
                                    if y == b {
                                        assert(old_list.push(b)[old_list.len() as int] == b);
                                    }
                                    if old_list.push(b).contains(y) && y != b {
                                        let k = choose|k: int|
                                            0 <= k < old_list.push(b).len() && old_list.push(b)[k]
                                                == y;
                                        if k < old_list.len() {
                                            assert(old_list[k] == y);
                                        } else {
                                            assert(old_list.push(b)[k] == b);
                                        }
                                    }
                                }
                            }
                        }
                        assert forall|ii: int|
                            0 <= ii < self.entries().len() implies distinct_seq(
                            (#[trigger] self.entries()[ii]).1,
                        ) by {
                            if ii == i {
                                assert(distinct_seq(old_list));
                                assert forall|p: int, q: int|
                                    0 <= p < q < old_list.push(b).len() implies old_list.push(b)[p]
                                    != old_list.push(b)[q] by {
                                    if q == old_list.len() {
                                        assert(old_list.push(b)[p] == old_list[p]);
                                        assert(!old_list.contains(b));
                                    }
                                }
                            }
                        }
                        assert forall|k: i32|
                            has_key(self.entries(), k) <==> has_key(old_entries, k) || k
                            == a by {
                            if has_key(self.entries(), k) {
                                let j = choose|j: int|
                                    0 <= j < self.entries().len() && (#[trigger] self.entries()[
                                    j]).0 == k;
                                assert(old_entries[j].0 == k || j == i);
                            }
                            if has_key(old_entries, k) {
                                let j = choose|j: int|
                                    0 <= j < old_entries.len() && (#[trigger] old_entries[j]).0
                                        == k;
                                if j == i {
                                    assert(self.entries()[i as int].0 == a);
                                } else {
                                    assert(self.entries()[j].0 == k);
                                }
                            }
                            if k == a {
                                assert(self.entries()[i as int].0 == a);
                            }
                        }
                    }
                }
            },
            None => {
                let mut list: Vec<i32> = Vec::new();
                list.push(b);
                self.adjacency.push((a, list));
                proof {
                    let e = (a, seq![b]);
                    assert(list.deep_view() =~= seq![b]);
                    assert(self.entries() =~~= old_entries.push(e));
                    lemma_lookup_push(old_entries, e);
                    lemma_lookup_absent(old_entries, a);
                    assert forall|x: i32, y: i32| #[trigger]
                        self.nbrs(x).contains(y) <==> old(self).nbrs(x).contains(y) || (x == a && y
                        == b) by {
                        if x == a {
                            assert(lookup(self.entries(), a) == seq![b]);
                            assert(seq![b].contains(y) <==> y == b) by {
                                if seq![b].contains(y) {
                                    let k = choose|k: int| 0 <= k < 1 && seq![b][k] == y;
                                }
                                if y == b {
                                    assert(seq![b][0] == y);
                                }
                            }
                            assert(lookup(old_entries, a) =~= Seq::<i32>::empty());
                        }
                    }
                    assert forall|p: int, q: int|
                        0 <= p < q < self.entries().len() implies (#[trigger] self.entries()[p]).0
                        != (#[trigger] self.entries()[q]).0 by {
                        if q == old_entries.len() {
                            assert(self.entries()[p] == old_entries[p]);
                        }
                    }
                    assert forall|ii: int|
                        0 <= ii < self.entries().len() implies distinct_seq(
                        (#[trigger] self.entries()[ii]).1,
                    ) by {
                        if ii < old_entries.len() {
                            assert(self.entries()[ii] == old_entries[ii]);
                        } else {
                            assert(self.entries()[ii].1 == seq![b]);
                        }
                    }
                    assert forall|k: i32|
                        has_key(self.entries(), k) <==> has_key(old_entries, k) || k == a by {
                        if has_key(self.entries(), k) {
                            let j = choose|j: int|
                                0 <= j < self.entries().len() && (#[trigger] self.entries()[j]).0
                                    == k;
                            if j < old_entries.len() {
                                assert(old_entries[j].0 == k);
                            }
                        }
                        if has_key(old_entries, k) {
                            let j = choose|j: int|
                                0 <= j < old_entries.len() && (#[trigger] old_entries[j]).0 == k;
                            assert(self.entries()[j].0 == k);
                        }
                        if k == a {
                            assert(self.entries()[old_entries.len() as int].0 == a);
                        }
                    }
                }
            },
        }
    }

    /// Inserts the undirected edge `(u, v)`: `v` joins `u`'s neighbor
    /// set and `u` joins `v`'s. Re-adding an existing edge changes
    /// nothing, no other neighbor set is touched, and the only entries
    /// that can come into being are those of `u` and `v` themselves.
    pub fn add_edge(&mut self, u: i32, v: i32)
        requires
            old(self).wf(),
        ensures
            final(self).wf(),
            forall|x: i32, y: i32|
                #[trigger] final(self).nbrs(x).contains(y) <==> old(self).nbrs(x).contains(y) || (
                x == u && y == v) || (x == v && y == u),
            forall|k: i32|
                has_key(final(self).entries(), k) <==> has_key(old(self).entries(), k) || k == u
                    || k == v,
    {
        self.insert_half(u, v);
        self.insert_half(v, u);
    }

    /// The neighbors of `node`, as a duplicate-free list; empty when
    /// `node` was never referenced. Never fails, whatever the node.
    pub fn neighbors(&self, node: i32) -> (ns: Vec<i32>)
        requires
            self.wf(),
        ensures
            distinct_seq(ns@),
            forall|b: i32| #[trigger] ns@.contains(b) <==> self.nbrs(node).contains(b),
    {
        match self.find_key(node) {
            Some(i) => {
                proof {
                    lemma_lookup_index(self.entries(), i as int, node);
                }
                let ns = copy_i32_list(&self.adjacency[i].1);
                proof {
                    assert(ns@ =~= self.entries()[i as int].1);
                }
                ns
            },
            None => {
                proof {
                    lemma_lookup_absent(self.entries(), node);
                }
                Vec::new()
            },
        }
    }

    /// All `(node, neighbor-list)` pairs currently stored — exactly
    /// the store's entries, one pair per entry, each node once with
    /// exactly its neighbor set.
    pub fn display(&self) -> (out: Vec<(i32, Vec<i32>)>)
        requires
            self.wf(),
        ensures
            out.deep_view() == self.entries(),
            keys_distinct(out.deep_view()),
            forall|j: int|
                0 <= j < out.deep_view().len() ==> (#[trigger] out.deep_view()[j]).1.to_set()
                    == self.nbrs(out.deep_view()[j].0),
            forall|u: i32, w: i32|
                #[trigger] self.nbrs(u).contains(w) ==> exists|j: int|
                    0 <= j < out.deep_view().len() && (#[trigger] out.deep_view()[j]).0 == u,
    {
        let n = self.adjacency.len();
        let mut out: Vec<(i32, Vec<i32>)> = Vec::new();
        let mut i: usize = 0;
        while i < n
            invariant
                i <= n,
                n == self.adjacency.len(),
                out.deep_view() =~~= self.entries().take(i as int),
            decreases n - i,
        {
            let key = self.adjacency[i].0;
            let list = copy_i32_list(&self.adjacency[i].1);
            out.push((key, list));
            proof {
                assert(out.deep_view() =~~= self.entries().take(i + 1 as int));
            }
            i = i + 1;
        }
        proof {
            assert(out.deep_view() =~~= self.entries());
            assert forall|j: int|
                0 <= j < out.deep_view().len() implies (#[trigger] out.deep_view()[j]).1.to_set()
                == self.nbrs(out.deep_view()[j].0) by {
                lemma_lookup_index(self.entries(), j, self.entries()[j].0);
            }
            assert forall|u: i32, w: i32| #[trigger]
                self.nbrs(u).contains(w) implies exists|j: int|
                0 <= j < out.deep_view().len() && (#[trigger] out.deep_view()[j]).0 == u by {
                if !has_key(self.entries(), u) {
                    lemma_lookup_absent(self.entries(), u);
                    assert(!lookup(self.entries(), u).contains(w));
                }
                let j = choose|j: int|
                    0 <= j < self.entries().len() && (#[trigger] self.entries()[j]).0 == u;
                assert(out.deep_view()[j].0 == u);
            }
        }
        out
    }

    /// In a well-formed store, recorded edges are symmetric: if `v` is a
    /// neighbor of `u`, then `u` is a neighbor of `v`.
    pub proof fn lemma_symmetric(&self, u: i32, v: i32)
        requires
            self.wf(),
            self.nbrs(u).contains(v),
        ensures
            self.nbrs(v).contains(u),
    {
    }
}

/// Whether the list contains `x`.
fn contains_i32(v: &Vec<i32>, x: i32) -> (b: bool)
    ensures
        b == v.deep_view().contains(x),
{
    let n = v.len();
    let mut i: usize = 0;
    while i < n
        invariant
            i <= n,
            n == v.len(),
            forall|j: int| 0 <= j < i ==> v.deep_view()[j] != x,
        decreases n - i,
    {
        if v[i] == x {
            assert(v.deep_view()[i as int] == x);
            return true;
        }
        i = i + 1;
    }
    false
}

/// A fresh copy of the list.
fn copy_i32_list(v: &Vec<i32>) -> (out: Vec<i32>)
    ensures
        out@ == v.deep_view(),
{
    let n = v.len();
    let mut out: Vec<i32> = Vec::new();
    let mut i: usize = 0;
    while i < n
        invariant
            i <= n,
            n == v.len(),
            out@ =~= v.deep_view().take(i as int),
        decreases n - i,
    {
        out.push(v[i]);
        proof {
            assert(out@ =~= v.deep_view().take(i + 1 as int));
        }
        i = i + 1;
    }
    proof {
        assert(out@ =~= v.deep_view());
    }
    out
}

} // verus!
