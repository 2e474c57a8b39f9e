//! The ordered adjacency mapping: the traversal-facing input shape.
//! Keys are string node identifiers; each maps to an ordered neighbor
//! sequence, so traversal order is fully determined by the input.

use vstd::prelude::*;

use crate::assoc::{has_key, lemma_lookup_absent, lemma_lookup_index, lookup};

verus! {

/// An adjacency mapping from node identifiers to ordered neighbor
/// sequences. Looking up a node that was never bound yields no
/// neighbors; that is a normal state, not an error.
pub struct Adjacency {
    entries: Vec<(String, Vec<String>)>,
}

impl View for Adjacency {
    type V = Seq<(Seq<char>, Seq<Seq<char>>)>;

    closed spec fn view(&self) -> Seq<(Seq<char>, Seq<Seq<char>>)> {
        self.entries.deep_view()
    }
}

impl Adjacency {
    /// Creates an empty mapping: every node reads as neighborless.
    pub fn new() -> (a: Adjacency)
        ensures
            a@ == Seq::<(Seq<char>, Seq<Seq<char>>)>::empty(),
    {
        let a = Adjacency { entries: Vec::new() };
        proof {
            assert(a@ =~= Seq::<(Seq<char>, Seq<Seq<char>>)>::empty());
        }
        a
    }

    /// Binds `node` to the ordered sequence `neighbors`. A later
    /// insertion for the same node shadows an earlier one, as in a map
    /// update; every other node's neighbors are unchanged.
    pub fn insert(&mut self, node: String, neighbors: Vec<String>)
        ensures
            forall|k: Seq<char>|
                #[trigger] lookup(final(self)@, k) == if k == node@ {
                    neighbors.deep_view()
                } else {
                    lookup(old(self)@, k)
                },
    {
        let ghost old_view = self@;
        let ghost pair = (node@, neighbors.deep_view());
        self.entries.insert(0, (node, neighbors));
        proof {
            assert(self@ =~~= seq![pair] + old_view);
            assert(self@.first() == pair);
            assert(self@.drop_first() =~~= old_view);
            assert forall|k: Seq<char>|
                #[trigger] lookup(self@, k) == if k == pair.0 {
                    pair.1
                } else {
                    lookup(old_view, k)
                } by {
                if k != pair.0 {
                    assert(lookup(self@, k) == lookup(self@.drop_first(), k));
                }
            }
        }
    }

    /// The ordered neighbor sequence bound to `node`, or `None` exactly
    /// when `node` was never bound. Never fails, whatever the node.
    pub fn neighbors<'a>(&'a self, node: &String) -> (r: Option<&'a Vec<String>>)
        ensures
            match r {
                Some(ns) => has_key(self@, node@) && ns.deep_view() == lookup(self@, node@),
                None => !has_key(self@, node@) && lookup(self@, node@) == Seq::<
                    Seq<char>,
                >::empty(),
            },
    {
        let n = self.entries.len();
        let mut i: usize = 0;
        while i < n
            invariant
                i <= n,
                n == self.entries.len(),
                self@.len() == n,
                forall|j: int| 0 <= j < i ==> (#[trigger] self@[j]).0 != node@,
            decreases n - i,
        {
            if self.entries[i].0 == *node {
                proof {
                    lemma_lookup_index(self@, i as int, node@);
                    assert(has_key(self@, node@)) by {
                        assert(self@[i as int].0 == node@);
                    }
                }
                return Some(&self.entries[i].1);
            }
            i = i + 1;
        }
        proof {
            assert(!has_key(self@, node@));
            lemma_lookup_absent(self@, node@);
        }
        None
    }
}

} // verus!
