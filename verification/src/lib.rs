//! A small verified graph library: an undirected adjacency store and a
//! depth-first traversal engine over ordered adjacency mappings.

use vstd::prelude::*;

mod adjacency;
mod assoc;
mod graph;
mod reach;
mod staff;
mod traversal;
mod user;
mod visit;

pub use assoc::{
    has_key, lemma_lookup_absent, lemma_lookup_index, lemma_lookup_push, lemma_lookup_update,
    lemma_node_pool_covers, lemma_node_pool_finite, lookup, node_pool,
};
pub use adjacency::Adjacency;
pub use graph::Graph;
pub use staff::Coverage;
pub use user::User;
pub use traversal::{
    adj_edge, dfs, dfs_from, dfs_measure, dfs_order, lemma_dfs_order_distinct,
    lemma_dfs_order_isolated, lemma_dfs_order_reaches, scope,
};
pub use visit::{dfs_recursive, dfs_visit, lemma_variants_agree, VisitedSet};
pub use reach::{
    is_walk, lemma_closed_set_reaches, lemma_reaches_refl, lemma_reaches_step, lemma_reaches_trans,
    lemma_reaches_weaken, reaches, reaches_avoiding, walk_avoids,
};

verus! {

/// True when a sequence holds no repeated elements.
pub open spec fn distinct_seq<A>(s: Seq<A>) -> bool {
    forall|i: int, j: int| 0 <= i < j < s.len() ==> s[i] != s[j]
}

} // verus!

