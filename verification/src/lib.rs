//! A self-balancing binary search tree (AVL) with an ordered map layered on
//! top of it.
//!
//! Every element carries a mathematical key, given by the [`Keyed`] trait; the
//! tree keeps its elements ordered by that key and maintains the AVL balance
//! invariant across insertion and deletion.

mod avl;
mod iters;
mod keyed;
mod map;
mod node;

pub use avl::AVL;
pub use avl::lemma_insert_remove_roundtrip;
pub use avl::lemma_insert_distinct_idempotent;
pub use map::BTreeMap;
pub use map::Pair;
pub use map::distinct_by_key;
pub use node::inserted;
pub use node::lemma_inserted_on_empty;
pub use node::lemma_inserted_multiset;
pub use node::max_count;
pub use node::min_count;
pub use node::le_key;
pub use node::gt_key;
pub use node::lt_key;
pub use iters::Increasing;
pub use iters::Decreasing;
pub use iters::IntoIncreasing;
pub use iters::IntoDecreasing;
pub use iters::Iter;
pub use iters::IntoIter;
pub use iters::GreaterThan;
pub use iters::LessThan;
pub use iters::Levels;
pub use iters::Level;

pub use keyed::Keyed;
pub use keyed::Nearness;
pub use keyed::Probe;
pub use keyed::Chooser;
pub use keyed::cost_consistent;
pub use keyed::NearerTo;
pub use keyed::lemma_nearer_to_consistent;
pub use keyed::FartherFrom;
pub use keyed::dist;
pub use node::all_le;
pub use node::all_ge;
pub use node::sorted_by_key;
pub use node::has_key;
