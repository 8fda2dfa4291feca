//! Proof-of-work core built on odd cycles in a bipartite random graph.
//!
//! A [`Graph`] is an ordered sequence of `N = 2^n` directed edges whose
//! endpoints are drawn uniformly from `{0 .. N-1}`. A prover searches the
//! graph for a closed walk of odd sequence length at least 5 that alternates
//! between the top and bottom side of the bipartite structure; a verifier
//! independently re-checks a candidate walk against the edge list.

mod cycle;
mod graph;
mod laws;
mod solver;

pub use cycle::has_edge;
pub use cycle::step_ok;
pub use cycle::valid_cycle;
pub use cycle::verify_spec;
pub use graph::edge_from_words;
pub use graph::graph_from_words;
pub use graph::graph_wf;
pub use graph::Graph;
pub use laws::lemma_cycle_passes_verification;
pub use laws::lemma_generation_deterministic;
pub use laws::lemma_low_degree_bottom_not_on_cycle;
pub use laws::lemma_low_degree_top_not_on_cycle;
pub use laws::lemma_verifier_rejects_even_length;
pub use solver::adj_contains;
pub use solver::adj_mutual;
pub use solver::adj_sound;
pub use solver::bot_kept;
pub use solver::interior_distinct;
pub use solver::lists_no_dup;
pub use solver::surviving_edge;
pub use solver::top_kept;
