//! Connected-components labeling by iterated graph contraction: each round
//! rewires the working graph toward local minima, prunes the vertices whose
//! neighborhood has collapsed and records them in a forest; a last pass walks
//! the forest and gives every vertex the root of its tree.

pub mod store;
pub mod graph;
pub mod minimum;
pub mod select;
pub mod prune;
pub mod seeds;
pub mod rounds;
pub mod components;
pub mod laws;
pub mod connectivity;
pub mod relabel;
pub mod edge_list;
