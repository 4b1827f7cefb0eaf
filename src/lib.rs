//! Deciding p-2-admissibility of an undirected graph by a greedy ordering.
//!
//! The engine (`adm_graph`) moves vertices one at a time from the unordered
//! side L to the ordered side R, keeping for every vertex the state of
//! `adm_data`: its neighbours on each side and a matching that certifies
//! disjoint routes of length two from the vertex back into L. A vertex may
//! move once its budget of routes is at most `p`; `augmenting_path` grows a
//! matching by one pair when the budget would otherwise be understated.
//! `ordering` runs the engine for one `p`, and searches for the smallest `p`.
pub mod adm_data;
pub mod adm_graph;
pub mod augmenting_path;
pub mod graph;
pub mod ordering;
pub mod sets;
