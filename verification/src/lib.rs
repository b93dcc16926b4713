//! Reaching centrality (Mones, Vicsek & Vicsek) over edge-list graphs: the
//! edge-list reader, the graph model and the breadth-first traversals whose
//! counts the centrality values are built from.
use vstd::prelude::*;

pub mod io;
pub mod order;
pub mod paths;
pub mod reaching;
pub mod text;

verus! {

/// Which reaching centrality a run reports.
#[derive(Clone, Copy, Debug, PartialEq, Eq, Structural)]
pub enum Scope {
    /// Single global reaching centrality of the whole graph.
    Global,
    /// Per-node local reaching centrality.
    Local,
}

} // verus!
