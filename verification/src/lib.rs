//! A citation-graph builder: starting from a seed set of paper records,
//! it grows a frontier of candidate papers gated by an accumulated
//! citation signal, commits discovered nodes and edges into a graph,
//! and finally peels low-connectivity nodes away before export.

pub mod paper;
pub mod render;
pub mod threshold;
pub mod graph;
pub mod prune;
mod bignum;
pub mod fetch;
pub mod frontier;
pub mod ident;

pub use frontier::Expansion;
pub use frontier::FrontierEntry;
pub use frontier::FrontierStore;
pub use frontier::from_staging;
pub use graph::Edge;
pub use graph::Graph;
pub use ident::parse_ids;
pub use paper::Paper;
pub use paper::PaperId;
pub use paper::ProtoPaper;
pub use render::escape;
pub use threshold::Connectivity;
