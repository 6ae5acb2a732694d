//! Community detection on weighted graphs with the Leiden algorithm.
//!
//! A [`Graph`] has nodes and edges with weights. [`Graph::leiden`] moves nodes between
//! communities as long as modularity gains by it, splits communities that are not
//! connected, makes a graph of the communities, and goes on with that graph, until no
//! community joins another. What it hands back is the graph of the topmost communities.

pub mod batch;
pub mod binary32;
pub mod community;
pub mod components;
pub mod compress;
pub mod compress_laws;
pub mod ending_laws;
pub mod exact;
pub mod exact_bounds;
pub mod exact_carry;
pub mod exact_laws;
pub mod exact_levels;
pub mod exact_modularity;
pub mod exact_moves;
pub mod exact_runs;
pub mod finite_gain;
pub mod finite_laws;
pub mod graph;
pub mod graph_laws;
pub mod leiden;
pub mod leiden_laws;
pub mod level_weights;
pub mod modularity;
pub mod moves;
pub mod near_carry;
pub mod near_gain;
pub mod near_laws;
pub mod near_sums;
pub mod near_total;
pub mod optimize;
pub mod optimizer;
pub mod parts;
pub mod refine;
pub mod refine_laws;
pub mod rounding;
pub mod step_laws;
pub mod sums;
pub mod tables;
pub mod tally;

pub use crate::binary32::Binary32;
pub use crate::community::Community;
pub use crate::graph::{EdgeInfo, Graph};
pub use crate::modularity::LocalMove;
pub use crate::optimizer::{ModularityOptimizer, TrivialModularityOptimizer};
pub use crate::tables::{CommunityAssignments, CommunityId, NodeSet};
