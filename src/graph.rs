pub mod edge;
pub mod kings_graph;
pub mod solution;
pub mod state;
pub mod valences;

pub use edge::{Edge, EdgeSet};
pub use kings_graph::{GridPos, KingsGraph, NodeId};
pub use solution::Solution;
pub use state::{GameState, MoveResult, ValidationError};
pub use valences::Valences;
