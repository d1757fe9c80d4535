//! The search engine, the query context that caches its results, and the
//! context that holds the loaded road network.

pub mod algorithm_context;
pub mod data_context;
pub mod pathfinding;
pub mod search_run;
pub mod search_state;

pub use algorithm_context::{AlgorithmContext, AlgorithmType, RunArgs};
pub use data_context::{DataContext, DataFile};
pub use pathfinding::{run_pathfinding_algorithm, PathError, RunOutput};
