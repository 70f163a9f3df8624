//! Maximum flow and minimum cut on directed graphs with integer capacities,
//! by shortest augmenting paths.
//!
//! A capacity network is a [`Network`] whose arc weights are capacities.
//! [`residuals`] makes its residual network, [`find_augmenting_path`] pushes
//! flow through that along one shortest path, and once no path is left
//! [`flow_from_residuals`] reads the flow off it and [`cut_from_residual`] the
//! source side of a minimum cut. [`min_cut`] does all of this in one call.
//!
//! The module `duality` proves that the flow so found is as large as the
//! smallest cut, and that neither its value nor the cut depends on the paths
//! taken.

pub mod augment;
pub mod cut;
pub mod duality;
pub mod error;
pub mod mincut;
pub mod network;
pub mod residual;
pub mod search;
pub mod walk;
pub mod weight;

pub use augment::find_augmenting_path;
pub use cut::cut_from_residual;
pub use error::FlowError;
pub use mincut::min_cut;
pub use network::{Arc, Network};
pub use residual::{flow_from_residuals, is_residual_network, residuals};
