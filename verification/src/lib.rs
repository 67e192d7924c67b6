pub mod ai_bridge;
pub mod config;
pub mod crdt;
pub mod crypto;
pub mod dashboard;
pub mod epistemic;
pub mod error;
pub mod event;
pub mod legacy;
pub mod network;
pub mod ordering;
pub mod protocol;
pub mod semantic_topology;

pub use self::error::{AimpError, AimpResult};
