pub mod actor;
pub mod arena;
pub mod consensus;
pub mod gc;
pub mod merkle_dag;
pub mod store;
