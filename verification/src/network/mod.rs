pub mod filter;
pub mod gate;
pub mod noise;
pub mod sessions;
