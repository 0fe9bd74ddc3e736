//! The media data model: asset identity by content hash, the frame envelope
//! that crosses crate boundaries, the CPU frame pool with generation-based
//! staleness detection, and the probe data model.
pub mod asset;
pub mod frame;
pub mod pool;
pub mod probe;
