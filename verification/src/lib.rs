//! Fork-aware incremental indexing for the non-finalized state of a
//! blockchain node.
//!
//! The crate tracks, for every candidate chain, a per-address transfer index
//! that is extended when a block is connected (`apply`) and exactly undone
//! when a block is disconnected (`revert`), either because the chain lost a
//! fork race (tip revert) or because its oldest block is being promoted into
//! finalized storage (root revert).

pub mod amount;
pub mod chain;
pub mod errors;
pub mod forkset;
pub mod laws;
pub mod location;
pub mod msets;
pub mod omap;
pub mod oset;
pub mod response;
pub mod transfers;
