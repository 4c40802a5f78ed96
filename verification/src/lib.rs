//! Deterministic exchange core.

pub mod arena;
pub mod book;
pub mod bytes;
pub mod census;
pub mod compliance;
pub mod errors;
pub mod fix;
pub mod grammar;
pub mod laws;
pub mod layout;
pub mod levels;
pub mod model;
pub mod order_map;
pub mod outcomes;
pub mod rebuild;
pub mod snapshot;
pub mod sums;
pub mod view;
