//! The player-facing client: game tables, progression state and the views
//! rendered from it.

pub mod data;
pub mod protocol;
pub mod state;
pub mod tables;
pub mod interface;
pub mod session;
