//! Verified core of an Arkham Horror card-game client for a multiworld
//! randomizer: card codes, the data-file format, logic rules, item and
//! location ids, the player's progression state and the text it renders.

pub mod text;
pub mod cardcode;
pub mod collections;
pub mod generate;
pub mod client;
