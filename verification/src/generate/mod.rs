//! Building the game's tables from the card list and the data files.

pub mod counter;
pub mod logic;
pub mod card;
pub mod data;
pub mod ids;
pub mod locations;
pub mod name_hash;
pub mod package;
pub mod group;
pub mod source;
pub mod data_py;
pub mod pipeline;
