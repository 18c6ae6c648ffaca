//! Trade route planning for EVE Online: the market, map and route logic.
pub mod config;
pub mod errors;
pub mod esi;
pub mod kdtree;
pub mod pathfinder;
pub mod processor;
pub mod text;
pub mod types;
pub mod urls;
