//! Verified core of the SpotSearch launcher: desktop-entry parsing, fuzzy
//! ranking of indexed files, application matching and the small decisions
//! around them.

pub mod text;
pub mod fuzzy;
pub mod update;
pub mod desktop;
pub mod order;
pub mod search;
pub mod index;
pub mod paths;
pub mod config;
pub mod launcher;
