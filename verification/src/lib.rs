//! A single-elimination tournament over named, described items.
//!
//! The library holds the verified core: the item data model, decoding of
//! structured record files, the tournament engine that pairs and eliminates
//! entrants round by round, the pairwise-chooser state machine, and the
//! rectangle arithmetic used when laying out the panels on screen.
pub mod chooser;
pub mod engine;
pub mod item;
pub mod layout;
pub mod store;
