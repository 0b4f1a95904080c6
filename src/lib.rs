//! A placement engine for a territory-capture game on a grid: the field
//! model, piece shapes, a breadth-first distance search, and the choice of
//! the best legal placement, with the parsing of the game's text protocol.

pub mod anfield;
pub mod bimap;
pub mod cell;
pub mod errors;
pub mod game;
pub mod parse;
pub mod piece;
pub mod strategy;
pub mod symbols;
pub mod visualizer;
