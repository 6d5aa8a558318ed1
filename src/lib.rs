//! The simulation engine of an alchemy-themed falling-pair puzzle: the element
//! catalog, the tile board with its controlled and preview pairs, gravity, the
//! reaction resolver and the game state machine.

pub mod column;
pub mod element;
pub mod element_array;
pub mod grid;
pub mod reaction;
pub mod vertex;
