//! A strong solver for the Royal Game of Ur.
//!
//! The library covers the verified core: the 14-square strip algebra, game
//! states and their successor relation, the 30-bit compact key, the layer
//! key that orders value-iteration layers, the reachable-state enumerator,
//! and the compiler from states to flat Bellman expression streams.
//! Floating-point iteration, persistence and the GPU pipeline live outside
//! the library and consume these verified pieces.

pub mod compact;
pub mod expr;
pub mod game;
pub mod order;
pub mod perma;
pub mod strip;
pub mod successor;
