//! A square mine-clearing puzzle: mine placement, neighbour counting, and a
//! reveal engine with cascading reveal and win/loss detection.
pub mod board;
pub mod game;
pub mod random;
