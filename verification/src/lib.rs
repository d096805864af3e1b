//! A verified core for a Conway's Game of Life viewer: a sparse,
//! unbounded-lattice simulation engine and a parser for the line-oriented
//! catalog of named starting patterns.

pub mod lexicon;
pub mod life;
