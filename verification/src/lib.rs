//! Discrete cellular automata on toroidal 2D grids: Brian's Brain, Conway's
//! Game of Life and generalized life-like rules, Langton's ant and turmites,
//! and the abelian sandpile, together with a plain-text image serializer.

pub mod brain;
pub mod canvas;
pub mod config;
pub mod counting;
pub mod game_of_life;
pub mod langton;
pub mod lifelike;
mod random;
pub mod sandpile;
pub mod turmite;
