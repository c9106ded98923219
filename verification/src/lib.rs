//! A game of life whose cells are themselves games of life.

pub mod density;
pub mod grid;
pub mod jeu_de_la_vie;
pub mod laws;
pub mod model;
pub mod random;
pub mod simulation;
