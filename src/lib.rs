//! Search for three-by-three letter grids whose lines all spell dictionary
//! words, drawn from the letters of a seed word, and a few smaller word
//! puzzles.

pub mod budget;
pub mod grid;
pub mod solver;
pub mod guess;
pub mod puzzles;
