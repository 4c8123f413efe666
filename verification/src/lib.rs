//! Verified logic of the Monster Town game: the gym mazes, their cells and
//! the rules that place things in them.

pub mod area;
pub mod carving;
pub mod cell;
pub mod chance;
pub mod gym;
pub mod index;
pub mod linking;
pub mod maze;
pub mod passage;
pub mod row;
pub mod rules;
pub mod soundness;
