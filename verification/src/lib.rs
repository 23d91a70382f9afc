//! Verified core of a cellular-automaton simulator: Conway's Game of Life
//! extended with cell aging, on a bounded rectangular grid, with a
//! generation-indexed history for time navigation and a plain-text grid
//! format for import and export.

pub mod space;
