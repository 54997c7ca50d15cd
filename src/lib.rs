//! Classic artificial-life simulations on a toroidal grid: one-dimensional
//! cellular automata and Conway's Game of Life, with a sequential stepper
//! that exchanges two buffers and a parallel stepper that computes rows
//! independently.

/// Step functions of the discrete automata.
pub mod algorithm;
/// What the rendering loop shares with the simulations.
pub mod visualizer;
