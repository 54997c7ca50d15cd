/// Index arithmetic on a ring, where the last position is next to the first.
pub mod torus;
/// One-dimensional elementary cellular automata.
pub mod cellular_automata;
/// Conway's Game of Life, sequential and row-parallel.
pub mod game_of_life;
