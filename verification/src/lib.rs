//! Rectangular grid mazes.
//!
//! A grid of walled cells is carved into a maze by the sidewinder or the
//! binary-tree algorithm, with the random choices drawn from a source that
//! is handed in; a breadth-first distance field then spreads through the
//! maze one step at a time, each step giving a new snapshot.
//!
//! - [`grid_primitives`]: rows, columns, positions and directions.
//! - [`grid_model`]: what a grid is, mathematically: its cells, passages,
//!   walks and round trips.
//! - [`immutable_grid`]: a grid in a persistent map; every update gives a
//!   new grid.
//! - [`mutable_linked_grid`]: a grid in an arena, changed in place.
//! - [`random_source`]: a seeded generator or a script of numbers.
//! - [`sidewinder`], [`binary_tree`]: the two algorithms over the model.
//! - [`sidewinder_shape`], [`sidewinder_tree`], [`binary_tree_shape`],
//!   [`spanning_tree`]: why what they carve is a perfect maze.
//! - [`dijkstra`]: the distance field.

pub mod binary_tree;
pub mod binary_tree_shape;
pub mod dijkstra;
pub mod grid_model;
pub mod grid_primitives;
pub mod immutable_grid;
pub mod mutable_linked_grid;
pub mod random_source;
pub mod sidewinder;
pub mod sidewinder_shape;
pub mod sidewinder_tree;
pub mod spanning_tree;
