//! Solvers for a set of grid, graph and number puzzles, built on a small
//! verified geometry core: integer vectors, a bounds-checked character grid,
//! and shortest paths over graphs laid on that grid.

pub mod graph;
pub mod grid;
pub mod lattice;
pub mod text;
pub mod day01;
pub mod day02;
pub mod day03;
pub mod day04;
pub mod day05;
pub mod day06;
pub mod day07;
pub mod day08;
pub mod day09;
pub mod day10;
pub mod day11;
pub mod day12;
pub mod day13;
pub mod day14;
pub mod day15;
pub mod day16;
pub mod day17;
pub mod day18;
pub mod day19;
pub mod day20;
pub mod vector;

pub use grid::{Grid, GridError};
pub use vector::Vector2d;
