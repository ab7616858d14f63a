//! Solvers for a set of daily puzzles: each reads a small text format and computes
//! two answers from it. The largest is the search for the most pressure that the
//! valves of a cave can release (`day16`, over `valve` and `graph`).

pub mod day01;
pub mod day02;
pub mod day03;
pub mod day04;
pub mod day05;
pub mod day06;
pub mod day07;
pub mod day08;
pub mod day09;
pub mod day10;
pub mod day11;
pub mod day12;
pub mod day13;
pub mod day14;
pub mod day15;
pub mod day16;
pub mod graph;
pub mod text;
pub mod valve;
