//! Solutions to a set of daily programming puzzles, each a module of its own, with their
//! behaviour stated in contracts and proved.
//!
//! The centre of the crate is `day24`: the shortest way across a valley whose blizzards
//! move and wrap around each tick, searched over (cell, tick) states with time slices of
//! the blizzards computed once and kept.
//!
//! `text` holds what the puzzles share for reading their input: lines and numbers.

pub mod text;

pub mod day1;
pub mod day2;
pub mod day3;
pub mod day4;
pub mod day5;
pub mod day06;
pub mod day7;
pub mod day8;
pub mod day9;
pub mod day10;
pub mod day12;
pub mod day14;
pub mod day17;
pub mod day18;
pub mod day20;
pub mod day23;
pub mod day24;
pub mod day25;
