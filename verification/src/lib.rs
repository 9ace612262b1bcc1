//! Puzzle solutions built around a verified spatial clustering engine:
//! a union-find structure, an ordered distance frontier, and a k-d tree
//! with nearest-neighbor queries.

pub mod forest;
pub mod day08;
pub mod kd_tree;
pub mod strutil;
pub mod day01;
pub mod day02;
pub mod day03;
pub mod day05;
pub mod day04;
pub mod day06;
pub mod day07;
pub mod day09;
pub mod day10;
pub mod day11;
pub mod day12;
