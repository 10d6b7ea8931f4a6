//! Maze generators and the builder that replays their recorded steps.
pub mod builders;
pub mod trace;
pub mod walls;
pub mod generator;
pub mod aldous_broder;
pub mod recursive_division;
pub mod paths;
