pub mod blocks;
pub mod interval;
pub mod problem;
pub mod train;
pub mod occupation;
pub mod solver;
