pub mod arith;
pub mod ddd;
pub mod debug;
pub mod heuristic;
pub mod precedence;
pub mod problem;
pub mod cli;
pub mod greedy;
pub mod legacy;
pub mod solvers;
pub mod stats;
pub mod export_lp;
pub mod export_opl;
pub mod text;
pub mod maxsatsolver;
pub mod parser;
pub mod xml;
