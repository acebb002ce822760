pub mod analyzer;
pub mod dot;
pub mod flow;
pub mod runner;
