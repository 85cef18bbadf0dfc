pub mod event;
pub mod generator;
pub mod grader;
pub mod redoku;
pub mod solver;
pub mod utils;
pub mod value;
