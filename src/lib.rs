pub mod event_date;
pub mod grid;
pub mod grid_laws;
pub mod parse;
pub mod problem;
pub mod solution;
pub mod solutions;
pub mod sorting;
pub mod testgen;
pub mod text;
pub mod util;
