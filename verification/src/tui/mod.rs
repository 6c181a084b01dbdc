pub mod graph;
pub mod explorer;
pub mod display;
pub mod keys;
