pub mod coord;
pub mod coord_map;
pub mod grid;
pub mod frontier;
pub mod search;
pub mod admissible;
pub mod extract;
pub mod navigator;
pub mod agent;
