pub mod astar;
pub mod rrt;
