//! Robotics foundations: the integer core of grid path planning and tree
//! path extraction, with machine-checked contracts.

pub mod path_planning;
mod seq_util;
