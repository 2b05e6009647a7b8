pub mod communication_msgs;
pub mod data_storage;
pub mod geometry;
pub mod path_planner;
pub mod payload;
