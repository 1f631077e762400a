//! Onboard processing for a swarm drone: the clock reading that stamps each
//! sensor frame, and the integer parts of sensor processing (grouping nearby
//! lidar points into obstacle candidates, reading the colour channels of a
//! camera frame).
pub mod sensors;
pub mod utils;
