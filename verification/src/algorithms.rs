//! Room and cave layout algorithms.

pub mod simple_rooms;
pub mod dla;
pub mod maze;
pub mod bsp;
pub mod cellular;
pub mod drunkard;
pub mod percolation;
pub mod wfc;
