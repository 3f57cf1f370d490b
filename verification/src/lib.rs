//! Integer geometry, feature bookkeeping and text/index utilities of a
//! visual odometry and structure-from-motion toolkit, with their contracts.

pub mod features;
pub mod io;
pub mod image;
pub mod sfm;
