use vstd::prelude::*;

pub mod geometry;

verus! {

/// A detected image feature: its pixel location and the pyramid level it was found on.
pub trait Feature {
    fn get_x_image(&self) -> usize;

    fn get_y_image(&self) -> usize;

    fn get_closest_sigma_level(&self) -> usize;
}

/// A correspondence between a feature of one image and a feature of another.
#[derive(Debug, Clone)]
pub struct Match<T> {
    pub feature_one: T,
    pub feature_two: T,
}

} // verus!
