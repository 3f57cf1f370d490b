pub mod epipolar;
pub mod orb_feature;
