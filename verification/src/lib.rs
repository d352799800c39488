pub mod algorithm;
pub mod data_structure;
pub mod graph;
pub mod hash;
pub mod math;
pub mod misc;
pub mod strings;
pub mod utils;
pub mod zeta_mobius_transform;
