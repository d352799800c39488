pub mod choose_mod;
pub mod euclidean;
