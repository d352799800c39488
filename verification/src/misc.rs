pub mod modint;
pub mod rand;
