pub mod lazy_segment_tree;
pub mod monoids;
