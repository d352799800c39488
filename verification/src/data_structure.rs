pub mod interval_set;
pub mod segment_tree;
pub mod segtree;
pub mod sequence_model;
pub mod skip_list;
pub mod trie;
