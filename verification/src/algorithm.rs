pub mod aho_corasick;
pub mod binary_search;
pub mod cut;
pub mod max_flow;
