pub mod collect;
pub mod dedup;
pub mod sorted;
pub mod strs;
