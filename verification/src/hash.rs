pub mod zobrist_hash;
