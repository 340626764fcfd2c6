pub mod definitions;
pub mod eval;
pub mod move_gen;
pub mod ordering;
pub mod search;
pub mod zobrist;
