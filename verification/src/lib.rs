pub mod bits;
pub mod board;
pub mod board_set;
pub mod cover;
pub mod piece;
pub mod placement;
pub mod provenance;
pub mod search;
pub mod shape;
pub mod solution;
pub mod solve;
