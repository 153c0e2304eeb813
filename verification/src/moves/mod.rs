pub mod geometry;
pub mod king;
pub mod knight;
pub mod pawn;
pub mod ray;
