pub mod tables;
pub mod evaluate;
pub mod move_ordering;
pub mod engine;
pub mod minimax;
pub mod best_move;
