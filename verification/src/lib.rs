pub mod bits;
pub mod sums;
pub mod castling_rights;
pub mod color;
pub mod square;
pub mod text;
pub mod utils;
pub mod moves;
pub mod chess;
pub mod history;
pub mod zobrist_hash;
pub mod apply_undo_move;
pub mod uci;
pub mod uci_engine;
pub mod uci_roundtrip;
pub mod checks;
pub mod movelist;
pub mod movegeneration;
pub mod perft;
pub mod fen;
pub mod fen_roundtrip;
pub mod opening_book;
pub mod display;
pub mod piece;
pub mod game;
pub mod server;
pub mod engine;
