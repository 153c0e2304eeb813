use chess::apply_undo_move::uci_to_move;
use chess::chess::Chess;
use chess::opening_book::{get_book_move, OpeningBook};

#[test]
fn test_book_initializes() {
    let book = OpeningBook::build();
    assert!(!book.entries.is_empty(), "Book should have entries");
}

#[test]
fn test_book_contains_start_position() {
    let board = Chess::new();
    let book = OpeningBook::build();
    let moves = book.lookup(board.hash);
    assert!(moves.is_some(), "Book should have moves from start position");
}

#[test]
fn test_book_lookup() {
    let mut board = Chess::new();
    let m = uci_to_move("e2e4", &board).unwrap();
    board.apply_move(&m);
    let book = OpeningBook::build();
    let moves = book.lookup(board.hash);
    assert!(moves.is_some(), "Book should have moves after 1.e4");
}

#[test]
fn test_get_book_move_after_e4() {
    let mut board = Chess::new();
    board.apply_move(&uci_to_move("e2e4", &board).unwrap());
    let m = get_book_move(board.hash);
    assert!(m.is_some(), "Should find book move after 1.e4");
}

#[test]
fn test_get_book_move_random() {
    let board = Chess::new();
    let m1 = get_book_move(board.hash);
    let m2 = get_book_move(board.hash);
    assert!(m1.is_some(), "Should get a move from start");
    assert!(m2.is_some(), "Should get a move from start");
}
