use chess::apply_undo_move::{Move, MoveFlags};
use chess::chess::Chess;

#[test]
fn test_evaluate_starting_position() {
    let chess = Chess::new();
    let score = chess.evaluate();
    assert_eq!(score, 0, "Starting position should be evaluated as 0");
}

#[test]
fn test_opening_move() {
    let mut chess = Chess::new();

    let move1 = Move {
        from: 12,
        to: 28,
        flags: MoveFlags::empty(),
    };
    let history1 = chess.apply_move(&move1);
    let score1 = chess.evaluate();
    chess.undo_move(&history1);
    println!("Score for King's pawn opening: {}", score1);

    let move2 = Move {
        from: 1,
        to: 18,
        flags: MoveFlags::empty(),
    };
    let history2 = chess.apply_move(&move2);
    let score2 = chess.evaluate();
    chess.undo_move(&history2);
    println!("Score for Knight opening: {}", score2);
}
