use chess::apply_undo_move::{move_to_uci, uci_to_move, Flags, Move, MoveFlags};
use chess::chess::Chess;
use chess::square::Square;

#[test]
fn test_uci_to_move_regular() {
    let board = Chess::new();
    let m = uci_to_move("e2e4", &board).unwrap();
    assert_eq!(m.from, 12);
    assert_eq!(m.to, 28);
    assert_eq!(m.flags, MoveFlags::empty());
}

#[test]
fn test_uci_to_move_en_passant() {
    let board = Chess::from_fen("rnbqkbnr/pppppppp/8/8/3Pp3/8/PPP1PPPP/RNBQKBNR b KQkq d3 0 1");
    let m = uci_to_move("e4d3", &board).unwrap();
    assert_eq!(m.from, 28);
    assert_eq!(m.to, 19);
    assert!(m.flags.contains(MoveFlags::EN_PASSENT));
    assert!(m.flags.contains(MoveFlags::CAPTURE));
}

#[test]
fn test_move_to_uci() {
    let m = Move {
        from: 12,
        to: 28,
        flags: MoveFlags::empty(),
    };
    assert_eq!(move_to_uci(&m), "e2e4");
}

#[test]
fn test_move_to_uci_promotion() {
    let m = Move {
        from: 55,
        to: 63,
        flags: MoveFlags::PROMOTION_QUEEN,
    };
    assert_eq!(move_to_uci(&m), "h7h8q");
}

#[test]
fn test_to_fen_roundtrip() {
    let board = Chess::new();
    let fen = board.to_fen();
    let board2 = Chess::from_fen(&fen);
    assert_eq!(board, board2);
}

#[test]
fn test_to_fen_kiwipete() {
    let fen = "r3k2r/p1ppqpb1/bn2pnp1/3PN3/1p2P3/2N2Q1p/PPPBBPPP/R3K2R w KQkq - 0 1";
    let board = Chess::from_fen(fen);
    assert_eq!(board.to_fen(), fen);
}

#[test]
fn test_apply_undo_move() {
    let mut chess = Chess::new();

    let m = Move {
        from: 12,
        to: 28,
        flags: MoveFlags::empty(),
    };

    let history = chess.apply_move(&m);
    assert_eq!(chess.squares[12], Square::Empty);
    assert_eq!(chess.squares[28], Square::WhitePawn);

    chess.undo_move(&history);
    assert_eq!(chess.squares[12], Square::WhitePawn);
    assert_eq!(chess.squares[28], Square::Empty);
}

#[test]
fn test_undo_castle() {
    let mut chess_1 = Chess::from_fen("r3k2r/8/8/8/8/8/8/R3K2R w KQkq - 0 1");
    let chess_2 = Chess::from_fen("r3k2r/8/8/8/8/8/8/R3K2R w KQkq - 0 1");

    let m = Move {
        from: 4,
        to: 6,
        flags: MoveFlags::CASTLE_KINGSIDE,
    };

    let history = chess_1.apply_move(&m);
    chess_1.undo_move(&history);

    assert_eq!(chess_1, chess_2);
}

#[test]
fn test_undo_en_passent() {
    let mut chess_1 =
        Chess::from_fen("rnbqkbnr/pppppppp/8/8/3Pp3/8/PPP1PPPP/RNBQKBNR b KQkq d3 0 1");
    let chess_2 =
        Chess::from_fen("rnbqkbnr/pppppppp/8/8/3Pp3/8/PPP1PPPP/RNBQKBNR b KQkq d3 0 1");

    let m = Move {
        from: 28,
        to: 19,
        flags: MoveFlags::EN_PASSENT | MoveFlags::CAPTURE,
    };

    let history = chess_1.apply_move(&m);
    chess_1.undo_move(&history);

    assert_eq!(chess_1, chess_2);
}

#[test]
fn test_undo_promotion() {
    let mut chess_1 = Chess::from_fen("rnbqkbn1/pppppppP/8/8/8/8/PPPPPPPP/RNBQKBNR w KQq - 0 1");
    let chess_2 = Chess::from_fen("rnbqkbn1/pppppppP/8/8/8/8/PPPPPPPP/RNBQKBNR w KQq - 0 1");

    let m = Move {
        from: 55,
        to: 63,
        flags: MoveFlags::PROMOTION_QUEEN,
    };

    let history = chess_1.apply_move(&m);
    chess_1.undo_move(&history);

    assert_eq!(chess_1, chess_2);
}
