use chess::apply_undo_move::{move_to_uci, uci_to_move, Move, MoveFlags};
use chess::castling_rights::CastlingRights;
use chess::chess::Chess;
use chess::color::Color;
use chess::display::{bitboard_squares, is_own_piece, piece_svg, DebugBitboard};
use chess::fen::parse_fen;
use chess::opening_book::{is_uci_readable, pick_weighted, total_weight, BookMove, OpeningBook};
use chess::piece::{Piece, PieceType};
use chess::square::Square;
use chess::uci_engine::{go_limits, movetime_for, position_args, split_whitespace, word_is, Reply, UciState};
use chess::engine::engine::{Bound, Engine, TranspositionTable};
use chess::server::{ends_with, mime_type, requested_file};
use chess::utils::{bit_to_pos, bitboard_to_string, index_to_pos};
use chess::movelist::MoveList;
use chess::engine::move_ordering::order_moves;

fn words(s: &str) -> Vec<String> {
    split_whitespace(s)
}

#[test]
fn split_whitespace_drops_blanks() {
    let w = words("  position  startpos\tmoves e2e4 \n");
    assert_eq!(w, vec!["position", "startpos", "moves", "e2e4"]);
    assert!(words(" \t ").is_empty());
}

#[test]
fn word_is_compares_whole_words() {
    let w = String::from("moves");
    assert!(word_is(&w, "moves"));
    assert!(!word_is(&w, "move"));
    assert!(!word_is(&w, "movesx"));
}

#[test]
fn position_args_startpos_and_fen() {
    let (fen, moves) = position_args(&words("position startpos moves e2e4 e7e5"));
    assert_eq!(fen, None);
    assert_eq!(moves, vec!["e2e4", "e7e5"]);

    let (fen, moves) = position_args(&words("position fen 8/8/8/8/8/8/8/K6k w - - 0 1 moves a1a2"));
    assert_eq!(fen, Some("8/8/8/8/8/8/8/K6k w - - 0 1".to_string()));
    assert_eq!(moves, vec!["a1a2"]);

    let (fen, moves) = position_args(&words("position fen moves a1a2"));
    assert_eq!(fen, None);
    assert_eq!(moves, vec!["a1a2"]);
}

#[test]
fn go_limits_reads_depth_time_and_clocks() {
    assert_eq!(go_limits(&words("go"), true), Some((10, None)));
    assert_eq!(go_limits(&words("go depth 3"), true), Some((3, None)));
    assert_eq!(go_limits(&words("go depth x"), true), Some((10, None)));
    assert_eq!(go_limits(&words("go depth 300"), true), Some((10, None)));
    assert_eq!(go_limits(&words("go movetime 250"), true), Some((10, Some(250))));
    assert_eq!(go_limits(&words("go infinite"), false), Some((10, Some(3_600_000))));
    assert_eq!(
        go_limits(&words("go wtime 40000 btime 80000 winc 10 binc 20"), true),
        Some((10, Some(1010)))
    );
    assert_eq!(
        go_limits(&words("go wtime 40000 btime 80000 winc 10 binc 20"), false),
        Some((10, Some(2020)))
    );
    assert_eq!(go_limits(&words("go depth"), true), None);
    assert_eq!(go_limits(&words("go movetime"), true), None);
}

#[test]
fn movetime_is_a_fortieth_plus_increment_at_least_100() {
    assert_eq!(movetime_for(40_000, 0), 1000);
    assert_eq!(movetime_for(400, 5), 100);
    assert_eq!(movetime_for(8000, 300), 500);
    assert_eq!(movetime_for(u64::MAX, u64::MAX), u64::MAX);
}

#[test]
fn uci_state_answers_commands() {
    let mut state = UciState::new();
    match state.handle(&words("uci")) {
        Reply::Lines(ls) => assert_eq!(ls, vec!["id name v0.5.0", "id author KoenStevens", "uciok"]),
        _ => panic!("expected lines"),
    }
    match state.handle(&words("isready")) {
        Reply::Lines(ls) => assert_eq!(ls, vec!["readyok"]),
        _ => panic!("expected lines"),
    }
    match state.handle(&words("position startpos moves e2e4 e7e5")) {
        Reply::Lines(ls) => assert!(ls.is_empty()),
        _ => panic!("expected lines"),
    }
    assert_eq!(
        state.board.to_fen(),
        "rnbqkbnr/pppp1ppp/8/4p3/4P3/8/PPPP1PPP/RNBQKBNR w KQkq e6 0 2"
    );
    assert!(matches!(state.handle(&words("position fen nonsense")), Reply::BadFen));
    assert!(matches!(state.handle(&words("position startpos moves zz99")), Reply::BadMove));
    assert!(matches!(state.handle(&words("go depth")), Reply::BadGo));
    assert!(matches!(state.handle(&words("quit")), Reply::Quit));
}

#[test]
fn uci_state_finds_mate_in_one() {
    let mut state = UciState::new();
    state.handle(&words("position fen 6k1/5ppp/8/8/8/8/8/R5K1 w - - 0 1"));
    match state.handle(&words("go depth 2")) {
        Reply::Lines(ls) => assert_eq!(ls, vec!["bestmove a1a8"]),
        _ => panic!("expected lines"),
    }
}

#[test]
fn uci_round_trip_of_generated_moves() {
    for fen in [
        "rnbqkbnr/pppppppp/8/8/8/8/PPPPPPPP/RNBQKBNR w KQkq - 0 1",
        "r3k2r/p1ppqpb1/bn2pnp1/3PN3/1p2P3/2N2Q1p/PPPBBPPP/R3K2R w KQkq - 0 1",
        "rnbqkbnr/pppppppp/8/8/3Pp3/8/PPP1PPPP/RNBQKBNR b KQkq d3 0 1",
        "r3k2r/Pppp1ppp/1b3nbN/nP6/BBP1P3/q4N2/Pp1P2PP/R2Q1RK1 w kq - 0 1",
    ] {
        let board = Chess::from_fen(fen);
        for m in board.generate_moves(board.active_color) {
            let text = move_to_uci(&m);
            assert!(is_uci_readable(&text));
            assert_eq!(uci_to_move(&text, &board), Some(m), "{}", text);
        }
    }
}

#[test]
fn uci_to_move_castling_promotion_and_short_text() {
    let board = Chess::from_fen("r3k2r/8/8/8/8/8/8/R3K2R w KQkq - 0 1");
    assert_eq!(uci_to_move("e1g1", &board).unwrap().flags, MoveFlags::CASTLE_KINGSIDE);
    assert_eq!(uci_to_move("e1c1", &board).unwrap().flags, MoveFlags::CASTLE_QUEENSIDE);
    assert_eq!(uci_to_move("e1", &board), None);
    assert_eq!(uci_to_move("e3e4", &board), None);
    let board = Chess::from_fen("r3k3/1P6/8/8/8/8/8/4K3 w - - 0 1");
    let m = uci_to_move("b7a8n", &board).unwrap();
    assert_eq!(m.flags, MoveFlags::PROMOTION_KNIGHT | MoveFlags::CAPTURE);
    assert_eq!(move_to_uci(&m), "b7a8n");
}

#[test]
fn is_playable_refuses_empty_start_square_and_own_piece() {
    let board = Chess::new();
    assert!(board.is_playable(&Move { from: 12, to: 28, flags: 0 }));
    assert!(!board.is_playable(&Move { from: 20, to: 28, flags: 0 }));
    assert!(!board.is_playable(&Move { from: 0, to: 8, flags: 0 }));
    assert!(!board.is_playable(&Move { from: 64, to: 8, flags: 0 }));
}

#[test]
fn fen_round_trip_keeps_board() {
    for fen in [
        "r3k2r/p1ppqpb1/bn2pnp1/3PN3/1p2P3/2N2Q1p/PPPBBPPP/R3K2R w KQkq - 0 1",
        "rnbqkbnr/pppppppp/8/8/3Pp3/8/PPP1PPPP/RNBQKBNR b KQkq d3 0 1",
        "8/2p5/3p4/KP5r/1R3p1k/8/4P1P1/8 w - - 12 40",
    ] {
        let board = Chess::from_fen(fen);
        let text = board.to_fen();
        assert_eq!(text, fen);
        let again = parse_fen(&text).unwrap();
        assert_eq!(again, board);
    }
}

#[test]
fn book_from_lines_merges_and_sorts() {
    let lines = vec![vec!["e2e4", "e7e5"], vec!["e2e4", "c7c5"], vec!["d2d4", "zz", "d7d5"]];
    let book = OpeningBook::build_from(&lines);
    for w in book.entries.windows(2) {
        assert!(w[0].0 < w[1].0);
    }
    let start = Chess::new();
    let moves = book.lookup(start.hash).unwrap();
    assert_eq!(moves.len(), 2);
    let e4 = moves.iter().find(|b| b.mov.from == 12 && b.mov.to == 28).unwrap();
    assert_eq!(e4.weight, 20);
    let d4 = moves.iter().find(|b| b.mov.from == 11 && b.mov.to == 27).unwrap();
    assert_eq!(d4.weight, 10);
    assert_eq!(book.entries.len(), 2);
    assert!(book.lookup(12345).is_none());
}

#[test]
fn weights_pick_moves_in_order() {
    let a = BookMove { mov: Move { from: 12, to: 28, flags: 0 }, weight: 10 };
    let b = BookMove { mov: Move { from: 11, to: 27, flags: 0 }, weight: 30 };
    let ms = [a, b];
    assert_eq!(total_weight(&ms), 40);
    assert_eq!(pick_weighted(&ms, 0), Some(a.mov));
    assert_eq!(pick_weighted(&ms, 9), Some(a.mov));
    assert_eq!(pick_weighted(&ms, 10), Some(b.mov));
    assert_eq!(pick_weighted(&ms, 39), Some(b.mov));
    assert_eq!(pick_weighted(&ms, 40), None);
    assert_eq!(total_weight(&[]), 0);
}

#[test]
fn board_text_and_moving_pieces() {
    let mut board = Chess::new();
    assert_eq!(
        board.to_string(),
        "r n b q k b n r \np p p p p p p p \n. . . . . . . . \n. . . . . . . . \n. . . . . . . . \n. . . . . . . . \nP P P P P P P P \nR N B Q K B N R \n"
    );
    board.move_piece(15, 31);
    assert_eq!(board.squares[15], Square::Empty);
    assert_eq!(board.squares[31], Square::WhitePawn);
    assert_eq!(board.white_pawns & (1u64 << 31), 1u64 << 31);
    board.move_piece(31, 55);
    assert_eq!(board.squares[55], Square::WhitePawn);
    assert_eq!(board.black_pawns & (1u64 << 55), 0);
}

#[test]
fn castling_rights_follow_king_and_rook_moves() {
    let mut board = Chess::new();
    board.update_castling_rights(7, Square::WhiteRook);
    assert_eq!(board.castling_rights, CastlingRights::ALL & !CastlingRights::WHITEKINGSIDE);
    board.update_castling_rights(60, Square::BlackKing);
    assert_eq!(board.castling_rights, CastlingRights::WHITEQUEENSIDE);
    board.update_castling_rights(3, Square::WhiteRook);
    assert_eq!(board.castling_rights, CastlingRights::WHITEQUEENSIDE);
}

#[test]
fn square_names_and_bitboard_pictures() {
    assert_eq!(index_to_pos(28), "e4");
    assert_eq!(index_to_pos(63), "h8");
    assert_eq!(index_to_pos(64), "a9");
    assert_eq!(bit_to_pos(1u64 << 28), Ok("e4".to_string()));
    assert_eq!(bit_to_pos(0), Err("No piece present!".to_string()));
    let pic = bitboard_to_string(1u64 << 63 | 1, Some(8));
    assert_eq!(
        pic,
        ".......1\n........\n........\n........\n........\n........\nX.......\n1.......\n"
    );
}

#[test]
fn display_helpers() {
    assert_eq!(DebugBitboard::WhiteKnights.label(), "White Knights");
    let board = Chess::new();
    assert_eq!(DebugBitboard::BlackKing.bitboard(&board), 1u64 << 60);
    assert_eq!(piece_svg(Square::BlackQueen), "pieces/queen-b.svg");
    assert_eq!(piece_svg(Square::Empty), "");
    assert!(is_own_piece(Square::WhitePawn, Color::White));
    assert!(!is_own_piece(Square::WhitePawn, Color::Black));
    assert!(!is_own_piece(Square::Empty, Color::White));
    assert_eq!(bitboard_squares(0b1001), vec![0, 3]);
    assert_eq!(bitboard_squares(1u64 << 63), vec![63]);
}

#[test]
fn pieces_print_their_letter() {
    let p = Piece::new(1 << 4, Color::White, PieceType::King);
    assert_eq!(p.to_string(), "K ");
    assert_eq!(p.position(), 16);
    assert_eq!(p.color(), Color::White);
    assert_eq!(p.piece_type(), PieceType::King);
    assert_eq!(Piece::new(1, Color::Black, PieceType::Knight).to_string(), "n ");
}

#[test]
fn incremental_hash_matches_recomputed_hash() {
    let mut board = Chess::from_fen("r3k2r/p1ppqpb1/bn2pnp1/3PN3/1p2P3/2N2Q1p/PPPBBPPP/R3K2R w KQkq - 0 1");
    assert_eq!(board.hash, board.zobrist_hash());
    for m in board.generate_moves(board.active_color) {
        let before = board.hash;
        let h = board.apply_move(&m);
        assert_eq!(board.hash, board.zobrist_hash());
        board.undo_move(&h);
        assert_eq!(board.hash, before);
    }
}

#[test]
fn perft_counts_paths_two_plies_deep() {
    let mut board = Chess::from_fen("8/2p5/3p4/KP5r/1R3p1k/8/4P1P1/8 w - - 0 1");
    let mut total = 0u64;
    for m in board.generate_moves(board.active_color) {
        let h = board.apply_move(&m);
        total += chess::perft::perft(&mut board, 1);
        board.undo_move(&h);
    }
    assert_eq!(chess::perft::perft(&mut board, 2), total);
    assert_eq!(total, 191);
}

#[test]
fn server_picks_files_and_content_types() {
    assert_eq!(requested_file("/"), "index.html");
    assert_eq!(requested_file(""), "index.html");
    assert_eq!(requested_file("/pieces/king-w.svg"), "pieces/king-w.svg");
    assert_eq!(mime_type("index.html"), "text/html; charset=utf-8");
    assert_eq!(mime_type("style.css"), "text/css; charset=utf-8");
    assert_eq!(mime_type("app.js"), "application/javascript; charset=utf-8");
    assert_eq!(mime_type("app_bg.wasm"), "application/wasm");
    assert_eq!(mime_type("pieces/king-w.svg"), "image/svg+xml");
    assert_eq!(mime_type("README"), "application/octet-stream");
    assert!(ends_with("abc", "bc"));
    assert!(!ends_with("c", "bc"));
}

#[test]
fn transposition_table_gives_back_what_was_stored() {
    let mut tt = TranspositionTable::new();
    assert!(tt.probe(42).is_none());
    tt.insert(42, 3, 17, Bound::Exact, None);
    let e = tt.probe(42).unwrap();
    assert_eq!((e.hash, e.depth, e.score), (42, 3, 17));
    tt.insert(42 + (1 << 20), 5, -4, Bound::Lower, None);
    let e = tt.probe(42 + (1 << 20)).unwrap();
    assert_eq!((e.depth, e.score), (5, -4));
    assert!(tt.probe(42).is_none());
}

#[test]
fn search_scores_mate_and_stalemate() {
    let mut engine = Engine::new();
    let mut mated = Chess::from_fen("R5k1/5ppp/8/8/8/8/8/6K1 b - - 0 1");
    assert_eq!(engine.negamax(&mut mated, 2, 0, -1_000_000_000, 1_000_000_000, false), -100002);
    let mut engine = Engine::new();
    let mut stalemated = Chess::from_fen("7k/5Q2/6K1/8/8/8/8/8 b - - 0 1");
    assert_eq!(engine.negamax(&mut stalemated, 2, 0, -1_000_000_000, 1_000_000_000, false), 0);
    let mut engine = Engine::new();
    let mut board = Chess::new();
    assert_eq!(engine.quiescence(&mut board, -50, 50), 0);
    let mut engine = Engine::new();
    assert_eq!(engine.quiescence(&mut board, -50, -10), -10);
}

#[test]
fn root_search_reports_its_move_and_score() {
    let mut engine = Engine::new();
    assert_eq!(engine.best_score, 0);
    assert!(engine.deadline.is_none());
    assert!(engine.history.iter().all(|row| row.iter().all(|&h| h == 0)));
    assert!(engine.killer_moves.iter().all(|row| row.iter().all(|k| k.is_none())));
    let mut board = Chess::new();
    let m = engine.get_best_move(&mut board, 2);
    assert!(m.is_some());
    assert_ne!(engine.best_score, -1_000_000_000);
    assert_eq!(board, Chess::new());

    let mut engine = Engine::new();
    let mut mated = Chess::from_fen("R5k1/5ppp/8/8/8/8/8/6K1 b - - 0 1");
    assert!(engine.get_best_move(&mut mated, 2).is_none());
    assert_eq!(engine.best_score, 0);
}

#[test]
fn timed_search_clears_its_deadline() {
    let mut engine = Engine::new();
    engine.set_deadline(60_000);
    assert!(engine.deadline.is_some());
    let mut board = Chess::new();
    let m = engine.get_best_move_in_time(&mut board, 200);
    assert!(m.is_some());
    assert!(engine.deadline.is_none());
    assert_eq!(board, Chess::new());
}

#[test]
fn uci_searches_by_depth_and_by_time() {
    let mut state = UciState::new();
    assert_eq!(state.go_depth(0), None);
    let by_depth = state.go_depth(2).unwrap();
    assert!(is_uci_readable(&by_depth));
    let by_time = state.go_movetime(100).unwrap();
    assert!(is_uci_readable(&by_time));
    assert!(state.engine.deadline.is_none());
    let mut mated = UciState::new();
    mated.board = Chess::from_fen("R5k1/5ppp/8/8/8/8/8/6K1 b - - 0 1");
    assert_eq!(mated.go_depth(3), None);
    assert_eq!(mated.go_movetime(50), None);
}

#[test]
fn sorting_moves_by_key_is_stable() {
    let mv = |from: usize| Move { from, to: from + 8, flags: 0 };
    let mut list = MoveList::new();
    for from in 0..4 {
        list.push(mv(from));
    }
    let mut keys = vec![1, 3, 1, 3];
    list.sort_by(&mut keys);
    assert_eq!(list.as_slice(), &[mv(1), mv(3), mv(0), mv(2)]);
    assert_eq!(keys, vec![3, 3, 1, 1]);
}

#[test]
fn move_ordering_keeps_ties_in_place() {
    let board = Chess::new();
    let mut list = MoveList::new();
    let quiet = [Move { from: 12, to: 28, flags: 0 }, Move { from: 6, to: 21, flags: 0 }, Move { from: 11, to: 27, flags: 0 }];
    for m in quiet.iter() {
        list.push(*m);
    }
    let history = [[0i32; 64]; 64];
    order_moves(&mut list, &board, Some(quiet[2]), None, None, &history);
    assert_eq!(list.as_slice(), &[quiet[2], quiet[0], quiet[1]]);
}

#[test]
fn search_finds_mate_in_one_and_winning_capture() {
    let mut engine = Engine::new();
    let mut board = Chess::from_fen("6k1/5ppp/8/8/8/8/8/R5K1 w - - 0 1");
    assert_eq!(engine.negamax(&mut board, 2, 0, -1_000_000_000, 1_000_000_000, false), 100001);
    let mut engine = Engine::new();
    let m = engine.get_best_move(&mut board, 2).unwrap();
    assert_eq!(move_to_uci(&m), "a1a8");
    assert_eq!(engine.best_score, 100001);

    let mut engine = Engine::new();
    let mut board = Chess::from_fen("4k3/8/8/3q4/4P3/8/8/4K3 w - - 0 1");
    let stand_pat = board.evaluate_stm();
    let q = engine.quiescence(&mut board, -1_000_000_000, 1_000_000_000);
    assert!(q > stand_pat + 500);
}
