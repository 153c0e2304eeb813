use chess::chess::Chess;
use chess::color::Color;
use chess::display::DebugBitboard;
use chess::game::GameState;
use chess::square::Square;

fn game_as_white() -> GameState {
    let mut g = GameState::new();
    g.user_color = Color::White;
    g
}

#[test]
fn new_game_starts_from_the_start_position() {
    let g = GameState::new();
    assert_eq!(g.chess, Chess::new());
    assert_eq!(g.game_history, vec![g.chess.hash]);
    assert_eq!(g.legal_moves().len(), 20);
    assert_eq!(g.status(), "White to move");
    assert_eq!(g.count_material(), 0);
    assert!(g.destinations().is_empty());
    assert!(!g.is_threefold_repetition());
}

#[test]
fn clicks_select_and_play_a_move() {
    let mut g = game_as_white();
    g.click_square(12);
    assert_eq!(g.selected, Some(12));
    let mut d = g.destinations();
    d.sort();
    assert_eq!(d, vec![20, 28]);
    g.click_square(28);
    assert_eq!(g.selected, None);
    assert_eq!(g.last_move, Some((12, 28)));
    assert_eq!(g.chess.squares[28], Square::WhitePawn);
    assert_eq!(g.game_history.len(), 2);
    assert_eq!(g.status(), "Black to move");
    // The engine's side is to move: clicks do nothing.
    g.click_square(52);
    assert_eq!(g.selected, None);
}

#[test]
fn clicking_elsewhere_changes_or_clears_the_selection() {
    let mut g = game_as_white();
    g.click_square(12);
    g.click_square(11);
    assert_eq!(g.selected, Some(11));
    g.click_square(40);
    assert_eq!(g.selected, None);
    g.click_square(40);
    assert_eq!(g.selected, None);
}

#[test]
fn promotions_wait_for_a_choice() {
    let mut g = game_as_white();
    g.chess = Chess::from_fen("4k3/1P6/8/8/8/8/8/4K3 w - - 0 1");
    g.click_square(49);
    g.click_square(57);
    assert_eq!(g.pending_promotion, Some((49, 57)));
    g.promote(chess::apply_undo_move::MoveFlags::PROMOTION_KNIGHT);
    assert_eq!(g.pending_promotion, None);
    assert_eq!(g.chess.squares[57], Square::WhiteKnight);
    assert_eq!(g.last_move, Some((49, 57)));
}

#[test]
fn status_reports_mate_and_threefold() {
    let mut g = game_as_white();
    g.chess = Chess::from_fen("6k1/5ppp/8/8/8/8/8/R5K1 w - - 0 1");
    g.chess.apply_move(&chess::apply_undo_move::Move { from: 0, to: 56, flags: 0 });
    assert_eq!(g.status(), "Checkmate — White wins");

    let mut g = game_as_white();
    let h = g.chess.hash;
    g.game_history = vec![h, 1, h, 2, h];
    assert!(g.is_threefold_repetition());
    assert_eq!(g.status(), "Draw by threefold repetition");
}

#[test]
fn view_helpers() {
    let mut g = game_as_white();
    let sq = g.board_squares();
    assert_eq!(sq[0], (7, 0));
    assert_eq!(sq[63], (0, 7));
    g.user_color = Color::Black;
    let sq = g.board_squares();
    assert_eq!(sq[0], (0, 7));
    assert_eq!(sq[63], (7, 0));
    assert_eq!(g.user_color_str(), "Black");
    g.toggle_debug_overlay(DebugBitboard::WhiteKing);
    assert_eq!(g.debug_overlay_squares(), vec![4]);
    g.toggle_debug_overlay(DebugBitboard::WhiteKing);
    assert!(g.debug_overlay_squares().is_empty());
    g.set_think_time_text("250");
    assert_eq!(g.engine_think_time_ms, 250);
    g.set_think_time_text("fast");
    assert_eq!(g.engine_think_time_ms, 250);
}

#[test]
fn engine_answers_on_its_turn() {
    let mut g = game_as_white();
    g.engine_think_time_ms = 100;
    g.engine_reply();
    assert_eq!(g.game_history.len(), 1);
    g.click_square(12);
    g.click_square(28);
    g.engine_reply();
    assert_eq!(g.game_history.len(), 3);
    assert_eq!(g.chess.active_color, Color::White);
}

#[test]
fn engine_reply_clears_the_deadline_and_plays() {
    let mut g = game_as_white();
    g.engine_think_time_ms = 100;
    g.click_square(12);
    g.click_square(28);
    g.engine_reply();
    assert!(g.engine.deadline.is_none());
    assert_eq!(g.game_history.len(), 3);
    assert!(g.last_move.is_some());
}
