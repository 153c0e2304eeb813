//! A game against the engine as a board view plays it: the user's side, the selected square,
//! a pending promotion, and what a click, a promotion choice or the engine's turn does.
use vstd::prelude::*;
use crate::apply_undo_move::{Move, MoveFlags, Flags, has_flag, position_after, apply_ok};
use crate::bits::popcount;
use crate::checks::in_check;
use crate::chess::{Chess, Position};
use crate::color::Color;
use crate::display::{DebugBitboard, bitboard_squares, is_own_piece, overlay_piece, set_squares};
use crate::engine::engine::Engine;
use crate::engine::minimax::{no_legal_move, lemma_no_legal_same};
use crate::engine::best_move::{no_move_score, timed_search};
use crate::fen::{parse_usize, parses_usize, usize_value};
use crate::history::occurrences;
use crate::opening_book::start_position;
use crate::movegeneration::{legal_move, lemma_pseudo_reversible, lemma_legal_same};
use crate::square::Square;
use crate::utils::count_ones;

verus! {

/// How long the engine thinks by default, in milliseconds.
pub const DEFAULT_ENGINE_THINK_TIME_MS: u64 = 3000u64;

/// `rand::random::<bool>()`: a coin toss; which side comes up is left open.
#[verifier::external_body]
fn random_bool() -> bool {
    rand::random::<bool>()
}

pub struct GameState {
    pub chess: Chess,
    pub game_history: Vec<u64>,
    pub selected: Option<usize>,
    pub pending_promotion: Option<(usize, usize)>,
    pub user_color: Color,
    pub engine: Engine,
    pub engine_think_time_ms: u64,
    pub debug_overlay: Option<DebugBitboard>,
    pub last_move: Option<(usize, usize)>,
}

/// A legal move of the side to move on `b` from `from` to `to`.
pub open spec fn legal_from_to(b: Chess, from: usize, to: usize, m: Move) -> bool {
    legal_move(b, b.active_color, m) && m.from == from && m.to == to
}

/// The text the view shows about the game.
pub open spec fn status_text(no_moves: bool, check: bool, threefold: bool, halfmove: usize, active: Color) -> Seq<char> {
    if no_moves && check {
        if active == Color::White { "Checkmate — Black wins"@ } else { "Checkmate — White wins"@ }
    } else if no_moves {
        "Stalemate — draw"@
    } else if threefold {
        "Draw by threefold repetition"@
    } else if halfmove >= 100 {
        "Draw by fifty-move rule"@
    } else if check {
        if active == Color::White { "White to move — check!"@ } else { "Black to move — check!"@ }
    } else {
        if active == Color::White { "White to move"@ } else { "Black to move"@ }
    }
}

/// The squares of the board as the user sees them, top row first: for White the eighth rank
/// first and files from a, for Black the first rank first and files from h.
pub open spec fn view_order(white: bool) -> Seq<(usize, usize)> {
    Seq::new(
        64,
        |k: int|
            if white {
                ((7 - k / 8) as usize, (k % 8) as usize)
            } else {
                ((k / 8) as usize, (7 - k % 8) as usize)
            },
    )
}

/// White's material less Black's, in pawns (kings not counted).
pub open spec fn material_balance(b: Chess) -> int {
    (popcount(b.white_pawns) - popcount(b.black_pawns)) + 3 * (popcount(b.white_knights) - popcount(
        b.black_knights,
    )) + 3 * (popcount(b.white_bishops) - popcount(b.black_bishops)) + 5 * (popcount(b.white_rooks)
        - popcount(b.black_rooks)) + 9 * (popcount(b.white_queens) - popcount(b.black_queens))
}

impl GameState {
    pub open spec fn wf(&self) -> bool {
        &&& self.chess.wf()
        &&& self.engine.wf()
        &&& self.chess.fullmove_number + 500 < usize::MAX
    }

    /// A new game: the start position in the history, the user's side drawn at random.
    pub fn new() -> (r: Self)
        ensures
            r.wf(),
            r.chess@ == start_position(),
            r.game_history@ == seq![r.chess.hash],
            r.selected is None,
            r.pending_promotion is None,
            r.engine_think_time_ms == DEFAULT_ENGINE_THINK_TIME_MS,
            r.debug_overlay is None,
            r.last_move is None,
    {
        let chess = Chess::new();
        proof {
            assert(chess@.squares =~= start_position().squares);
        }
        let mut game_history: Vec<u64> = Vec::new();
        game_history.push(chess.hash);
        let user_color = if random_bool() { Color::White } else { Color::Black };
        GameState {
            chess,
            game_history,
            selected: None,
            pending_promotion: None,
            user_color,
            engine: Engine::new(),
            engine_think_time_ms: DEFAULT_ENGINE_THINK_TIME_MS,
            debug_overlay: None,
            last_move: None,
        }
    }

    /// The legal moves of the side to move.
    pub fn legal_moves(&self) -> (r: Vec<Move>)
        requires
            self.wf(),
        ensures
            r@.no_duplicates(),
            forall|m: Move| #[trigger] r@.contains(m) <==> legal_move(self.chess, self.chess.active_color, m),
    {
        self.chess.generate_moves(self.chess.active_color)
    }

    /// Records the current position in the game history.
    pub fn push_position(&mut self)
        ensures
            final(self).game_history@ == old(self).game_history@.push(old(self).chess.hash),
            final(self).chess == old(self).chess,
            final(self).engine == old(self).engine,
            final(self).selected == old(self).selected,
            final(self).pending_promotion == old(self).pending_promotion,
            final(self).user_color == old(self).user_color,
            final(self).engine_think_time_ms == old(self).engine_think_time_ms,
            final(self).debug_overlay == old(self).debug_overlay,
            final(self).last_move == old(self).last_move,
    {
        self.game_history.push(self.chess.hash);
    }

    /// The current position has occurred three times or more in the game.
    pub fn is_threefold_repetition(&self) -> (r: bool)
        ensures
            r == (occurrences(self.game_history@, self.chess.hash) >= 3),
    {
        let current = self.chess.hash;
        let mut count: usize = 0;
        let mut i: usize = 0;
        while i < self.game_history.len()
            invariant
                i <= self.game_history@.len(),
                count == occurrences(self.game_history@.subrange(0, i as int), current),
                count <= i,
            decreases self.game_history@.len() - i,
        {
            proof {
                assert(self.game_history@.subrange(0, i + 1).drop_last() =~= self.game_history@.subrange(
                    0,
                    i as int,
                ));
            }
            if self.game_history[i] == current {
                count = count + 1;
            }
            i = i + 1;
        }
        proof {
            assert(self.game_history@.subrange(0, self.game_history@.len() as int) =~= self.game_history@);
        }
        count >= 3
    }

    /// The squares the selected piece can move to (none without a selection).
    pub fn destinations(&self) -> (r: Vec<usize>)
        requires
            self.wf(),
        ensures
            self.selected is None ==> r@.len() == 0,
            self.selected matches Some(from) ==> forall|t: usize| #[trigger] r@.contains(t) <==> exists|m: Move|
                legal_from_to(self.chess, from, t, m),
    {
        match self.selected {
            Some(from) => {
                let moves = self.legal_moves();
                let mut r: Vec<usize> = Vec::new();
                let mut i: usize = 0;
                while i < moves.len()
                    invariant
                        self.selected == Some(from),
                        i <= moves@.len(),
                        forall|m: Move| #[trigger] moves@.contains(m) <==> legal_move(self.chess, self.chess.active_color, m),
                        forall|t: usize| #[trigger] r@.contains(t) <==> exists|j: int|
                            0 <= j < i && moves@[j].from == from && moves@[j].to == t,
                    decreases moves@.len() - i,
                {
                    let m = moves[i];
                    if m.from == from {
                        let ghost before = r@;
                        r.push(m.to);
                        proof {
                            assert forall|t: usize| #[trigger] r@.contains(t) <==> exists|j: int|
                                0 <= j < i + 1 && moves@[j].from == from && moves@[j].to == t by {
                                if r@.contains(t) && t != m.to {
                                    let k = choose|k: int| 0 <= k < r@.len() && r@[k] == t;
                                    assert(before[k] == t);
                                    assert(before.contains(t));
                                }
                                if exists|j: int| 0 <= j < i + 1 && moves@[j].from == from && moves@[j].to == t {
                                    if t == m.to {
                                        assert(r@[before.len() as int] == t);
                                    } else {
                                        let j = choose|j: int| 0 <= j < i + 1 && moves@[j].from == from && moves@[j].to == t;
                                        assert(j < i);
                                        assert(before.contains(t));
                                        let k = choose|k: int| 0 <= k < before.len() && before[k] == t;
                                        assert(r@[k] == t);
                                    }
                                }
                            }
                        }
                    }
                    i = i + 1;
                }
                proof {
                    assert forall|t: usize| #[trigger] r@.contains(t) <==> exists|m: Move|
                        legal_from_to(self.chess, from, t, m) by {
                        if r@.contains(t) {
                            let j = choose|j: int| 0 <= j < moves@.len() && moves@[j].from == from && moves@[j].to == t;
                            assert(moves@.contains(moves@[j]));
                            assert(legal_from_to(self.chess, from, t, moves@[j]));
                        }
                        if exists|m: Move| legal_from_to(self.chess, from, t, m) {
                            let m = choose|m: Move| legal_from_to(self.chess, from, t, m);
                            assert(moves@.contains(m));
                            let j = choose|j: int| 0 <= j < moves@.len() && moves@[j] == m;
                            assert(moves@[j].from == from && moves@[j].to == t);
                        }
                    }
                }
                r
            },
            None => Vec::new(),
        }
    }

    /// What the view says about the game: mate, stalemate, the draws, or whose move it is.
    pub fn status(&self) -> (r: String)
        requires
            self.wf(),
        ensures
            r@ == status_text(
                forall|m: Move| !legal_move(self.chess, self.chess.active_color, m),
                in_check(self.chess.squares@, self.chess.active_color),
                occurrences(self.game_history@, self.chess.hash) >= 3,
                self.chess.halfmove_clock,
                self.chess.active_color,
            ),
    {
        let moves = self.legal_moves();
        let no_moves = moves.len() == 0;
        proof {
            if !no_moves {
                assert(moves@.contains(moves@[0]));
                assert(legal_move(self.chess, self.chess.active_color, moves@[0]));
            } else {
                assert forall|m: Move| !legal_move(self.chess, self.chess.active_color, m) by {
                    if legal_move(self.chess, self.chess.active_color, m) {
                        assert(moves@.contains(m));
                    }
                }
            }
            assert(no_moves == forall|m: Move| !legal_move(self.chess, self.chess.active_color, m));
        }
        let check = self.chess.is_color_in_check(self.chess.active_color);
        let white = self.chess.active_color == Color::White;
        let text: &str = if no_moves && check {
            if white { "Checkmate — Black wins" } else { "Checkmate — White wins" }
        } else if no_moves {
            "Stalemate — draw"
        } else if self.is_threefold_repetition() {
            "Draw by threefold repetition"
        } else if self.chess.halfmove_clock >= 100 {
            "Draw by fifty-move rule"
        } else if check {
            if white { "White to move — check!" } else { "Black to move — check!" }
        } else {
            if white { "White to move" } else { "Black to move" }
        };
        String::from_str(text)
    }

    /// The user's side, as a word.
    pub fn user_color_str(&self) -> (r: &'static str)
        ensures
            r@ == if self.user_color == Color::White { "White"@ } else { "Black"@ },
    {
        match self.user_color {
            Color::White => "White",
            Color::Black => "Black",
        }
    }

    /// The (rank, file) of each square in the order the view draws them.
    pub fn board_squares(&self) -> (r: Vec<(usize, usize)>)
        ensures
            r@ == view_order(self.user_color == Color::White),
    {
        let white = self.user_color == Color::White;
        let mut sqs: Vec<(usize, usize)> = Vec::new();
        let mut k: usize = 0;
        while k < 64
            invariant
                k <= 64,
                white == (self.user_color == Color::White),
                sqs@ == view_order(white).subrange(0, k as int),
            decreases 64 - k,
        {
            if white {
                sqs.push((7 - k / 8, k % 8));
            } else {
                sqs.push((k / 8, 7 - k % 8));
            }
            k = k + 1;
            assert(sqs@ =~= view_order(white).subrange(0, k as int));
        }
        assert(view_order(white).subrange(0, 64) =~= view_order(white));
        sqs
    }

    /// White's material less Black's, in pawns.
    pub fn count_material(&self) -> (r: i32)
        ensures
            r == material_balance(self.chess),
    {
        let c = &self.chess;
        let mut score: i32 = 0;
        score = score + 1 * (count_ones(c.white_pawns) - count_ones(c.black_pawns));
        score = score + 3 * (count_ones(c.white_knights) - count_ones(c.black_knights));
        score = score + 3 * (count_ones(c.white_bishops) - count_ones(c.black_bishops));
        score = score + 5 * (count_ones(c.white_rooks) - count_ones(c.black_rooks));
        score = score + 9 * (count_ones(c.white_queens) - count_ones(c.black_queens));
        score
    }

    /// The squares the debug overlay highlights (none when it is off).
    pub fn debug_overlay_squares(&self) -> (r: Vec<usize>)
        ensures
            r@ == match self.debug_overlay {
                Some(d) => set_squares(self.chess.bitboard_of(overlay_piece(d)), 64),
                None => Seq::empty(),
            },
    {
        match self.debug_overlay {
            Some(bb) => bitboard_squares(bb.bitboard(&self.chess)),
            None => Vec::new(),
        }
    }
}

/// The game can go on for a move without its move number running out.
pub open spec fn has_room(s: GameState) -> bool {
    s.chess.fullmove_number + 501 < usize::MAX
}

/// `s1` is `s0` after playing the legal move `m` from `from` to `to`: the board moves on, the
/// move is shown as the last one, the new position joins the history and nothing is selected.
pub open spec fn played(s0: GameState, s1: GameState, from: usize, to: usize, m: Move) -> bool {
    &&& legal_from_to(s0.chess, from, to, m)
    &&& s1.chess@ == position_after(s0.chess@, m)
    &&& s1.last_move == Some((from, to))
    &&& s1.game_history@ == s0.game_history@.push(s1.chess.hash)
    &&& s1.selected is None
    &&& s1.user_color == s0.user_color
    &&& s1.engine_think_time_ms == s0.engine_think_time_ms
    &&& s1.debug_overlay == s0.debug_overlay
}

/// `s1` is `s0` with another selection.
pub open spec fn reselected(s0: GameState, s1: GameState, sel: Option<usize>) -> bool {
    &&& s1.chess == s0.chess
    &&& s1.game_history == s0.game_history
    &&& s1.selected == sel
    &&& s1.pending_promotion == s0.pending_promotion
    &&& s1.user_color == s0.user_color
    &&& s1.engine_think_time_ms == s0.engine_think_time_ms
    &&& s1.debug_overlay == s0.debug_overlay
    &&& s1.last_move == s0.last_move
}

/// What a click on square `idx` does: nothing while the engine is to move or a promotion is
/// pending; with a piece selected, play the move to `idx` (or, for a promotion, ask which piece),
/// select another own piece, or clear the selection; without one, select an own piece.
pub open spec fn clicked(s0: GameState, s1: GameState, idx: usize) -> bool {
    let b = s0.chess;
    let own = b.squares@[idx as int].spec_color() == Some(b.active_color);
    if b.active_color != s0.user_color || s0.pending_promotion is Some || !has_room(s0) {
        s1 == s0
    } else {
        match s0.selected {
            Some(from) => if exists|m: Move| legal_from_to(b, from, idx, m) {
                if exists|m: Move| legal_from_to(b, from, idx, m) && has_flag(m.flags, MoveFlags::PROMOTION_QUEEN) {
                    &&& s1.chess == s0.chess
                    &&& s1.game_history == s0.game_history
                    &&& s1.selected == s0.selected
                    &&& s1.pending_promotion == Some((from, idx))
                    &&& s1.user_color == s0.user_color
                    &&& s1.engine_think_time_ms == s0.engine_think_time_ms
                    &&& s1.debug_overlay == s0.debug_overlay
                    &&& s1.last_move == s0.last_move
                } else {
                    &&& exists|m: Move| played(s0, s1, from, idx, m)
                    &&& s1.pending_promotion == s0.pending_promotion
                }
            } else if idx != from && own {
                reselected(s0, s1, Some(idx))
            } else {
                reselected(s0, s1, None)
            },
            None => if own { reselected(s0, s1, Some(idx)) } else { s1 == s0 },
        }
    }
}

impl GameState {
    /// Plays legal move `m` of the side to move and records it.
    fn play(&mut self, m: &Move)
        requires
            old(self).wf(),
            has_room(*old(self)),
            legal_move(old(self).chess, old(self).chess.active_color, *m),
        ensures
            final(self).wf(),
            played(*old(self), *final(self), m.from, m.to, *m),
            final(self).pending_promotion == old(self).pending_promotion,
            final(self).engine == old(self).engine,
    {
        proof {
            lemma_pseudo_reversible(self.chess, self.chess.active_color, *m);
        }
        self.chess.apply_move(m);
        self.last_move = Some((m.from, m.to));
        self.push_position();
        self.selected = None;
    }

    /// Handles a click on square `idx` of the board.
    pub fn click_square(&mut self, idx: usize)
        requires
            old(self).wf(),
            idx < 64,
        ensures
            final(self).wf(),
            clicked(*old(self), *final(self), idx),
    {
        if self.chess.active_color != self.user_color || self.pending_promotion.is_some()
            || self.chess.fullmove_number >= usize::MAX - 501 {
            return;
        }
        let own = is_own_piece(self.chess.squares[idx], self.chess.active_color);
        match self.selected {
            Some(from) => {
                let moves = self.legal_moves();
                let mut first: Option<Move> = None;
                let mut promotion = false;
                let mut i: usize = 0;
                while i < moves.len()
                    invariant
                        i <= moves@.len(),
                        forall|m: Move| #[trigger] moves@.contains(m) <==> legal_move(self.chess, self.chess.active_color, m),
                        first matches Some(f) ==> legal_from_to(self.chess, from, idx, f),
                        first is None ==> forall|j: int| 0 <= j < i ==> !(moves@[j].from == from && moves@[j].to == idx),
                        promotion ==> exists|m: Move| legal_from_to(self.chess, from, idx, m) && has_flag(
                            m.flags,
                            MoveFlags::PROMOTION_QUEEN,
                        ),
                        !promotion ==> forall|j: int| 0 <= j < i && moves@[j].from == from && moves@[j].to == idx
                            ==> !has_flag(moves@[j].flags, MoveFlags::PROMOTION_QUEEN),
                    decreases moves@.len() - i,
                {
                    let m = moves[i];
                    proof {
                        assert(moves@.contains(m));
                    }
                    if m.from == from && m.to == idx {
                        if first.is_none() {
                            first = Some(m);
                        }
                        if m.flags.contains(MoveFlags::PROMOTION_QUEEN) {
                            assert(legal_from_to(self.chess, from, idx, m) && has_flag(m.flags, MoveFlags::PROMOTION_QUEEN));
                            promotion = true;
                        }
                    }
                    i = i + 1;
                }
                proof {
                    if exists|m: Move| legal_from_to(self.chess, from, idx, m) {
                        let m = choose|m: Move| legal_from_to(self.chess, from, idx, m);
                        assert(moves@.contains(m));
                        let j = choose|j: int| 0 <= j < moves@.len() && moves@[j] == m;
                        assert(first is Some);
                        if !promotion {
                            assert forall|m2: Move| legal_from_to(self.chess, from, idx, m2) implies !has_flag(
                                m2.flags,
                                MoveFlags::PROMOTION_QUEEN,
                            ) by {
                                assert(moves@.contains(m2));
                                let j2 = choose|j2: int| 0 <= j2 < moves@.len() && moves@[j2] == m2;
                            }
                        }
                    }
                }
                match first {
                    Some(m) => {
                        if promotion {
                            self.pending_promotion = Some((from, idx));
                        } else {
                            self.play(&m);
                        }
                    },
                    None => {
                        if idx != from && own {
                            self.selected = Some(idx);
                        } else {
                            self.selected = None;
                        }
                    },
                }
            },
            None => {
                if own {
                    self.selected = Some(idx);
                }
            },
        }
    }

    /// Plays the pending promotion with the piece `flag` names, if it is a legal move.
    pub fn promote(&mut self, flag: u8)
        requires
            old(self).wf(),
        ensures
            final(self).wf(),
            match old(self).pending_promotion {
                Some((from, to)) => if has_room(*old(self)) && exists|m: Move| legal_from_to(old(self).chess, from, to, m)
                    && has_flag(m.flags, flag) {
                    &&& exists|m: Move| #[trigger] has_flag(m.flags, flag) && played(*old(self), *final(self), from, to, m)
                    &&& final(self).pending_promotion is None
                } else {
                    *final(self) == *old(self)
                },
                None => *final(self) == *old(self),
            },
    {
        if let Some((from, to)) = self.pending_promotion {
            if self.chess.fullmove_number >= usize::MAX - 501 {
                return;
            }
            let moves = self.legal_moves();
            let mut i: usize = 0;
            while i < moves.len()
                invariant
                    self.wf(),
                    *self == *old(self),
                    self.pending_promotion == Some((from, to)),
                    has_room(*self),
                    i <= moves@.len(),
                    forall|m: Move| #[trigger] moves@.contains(m) <==> legal_move(self.chess, self.chess.active_color, m),
                    forall|j: int| 0 <= j < i ==> !(moves@[j].from == from && moves@[j].to == to && has_flag(
                        moves@[j].flags,
                        flag,
                    )),
                decreases moves@.len() - i,
            {
                let m = moves[i];
                proof {
                    assert(moves@.contains(m));
                }
                if m.from == from && m.to == to && m.flags.contains(flag) {
                    self.play(&m);
                    self.pending_promotion = None;
                    assert(has_flag(m.flags, flag) && played(*old(self), *self, from, to, m));
                    return;
                }
                i = i + 1;
            }
            proof {
                if exists|m: Move| legal_from_to(self.chess, from, to, m) && has_flag(m.flags, flag) {
                    let m = choose|m: Move| legal_from_to(self.chess, from, to, m) && has_flag(m.flags, flag);
                    assert(moves@.contains(m));
                    let j = choose|j: int| 0 <= j < moves@.len() && moves@[j] == m;
                }
            }
        }
    }

    /// Sets the engine's think time from the text of an input field, when it reads as a number.
    pub fn set_think_time_text(&mut self, text: &str)
        ensures
            final(self).engine_think_time_ms == if parses_usize(text@) {
                usize_value(text@) as u64
            } else {
                old(self).engine_think_time_ms
            },
            final(self).chess == old(self).chess,
            final(self).game_history == old(self).game_history,
            final(self).selected == old(self).selected,
            final(self).pending_promotion == old(self).pending_promotion,
            final(self).engine == old(self).engine,
            final(self).user_color == old(self).user_color,
            final(self).debug_overlay == old(self).debug_overlay,
            final(self).last_move == old(self).last_move,
    {
        match parse_usize(text) {
            Some(value) => {
                self.engine_think_time_ms = value as u64;
            },
            None => {},
        }
    }

    /// Drops the pending promotion.
    pub fn cancel_promotion(&mut self)
        ensures
            final(self).pending_promotion is None,
            final(self).chess == old(self).chess,
            final(self).game_history == old(self).game_history,
            final(self).selected == old(self).selected,
            final(self).engine == old(self).engine,
            final(self).user_color == old(self).user_color,
            final(self).engine_think_time_ms == old(self).engine_think_time_ms,
            final(self).debug_overlay == old(self).debug_overlay,
            final(self).last_move == old(self).last_move,
    {
        self.pending_promotion = None;
    }

    /// Shows the overlay of `bb`, or hides it when it is the one shown.
    pub fn toggle_debug_overlay(&mut self, bb: DebugBitboard)
        ensures
            final(self).debug_overlay == if old(self).debug_overlay == Some(bb) { None } else { Some(bb) },
            final(self).chess == old(self).chess,
            final(self).game_history == old(self).game_history,
            final(self).selected == old(self).selected,
            final(self).pending_promotion == old(self).pending_promotion,
            final(self).engine == old(self).engine,
            final(self).user_color == old(self).user_color,
            final(self).engine_think_time_ms == old(self).engine_think_time_ms,
            final(self).last_move == old(self).last_move,
    {
        self.debug_overlay = if self.debug_overlay == Some(bb) { None } else { Some(bb) };
    }

    /// When the engine is to move, lets it think for its time and plays what it finds: a move
    /// is played when the search (not cut short by the deadline) scored one above the bottom of
    /// its window, and none when there is no legal move or none scored so.
    pub fn engine_reply(&mut self)
        requires
            old(self).wf(),
        ensures
            final(self).wf(),
            final(self).user_color == old(self).user_color,
            old(self).chess.active_color == old(self).user_color || !has_room(*old(self)) ==> final(self).chess@
                == old(self).chess@ && final(self).game_history == old(self).game_history,
            final(self).chess@ == old(self).chess@ || exists|m: Move| played(
                *old(self),
                *final(self),
                m.from,
                m.to,
                m,
            ),
            old(self).chess.active_color != old(self).user_color && has_room(*old(self))
                ==> final(self).engine.deadline is None,
            old(self).chess.active_color != old(self).user_color && has_room(*old(self)) && (no_legal_move(
                old(self).chess,
            ) || !final(self).engine.time_up && final(self).engine.best_score == no_move_score(
                old(self).chess.active_color,
            )) ==> final(self).chess@ == old(self).chess@ && final(self).game_history == old(self).game_history,
            old(self).chess.active_color != old(self).user_color && has_room(*old(self)) && !no_legal_move(
                old(self).chess,
            ) && !final(self).engine.time_up && final(self).engine.best_score != no_move_score(
                old(self).chess.active_color,
            ) ==> exists|m: Move| played(*old(self), *final(self), m.from, m.to, m),
            old(self).chess.active_color != old(self).user_color && has_room(*old(self)) && !no_legal_move(
                old(self).chess,
            ) && !final(self).engine.time_up ==> exists|found: Option<Move>|
                #[trigger] timed_search(old(self).engine, old(self).chess, found, final(self).engine) && match found {
                    Some(m) => played(*old(self), *final(self), m.from, m.to, m),
                    None => final(self).chess@ == old(self).chess@ && final(self).game_history == old(self).game_history,
                },
    {
        if self.chess.active_color == self.user_color || self.chess.fullmove_number >= usize::MAX - 501 {
            return;
        }
        let ghost before = self.chess;
        let ghost s0 = *self;
        let think_time = self.engine_think_time_ms;
        let found = self.engine.get_best_move_in_time(&mut self.chess, think_time);
        proof {
            lemma_no_legal_same(before, self.chess);
            if !self.engine.time_up && !no_legal_move(before) {
                assert(timed_search(s0.engine, s0.chess, found, self.engine));
            }
        }
        match found {
            Some(m) => {
                proof {
                    lemma_legal_same(before, self.chess, before.active_color, m);
                }
                self.play(&m);
                assert(played(s0, *self, m.from, m.to, m));
            },
            None => {},
        }
    }
}

} // verus!
