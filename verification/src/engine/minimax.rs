//! Negamax search with alpha-beta pruning, a transposition table, null-move pruning, late move
//! reductions, killer moves and a quiescence search over captures.
use vstd::prelude::*;
use crate::apply_undo_move::{Move, MoveFlags, Flags, has_flag, lemma_undo_inverts_apply, lemma_capture_reduces, piece_count,
    position_after};
use crate::chess::{Chess, lemma_wf_kept};
use crate::history::{occurrences, last_n};
use crate::checks::{king_of, in_check};
use crate::color::Color;
use crate::engine::engine::{deadline_passed, Engine, Bound, MAX_PLY, VALUE_MIN, VALUE_MAX, negate, predecessor, neg_sat, pred_sat, bucket_of, find_slot,
    replace_slot, TTEntry};
use crate::engine::evaluate::{kings_present, evaluation};
use crate::engine::move_ordering::{order_moves, moves_of_scored, scored_moves};
use crate::movelist::stable_sort_desc;
use crate::movegeneration::{legal_move, mvv_lva, pseudo_move, lemma_pseudo_reversible, lemma_flag_table, flags_for, piece_move,
    pawn_move, ep_move, castle_move};
use crate::movelist::MoveList;
use crate::sums::lemma_count_where_bounds;
use crate::zobrist_hash::{black_to_move_hash, en_passant_hash, get_en_passant_index, black_to_move_key, en_passant_key,
    en_passant_index};

verus! {

/// A capture among the legal moves castles neither way.
proof fn lemma_capture_flags(b: Chess, c: Color, m: Move)
    requires
        legal_move(b, c, m),
        has_flag(m.flags, MoveFlags::CAPTURE),
    ensures
        !has_flag(m.flags, MoveFlags::CASTLE_KINGSIDE),
        !has_flag(m.flags, MoveFlags::CASTLE_QUEENSIDE),
{
    lemma_flag_table();
}

/// `x` plus `y`, saturating at the top of `i32`.
fn add_sat(x: i32, y: i32) -> (r: i32)
    requires
        y >= 0,
    ensures
        r == if x + y > i32::MAX { i32::MAX as int } else { x + y },
{
    if x > i32::MAX - y { i32::MAX } else { x + y }
}

/// The static evaluation for the side to move; a board that lacks a king counts as level.
pub open spec fn stand_pat_score(b: Chess) -> int {
    if b.white_king != 0 && b.black_king != 0 {
        if b.active_color == Color::White { evaluation(b) } else { -evaluation(b) }
    } else {
        0
    }
}

/// The side to move has no legal move.
pub open spec fn no_legal_move(b: Chess) -> bool {
    forall|m: Move| !legal_move(b, b.active_color, m)
}

/// Boards with the same view have a legal move alike.
pub proof fn lemma_no_legal_same(a: Chess, b: Chess)
    requires
        a.wf(),
        b.wf(),
        a@ == b@,
    ensures
        no_legal_move(a) == no_legal_move(b),
{
    if no_legal_move(b) {
        assert forall|mv: Move| !legal_move(a, a.active_color, mv) by {
            crate::movegeneration::lemma_legal_same(a, b, b.active_color, mv);
        }
    } else {
        let w = choose|mv: Move| legal_move(b, b.active_color, mv);
        crate::movegeneration::lemma_legal_same(a, b, b.active_color, w);
    }
}

/// A search of `depth` plies at distance `ply` gets as far as the moves of the board: no draw by
/// the fifty-move rule or by repetition, no table entry deep enough for the position, and
/// neither the last ply nor the horizon reached.
pub open spec fn search_reaches_moves(e: Engine, b: Chess, depth: u8, ply: u8) -> bool {
    let bucket = e.tt.entries()[bucket_of(b.hash)];
    &&& b.halfmove_clock < 100
    &&& occurrences(last_n(b.history@, b.halfmove_clock as nat), b.hash) < 2
    &&& match find_slot(bucket, b.hash) {
        Some(j) => bucket[j].depth < depth,
        None => true,
    }
    &&& ply < 255
    &&& depth >= 1
}

/// A listing of the legal moves of the side to move as move generation gives it: each move
/// once, by falling MVV-LVA (moves with equal keys come in the generator's order).
pub open spec fn move_listing(b: Chess, l: Seq<Move>) -> bool {
    &&& l.no_duplicates()
    &&& forall|m: Move| #[trigger] l.contains(m) <==> legal_move(b, b.active_color, m)
    &&& forall|a: int, c: int| 0 <= a < c < l.len() ==> mvv_lva(b@.squares, l[a]) >= mvv_lva(b@.squares, l[c])
}

/// The moves of `l` in search order: stably sorted by their ordering scores.
pub open spec fn search_order(
    l: Seq<Move>,
    b: Chess,
    tt_move: Option<Move>,
    killer1: Option<(usize, usize)>,
    killer2: Option<(usize, usize)>,
    history: Seq<[i32; 64]>,
) -> Seq<Move> {
    moves_of_scored(stable_sort_desc(scored_moves(l, b@.squares, tt_move, killer1, killer2, history)))
}

/// `r` is what the quiescence search of `b` in the window (`alpha`, `beta`) returns when the
/// time does not run out: the static evaluation for the side to move, or `beta` when that
/// reaches `beta`; otherwise the best of it and of the captures, tried in search order, each
/// scored by the quiescence search of the position after it, stopping once a score reaches
/// `beta`.
pub open spec fn quiescence_value(history: Seq<[i32; 64]>, b: Chess, alpha: i32, beta: i32, r: i32) -> bool
    decreases piece_count(b@.squares), 1int, 0int,
{
    let sp = stand_pat_score(b);
    if sp >= beta {
        r == beta
    } else {
        let lo = if sp > alpha { sp as i32 } else { alpha };
        exists|l: Seq<Move>|
            #[trigger] move_listing(b, l) && quiescence_loop(
                history,
                b,
                search_order(l, b, None, None, None, history),
                0,
                lo,
                beta,
                sp as i32,
                r,
            )
    }
}

/// The capture loop of the quiescence search from the move at `i` on, with the window's lower
/// end `lo` and the best score `best` so far.
pub open spec fn quiescence_loop(
    history: Seq<[i32; 64]>,
    b: Chess,
    ms: Seq<Move>,
    i: int,
    lo: i32,
    beta: i32,
    best: i32,
    r: i32,
) -> bool
    decreases piece_count(b@.squares), 0int, ms.len() - i,
{
    if i < 0 || i >= ms.len() {
        r == best
    } else if !has_flag(ms[i].flags, MoveFlags::CAPTURE) {
        quiescence_loop(history, b, ms, i + 1, lo, beta, best, r)
    } else {
        exists|c: Chess, s: i32|
            #![trigger c.wf(), neg_sat(s)]
            c.wf() && c@ == position_after(b@, ms[i]) && 0 <= piece_count(c@.squares) < piece_count(b@.squares)
                && quiescence_value(history, c, neg_sat(beta), neg_sat(lo), s) && {
                let score = neg_sat(s);
                let best2 = if score > best { score } else { best };
                let lo2 = if score > lo { score } else { lo };
                if lo2 >= beta {
                    r == best2
                } else {
                    quiescence_loop(history, b, ms, i + 1, lo2, beta, best2, r)
                }
            }
    }
}

/// What a search reads and leaves behind in the engine: the transposition table, its
/// generation, the killer moves and the history heuristic.
pub struct SearchTables {
    pub tt: Seq<Seq<TTEntry>>,
    pub generation: u8,
    pub killers: Seq<[Option<(usize, usize)>; 2]>,
    pub history: Seq<[i32; 64]>,
}

pub open spec fn tables_of(e: Engine) -> SearchTables {
    SearchTables { tt: e.tt.entries(), generation: e.tt.generation, killers: e.killer_moves@, history: e.history@ }
}

/// The tables after `TranspositionTable::insert` stores an entry.
pub open spec fn stored(
    t: SearchTables,
    hash: u64,
    depth: u8,
    score: i32,
    flag: Bound,
    best_move: Option<Move>,
) -> SearchTables {
    let k = bucket_of(hash);
    SearchTables {
        tt: t.tt.update(
            k,
            t.tt[k].update(
                replace_slot(t.tt[k], depth, t.generation),
                TTEntry { hash, depth, score, flag, best_move, age: t.generation },
            ),
        ),
        ..t
    }
}

/// The bound a finished search stores: an upper bound when nothing beat the original `alpha`,
/// a lower bound when the score reached `beta`, else exact.
pub open spec fn bound_for(best: i32, orig_alpha: i32, beta: i32) -> Bound {
    if best <= orig_alpha {
        Bound::Upper
    } else if best >= beta {
        Bound::Lower
    } else {
        Bound::Exact
    }
}

/// `x` plus `y`, saturating at the top of `i32`.
pub open spec fn sat_add(x: i32, y: int) -> i32 {
    if x + y > i32::MAX { i32::MAX } else { (x + y) as i32 }
}

/// The tables `t2` after a cut-off by move `m` at distance `ply` with `depth` plies left: a quiet
/// move becomes the first killer move of the ply (the old first one second) unless it is the
/// first already, and its history entry grows by `depth * depth`; a capture changes nothing.
pub open spec fn cutoff_step(t1: SearchTables, t2: SearchTables, m: Move, capture: bool, ply: u8, depth: u8) -> bool {
    if !capture && ply < 64 {
        let row = t1.killers[ply as int];
        let same = row[0] matches Some((f, to)) && f == m.from && to == m.to;
        &&& t2.tt == t1.tt
        &&& t2.generation == t1.generation
        &&& t2.killers.len() == t1.killers.len()
        &&& forall|p: int| 0 <= p < t1.killers.len() && p != ply ==> #[trigger] t2.killers[p] == t1.killers[p]
        &&& t2.killers[ply as int]@ == if same { row@ } else { seq![Some((m.from, m.to)), row[0]] }
        &&& t2.history.len() == t1.history.len()
        &&& forall|f: int| 0 <= f < t1.history.len() && f != m.from ==> #[trigger] t2.history[f] == t1.history[f]
        &&& t2.history[m.from as int]@ == t1.history[m.from as int]@.update(
            m.to as int,
            sat_add(t1.history[m.from as int][m.to as int], depth * depth),
        )
    } else {
        t2 == t1
    }
}

/// How far a later quiet move is searched shallower: none for the first three moves, for
/// captures or below depth 3, else one more ply per move, at most 3.
pub open spec fn late_move_reduction(i: int, depth: u8, capture: bool) -> u8 {
    if i >= 3 && depth >= 3 && !capture {
        let x = (i - 3) as u8;
        if x < 3 { x } else { 3 }
    } else {
        0
    }
}

/// `a - b`, or 0 below that.
pub open spec fn sat_sub(a: u8, b: u8) -> u8 {
    if a >= b { (a - b) as u8 } else { 0 }
}

/// `x.wrapping_neg()`.
pub open spec fn wrap_neg(x: i32) -> i32 {
    if x == i32::MIN { i32::MIN } else { (-x) as i32 }
}

/// `x.wrapping_sub(1)`.
pub open spec fn wrap_pred(x: i32) -> i32 {
    if x == i32::MIN { i32::MAX } else { (x - 1) as i32 }
}

/// Names the outcome of searching the position `c` after a move: the first search's score and
/// tables, and those of the re-search (the same when there was none).
pub open spec fn child_search(c: Chess, s1: i32, t1: SearchTables, c2: Chess, s2: i32, t2: SearchTables) -> bool {
    c.wf() && c2.wf()
}

/// Names the outcome of the null-move search: its score and the tables it left.
pub open spec fn null_search(s: i32, t1: SearchTables) -> bool {
    t1.tt.len() >= 0
}

/// `r` and `tf` are what the negamax search of `b` with `depth` plies left at distance `ply`
/// in the window (`alpha`, `beta`) returns and leaves in the tables, starting from tables `t`,
/// when the time does not run out: draws by the fifty-move rule or repetition score 0; a table
/// entry at least as deep decides or narrows the window; at the last ply the static evaluation;
/// at depth 0 one more ply when in check, else the quiescence search; then, where allowed, the
/// null move, and the search of the moves.
pub open spec fn search_value(
    t: SearchTables,
    b: Chess,
    depth: u8,
    ply: u8,
    alpha: i32,
    beta: i32,
    can_null: bool,
    r: i32,
    tf: SearchTables,
) -> bool
    decreases 255 - ply, 2int, 0int,
{
    if b.halfmove_clock >= 100 {
        r == 0 && tf == t
    } else if occurrences(last_n(b.history@, b.halfmove_clock as nat), b.hash) >= 2 {
        r == 0 && tf == t
    } else {
        let bucket = t.tt[bucket_of(b.hash)];
        let slot = find_slot(bucket, b.hash);
        let entry = bucket[slot->0];
        let tt_move = if slot is Some { entry.best_move } else { None };
        let hit = slot is Some && entry.depth >= depth;
        let lo = if hit && entry.flag == Bound::Lower && entry.score > alpha { entry.score } else { alpha };
        let hi = if hit && entry.flag == Bound::Upper && entry.score < beta { entry.score } else { beta };
        if hit && entry.flag == Bound::Exact {
            r == entry.score && tf == t
        } else if hit && lo >= hi {
            r == entry.score && tf == t
        } else if ply >= 255 {
            r == stand_pat_score(b) && tf == t
        } else if depth == 0 {
            if in_check(b.squares@, b.active_color) {
                search_value(t, b, 1, (ply + 1) as u8, lo, hi, false, r, tf)
            } else {
                quiescence_value(t.history, b, lo, hi, r) && tf == t
            }
        } else if can_null && depth >= 3 && !in_check(b.squares@, b.active_color) {
            exists|s: i32, t1: SearchTables|
                #[trigger] null_search(s, t1) && search_value(
                    t,
                    passed_turn(b),
                    null_depth(depth),
                    (ply + 1) as u8,
                    wrap_neg(hi),
                    neg_sat(wrap_pred(hi)),
                    false,
                    s,
                    t1,
                ) && if neg_sat(s) >= hi {
                    r == hi && tf == t1
                } else {
                    search_moves(t1, b, depth, ply, lo, hi, tt_move, r, tf)
                }
        } else {
            search_moves(t, b, depth, ply, lo, hi, tt_move, r, tf)
        }
    }
}

/// The move part of the search: the legal moves in search order (the table move first, then
/// captures, killer moves and history), mate or stalemate when there are none, else the loop.
pub open spec fn search_moves(
    t: SearchTables,
    b: Chess,
    depth: u8,
    ply: u8,
    lo: i32,
    hi: i32,
    tt_move: Option<Move>,
    r: i32,
    tf: SearchTables,
) -> bool
    decreases 255 - ply, 1int, 0int,
{
    exists|l: Seq<Move>|
        #[trigger] move_listing(b, l) && {
            let k1 = if ply < 64 { t.killers[ply as int][0] } else { None };
            let k2 = if ply < 64 { t.killers[ply as int][1] } else { None };
            let ms = search_order(l, b, tt_move, k1, k2, t.history);
            if ms.len() == 0 {
                tf == t && r == if in_check(b.squares@, b.active_color) { -100000 - depth } else { 0 }
            } else {
                search_loop(t, b, ms, 0, depth, ply, lo, hi, lo, VALUE_MIN, None, r, tf)
            }
        }
}

/// The loop over the moves `ms` from the move at `i` on: each searched with the window
/// negated (a later move first with a null window, shallower when reduced, and searched again
/// in full when it beats the window's lower end), the best kept (the first of equals), the
/// window narrowed, and at a score reaching the upper end the cut-off; the result is stored in
/// the table.
pub open spec fn search_loop(
    t: SearchTables,
    b: Chess,
    ms: Seq<Move>,
    i: int,
    depth: u8,
    ply: u8,
    lo: i32,
    hi: i32,
    orig: i32,
    best: i32,
    best_move: Option<Move>,
    r: i32,
    tf: SearchTables,
) -> bool
    decreases 255 - ply, 0int, ms.len() - i,
{
    if i < 0 || i >= ms.len() || ply >= 255 || depth == 0 {
        r == best && tf == stored(t, b.hash, depth, best, bound_for(best, orig, hi), best_move)
    } else {
        let m = ms[i];
        let cap = has_flag(m.flags, MoveFlags::CAPTURE);
        let red = late_move_reduction(i, depth, cap);
        let d1: u8 = if i != 0 && red > 0 { sat_sub(sat_sub(depth, red), 1) } else { (depth - 1) as u8 };
        let a1 = if i == 0 { neg_sat(hi) } else { pred_sat(neg_sat(lo)) };
        exists|c: Chess, s1: i32, t1: SearchTables, c2: Chess, s2: i32, t2: SearchTables|
            #[trigger] child_search(c, s1, t1, c2, s2, t2) && c@ == position_after(b@, m) && c2@ == c@ && search_value(
                t,
                c,
                d1,
                (ply + 1) as u8,
                a1,
                neg_sat(lo),
                true,
                s1,
                t1,
            ) && {
                let first = neg_sat(s1);
                let again = i != 0 && (if red > 0 { first > lo } else { first > lo && first < hi });
                &&& if again {
                    search_value(t1, c2, (depth - 1) as u8, (ply + 1) as u8, neg_sat(hi), neg_sat(lo), true, s2, t2)
                } else {
                    s2 == s1 && t2 == t1
                }
                &&& {
                    let eval = if again { neg_sat(s2) } else { first };
                    let best2 = if eval > best { eval } else { best };
                    let bm2 = if eval > best { Some(m) } else { best_move };
                    let lo2 = if eval > lo { eval } else { lo };
                    if lo2 >= hi {
                        exists|t3: SearchTables|
                            #[trigger] cutoff_step(t2, t3, m, cap, ply, depth) && r == best2 && tf == stored(
                                t3,
                                b.hash,
                                depth,
                                best2,
                                bound_for(best2, orig, hi),
                                bm2,
                            )
                    } else {
                        search_loop(t2, b, ms, i + 1, depth, ply, lo2, hi, orig, best2, bm2, r, tf)
                    }
                }
            }
    }
}

impl Engine {
    /// The static evaluation for the side to move; a board that lacks a king (which
    /// `evaluate` cannot score) counts as level.
    fn static_eval(board: &Chess) -> (r: i32)
        requires
            board.wf(),
        ensures
            r == stand_pat_score(*board),
            -1_000_000 <= r <= 1_000_000,
    {
        if board.white_king != 0 && board.black_king != 0 {
            board.evaluate_stm()
        } else {
            0
        }
    }

    /// The quiescence search: the static evaluation, improved by captures while they help.
    pub fn quiescence(&mut self, board: &mut Chess, alpha: i32, beta: i32) -> (r: i32)
        requires
            old(self).wf(),
            old(board).wf(),
            old(board).fullmove_number + piece_count(old(board)@.squares) < usize::MAX,
        ensures
            final(self).wf(),
            final(board).wf(),
            final(board)@ == old(board)@,
            r >= if stand_pat_score(*old(board)) >= beta { beta as int } else { stand_pat_score(*old(board)) },
            !final(self).time_up && stand_pat_score(*old(board)) >= beta ==> r == beta,
            final(self).deadline == old(self).deadline,
            old(self).deadline is None ==> final(self).time_up == old(self).time_up,
            final(self).tt == old(self).tt,
            VALUE_MIN <= alpha < beta <= VALUE_MAX ==> VALUE_MIN < r < VALUE_MAX,
            old(self).time_up ==> final(self).time_up,
            final(self).time_up ==> old(self).time_up || deadline_passed(*old(self)),
            final(self).killer_moves == old(self).killer_moves,
            final(self).history == old(self).history,
            !final(self).time_up ==> quiescence_value(old(self).history@, *old(board), alpha, beta, r),
        decreases piece_count(old(board)@.squares),
    {
        let ghost win = VALUE_MIN <= alpha < beta <= VALUE_MAX;
        let mut lo = alpha;
        proof {
            lemma_count_where_bounds(crate::apply_undo_move::occupied_fn(board@.squares));
        }
        self.count_node();
        let stand_pat = Self::static_eval(board);
        if self.time_up {
            return stand_pat;
        }
        if stand_pat >= beta {
            return beta;
        }
        if stand_pat > lo {
            lo = stand_pat;
        }
        let ghost b0 = *board;
        let color = board.active_color;
        let mut moves = MoveList::new();
        board.generate_moves_into(color, &mut moves);
        proof {
            assert forall|k: int| 0 <= k < moves@.len() implies (#[trigger] moves@[k]).from < 64 && moves@[k].to < 64 by {
                assert(moves@.contains(moves@[k]));
                lemma_pseudo_reversible(b0, color, moves@[k]);
            }
        }
        let ghost l0 = moves@;
        order_moves(&mut moves, board, None, None, None, &self.history);
        let ghost hs = old(self).history@;
        let ghost bq = *old(board);
        let mut best_eval = stand_pat;
        let mut i: usize = 0;
        proof {
            assert(b0 == bq);
            assert(move_listing(bq, l0));
            assert forall|rr: i32| #[trigger] quiescence_loop(hs, bq, moves@, 0, lo, beta, best_eval, rr) implies quiescence_value(
                hs,
                bq,
                alpha,
                beta,
                rr,
            ) by {
                assert(move_listing(bq, l0));
            }
            if moves@.len() == 0 {
                assert(quiescence_loop(hs, bq, moves@, 0, lo, beta, best_eval, best_eval));
            }
        }
        while i < moves.len()
            invariant_except_break
                win ==> lo < beta,
                forall|rr: i32| #[trigger] quiescence_loop(hs, bq, moves@, i as int, lo, beta, best_eval, rr)
                    ==> quiescence_value(hs, bq, alpha, beta, rr),
                i >= moves@.len() ==> quiescence_loop(hs, bq, moves@, i as int, lo, beta, best_eval, best_eval),
            invariant
                self.wf(),
                board.wf(),
                board@ == b0@,
                b0@ == old(board)@,
                b0.wf(),
                color == b0.active_color,
                b0.fullmove_number + piece_count(b0@.squares) < usize::MAX,
                0 <= piece_count(b0@.squares) <= 64,
                forall|m: Move| #[trigger] moves@.contains(m) <==> legal_move(b0, color, m),
                i <= moves@.len(),
                best_eval >= stand_pat,
                stand_pat == stand_pat_score(*old(board)),
                stand_pat < beta,
                -1_000_000 <= stand_pat <= 1_000_000,
                self.deadline == old(self).deadline,
                old(self).deadline is None ==> self.time_up == old(self).time_up,
                self.tt == old(self).tt,
                win ==> VALUE_MIN <= lo <= VALUE_MAX,
                win ==> beta <= VALUE_MAX,
                win ==> best_eval < VALUE_MAX,
                win == (VALUE_MIN <= alpha < beta <= VALUE_MAX),
                old(self).time_up ==> self.time_up,
                self.time_up ==> old(self).time_up || deadline_passed(*old(self)),
                self.killer_moves == old(self).killer_moves,
                self.history == old(self).history,
                hs == old(self).history@,
                bq == *old(board),
                b0 == bq,
            ensures
                !self.time_up ==> quiescence_value(hs, bq, alpha, beta, best_eval),
                old(self).time_up ==> self.time_up,
                self.time_up ==> old(self).time_up || deadline_passed(*old(self)),
                self.killer_moves == old(self).killer_moves,
                self.history == old(self).history,
            decreases moves@.len() - i,
        {
            let m = *moves.get(i);
            proof {
                assert(moves@.contains(m));
            }
            if !m.flags.contains(MoveFlags::CAPTURE) {
                proof {
                    assert(!has_flag(m.flags, MoveFlags::CAPTURE));
                    assert forall|rr: i32| #[trigger] quiescence_loop(hs, bq, moves@, i + 1, lo, beta, best_eval, rr)
                        implies quiescence_value(hs, bq, alpha, beta, rr) by {
                        assert(quiescence_loop(hs, bq, moves@, i as int, lo, beta, best_eval, rr));
                    }
                    if i + 1 >= moves@.len() {
                        assert(quiescence_loop(hs, bq, moves@, i + 1, lo, beta, best_eval, best_eval));
                    }
                }
                i = i + 1;
                continue;
            }
            proof {
                lemma_pseudo_reversible(b0, color, m);
                lemma_undo_inverts_apply(b0@, m);
                lemma_capture_flags(b0, color, m);
                lemma_capture_reduces(b0@, m);
            }
            let hist = board.apply_move(&m);
            proof {
                lemma_count_where_bounds(crate::apply_undo_move::occupied_fn(board@.squares));
            }
            assert(0 <= piece_count(board@.squares) < piece_count(old(board)@.squares));
            let ghost c = *board;
            let ghost lo_before = lo;
            let ghost best_before = best_eval;
            let s = self.quiescence(board, negate(beta), negate(lo));
            let score = negate(s);
            board.undo_move(&hist);
            if self.time_up {
                return best_eval;
            }
            if score > best_eval {
                best_eval = score;
            }
            if score > lo {
                lo = score;
            }
            proof {
                assert(has_flag(m.flags, MoveFlags::CAPTURE));
                assert(m == moves@[i as int]);
                assert(c.wf());
            }
            if lo >= beta {
                proof {
                    assert(quiescence_loop(hs, bq, moves@, i as int, lo_before, beta, best_before, best_eval));
                }
                break;
            }
            proof {
                assert forall|rr: i32| #[trigger] quiescence_loop(hs, bq, moves@, i + 1, lo, beta, best_eval, rr)
                    implies quiescence_value(hs, bq, alpha, beta, rr) by {
                    assert(quiescence_loop(hs, bq, moves@, i as int, lo_before, beta, best_before, rr));
                }
                if i + 1 >= moves@.len() {
                    assert(quiescence_loop(hs, bq, moves@, i + 1, lo, beta, best_eval, best_eval));
                }
            }
            i = i + 1;
        }
        proof {
            if !self.time_up && i >= moves@.len() {
                assert(quiescence_loop(hs, bq, moves@, i as int, lo, beta, best_eval, best_eval));
            }
        }
        best_eval
    }
}

} // verus!

verus! {

/// `x.wrapping_neg()`.
fn wrapping_negate(x: i32) -> (r: i32)
    ensures
        r == wrap_neg(x),
{
    if x == i32::MIN { i32::MIN } else { -x }
}

/// `x.wrapping_sub(1)`.
fn wrapping_pred(x: i32) -> (r: i32)
    ensures
        r == wrap_pred(x),
{
    if x == i32::MIN { i32::MAX } else { x - 1 }
}

proof fn lemma_xor_restore(h: u64, a: u64, b: u64, c: u64)
    ensures
        (((((h ^ a) ^ b) ^ c) ^ c) ^ b) ^ a == h,
{
    assert((((((h ^ a) ^ b) ^ c) ^ c) ^ b) ^ a == h) by (bit_vector);
}

/// The board with the turn passed: the other side to move, no en-passant square, and the hash
/// updated for both.
pub open spec fn passed_turn(b: Chess) -> Chess {
    Chess {
        hash: b.hash ^ en_passant_key(en_passant_index(b.en_passent)) ^ en_passant_key(8) ^ black_to_move_key(),
        en_passent: 0,
        active_color: b.active_color.opponent(),
        ..b
    }
}

/// `depth - 3`, or 0 below that.
pub open spec fn null_depth(depth: u8) -> u8 {
    if depth >= 3 { (depth - 3) as u8 } else { 0 }
}

impl Engine {
    /// Null-move pruning: passes the turn, searches `depth - 3` plies with a null window at
    /// `beta`, and restores the board; the result is the score of passing, for the side to move:
    /// minus the score of that search, so a draw there scores 0 and a mate of the side that
    /// took the turn scores `100000 + depth - 3`.
    fn null_move_eval(&mut self, board: &mut Chess, depth: u8, ply: u8, beta: i32) -> (r: i32)
        requires
            old(self).wf(),
            old(board).wf(),
            ply < 255,
            old(board).fullmove_number + 400 - ply < usize::MAX,
        ensures
            final(self).wf(),
            final(board).wf(),
            final(board)@ == old(board)@,
            !final(self).time_up && old(board).halfmove_clock >= 100 ==> r == 0,
            !final(self).time_up && occurrences(
                last_n(old(board).history@, old(board).halfmove_clock as nat),
                passed_turn(*old(board)).hash,
            ) >= 2 ==> r == 0,
            search_reaches_moves(*old(self), passed_turn(*old(board)), null_depth(depth), (ply + 1) as u8)
                && !final(self).time_up && no_legal_move(passed_turn(*old(board))) && in_check(
                old(board).squares@,
                old(board).active_color.opponent(),
            ) ==> r == 100000 + null_depth(depth),
            search_reaches_moves(*old(self), passed_turn(*old(board)), null_depth(depth), (ply + 1) as u8)
                && !final(self).time_up && no_legal_move(passed_turn(*old(board))) && !in_check(
                old(board).squares@,
                old(board).active_color.opponent(),
            ) ==> r == 0,
            final(self).deadline == old(self).deadline,
            old(self).deadline is None ==> final(self).time_up == old(self).time_up,
            old(self).tt.scores_bounded() && VALUE_MIN < beta <= VALUE_MAX ==> VALUE_MIN < r < VALUE_MAX
                && final(self).tt.scores_bounded(),
            old(self).time_up ==> final(self).time_up,
            final(self).time_up ==> old(self).time_up || deadline_passed(*old(self)),
            !final(self).time_up ==> exists|s: i32|
                #[trigger] search_value(
                    tables_of(*old(self)),
                    passed_turn(*old(board)),
                    null_depth(depth),
                    (ply + 1) as u8,
                    wrap_neg(beta),
                    neg_sat(wrap_pred(beta)),
                    false,
                    s,
                    tables_of(*final(self)),
                ) && r == neg_sat(s),
        decreases 255 - ply, 0int,
    {
        let old_en_passent = board.en_passent;
        let old_halfmove = board.halfmove_clock;
        let ghost b0 = *board;
        let a = en_passant_hash(get_en_passant_index(board.en_passent));
        let b = en_passant_hash(8);
        let c = black_to_move_hash();
        board.hash = board.hash ^ a;
        board.en_passent = 0;
        board.hash = board.hash ^ b;
        board.active_color = board.active_color.other();
        board.hash = board.hash ^ c;
        proof {
            lemma_wf_kept(b0, *board);
            assert(*board == passed_turn(b0));
        }
        let null_alpha = wrapping_negate(beta);
        let null_beta = negate(wrapping_pred(beta));
        let ghost t0 = tables_of(*self);
        let s = self.negamax(board, depth.saturating_sub(3), ply + 1, null_alpha, null_beta, false);
        let eval = negate(s);
        proof {
            if !self.time_up {
                assert(search_value(t0, passed_turn(b0), null_depth(depth), (ply + 1) as u8, wrap_neg(beta), neg_sat(
                    wrap_pred(beta),
                ), false, s, tables_of(*self)));
            }
        }
        let ghost b1 = *board;
        board.active_color = board.active_color.other();
        board.hash = board.hash ^ c;
        board.en_passent = old_en_passent;
        board.hash = board.hash ^ b;
        board.hash = board.hash ^ en_passant_hash(get_en_passant_index(old_en_passent));
        board.halfmove_clock = old_halfmove;
        proof {
            lemma_xor_restore(b0.hash, a, b, c);
            lemma_wf_kept(b1, *board);
        }
        eval
    }

    /// Negamax search of `depth` plies at distance `ply` from the root, within the window
    /// (`alpha`, `beta`); the score is for the side to move, and the board ends as it started.
    pub fn negamax(&mut self, board: &mut Chess, depth: u8, ply: u8, alpha: i32, beta: i32, can_null: bool) -> (r: i32)
        requires
            old(self).wf(),
            old(board).wf(),
            old(board).fullmove_number + 400 - ply < usize::MAX,
        ensures
            final(self).wf(),
            final(board).wf(),
            final(board)@ == old(board)@,
            !final(self).time_up && old(board).halfmove_clock >= 100 ==> r == 0,
            !final(self).time_up && occurrences(
                last_n(old(board).history@, old(board).halfmove_clock as nat),
                old(board).hash,
            ) >= 2 ==> r == 0,
            search_reaches_moves(*old(self), *old(board), depth, ply) && !final(self).time_up && no_legal_move(
                *old(board),
            ) && in_check(old(board).squares@, old(board).active_color) ==> r == -100000 - depth,
            search_reaches_moves(*old(self), *old(board), depth, ply) && !final(self).time_up && no_legal_move(
                *old(board),
            ) && !in_check(old(board).squares@, old(board).active_color) && (!can_null || depth < 3) ==> r == 0,
            final(self).deadline == old(self).deadline,
            old(self).deadline is None ==> final(self).time_up == old(self).time_up,
            old(self).tt.scores_bounded() && VALUE_MIN <= alpha < beta <= VALUE_MAX ==> VALUE_MIN < r < VALUE_MAX
                && final(self).tt.scores_bounded(),
            old(self).time_up ==> final(self).time_up,
            final(self).time_up ==> old(self).time_up || deadline_passed(*old(self)),
            !final(self).time_up ==> search_value(
                tables_of(*old(self)),
                *old(board),
                depth,
                ply,
                alpha,
                beta,
                can_null,
                r,
                tables_of(*final(self)),
            ),
        decreases 255 - ply, 1int,
    {
        let ghost win = old(self).tt.scores_bounded() && VALUE_MIN <= alpha < beta <= VALUE_MAX;
        let ghost t0 = tables_of(*self);
        let ghost bb = *board;
        let mut lo = alpha;
        let mut hi = beta;
        self.count_node();
        if self.time_up {
            return Self::static_eval(board);
        }
        if board.halfmove_clock >= 100 {
            return 0;
        }
        if board.history.is_repetition(board) {
            return 0;
        }
        let tt_entry = self.tt.probe(board.hash);
        let tt_best_move = match tt_entry {
            Some(e) => e.best_move,
            None => None,
        };
        if let Some(entry) = tt_entry {
            if entry.depth >= depth {
                match entry.flag {
                    Bound::Exact => {
                        return entry.score;
                    },
                    Bound::Lower => {
                        if entry.score > lo {
                            lo = entry.score;
                        }
                    },
                    Bound::Upper => {
                        if entry.score < hi {
                            hi = entry.score;
                        }
                    },
                }
                if lo >= hi {
                    return entry.score;
                }
            }
        }
        if ply == 255 {
            return Self::static_eval(board);
        }
        if depth == 0 {
            if board.is_color_in_check(board.active_color) {
                return self.negamax(board, 1, ply + 1, lo, hi, false);
            }
            proof {
                lemma_count_where_bounds(crate::apply_undo_move::occupied_fn(board@.squares));
            }
            return self.quiescence(board, lo, hi);
        }
        let ghost mut s_null: i32 = 0;
        let ghost mut null_done = false;
        if can_null && depth >= 3 && !board.is_color_in_check(board.active_color) {
            let eval = self.null_move_eval(board, depth, ply, hi);
            proof {
                null_done = true;
                if !self.time_up {
                    s_null = choose|s: i32|
                        #[trigger] search_value(
                            t0,
                            passed_turn(bb),
                            null_depth(depth),
                            (ply + 1) as u8,
                            wrap_neg(hi),
                            neg_sat(wrap_pred(hi)),
                            false,
                            s,
                            tables_of(*self),
                        ) && eval == neg_sat(s);
                    assert(null_search(s_null, tables_of(*self)));
                }
            }
            if eval >= hi {
                return hi;
            }
        }
        let ghost t_moves = tables_of(*self);
        proof {
            if null_done && !self.time_up {
                assert(null_search(s_null, t_moves));
            }
        }
        let r = self.search_move_list(board, depth, ply, lo, hi, tt_best_move, Ghost(bb));
        proof {
            if !self.time_up {
                let rr = r;
                let tff = tables_of(*self);
                assert(search_moves(t_moves, bb, depth, ply, lo, hi, tt_best_move, rr, tff));
                assert(bb.halfmove_clock < 100);
                if null_done {
                    assert(null_search(s_null, t_moves));
                }
                assert(search_value(t0, bb, depth, ply, alpha, beta, can_null, rr, tff));
            }
        }
        r
    }

    /// The move part of the negamax search of `board` (whose view is that of `bb`): the legal
    /// moves in search order, mate or stalemate when there are none, else the alpha-beta loop,
    /// whose result is stored in the table.
    #[verifier::rlimit(60)]
    fn search_move_list(
        &mut self,
        board: &mut Chess,
        depth: u8,
        ply: u8,
        alpha: i32,
        hi: i32,
        tt_best_move: Option<Move>,
        Ghost(bb): Ghost<Chess>,
    ) -> (r: i32)
        requires
            old(self).wf(),
            old(board).wf(),
            bb.wf(),
            bb@ == old(board)@,
            ply < 255,
            depth >= 1,
            old(board).fullmove_number + 400 - ply < usize::MAX,
        ensures
            final(self).wf(),
            final(board).wf(),
            final(board)@ == old(board)@,
            no_legal_move(*old(board)) ==> r == if in_check(old(board).squares@, old(board).active_color) {
                -100000 - depth
            } else {
                0
            },
            final(self).deadline == old(self).deadline,
            old(self).deadline is None ==> final(self).time_up == old(self).time_up,
            old(self).tt.scores_bounded() && VALUE_MIN <= alpha < hi <= VALUE_MAX ==> VALUE_MIN < r < VALUE_MAX
                && final(self).tt.scores_bounded(),
            old(self).time_up ==> final(self).time_up,
            final(self).time_up ==> old(self).time_up || deadline_passed(*old(self)),
            !final(self).time_up ==> search_moves(
                tables_of(*old(self)),
                bb,
                depth,
                ply,
                alpha,
                hi,
                tt_best_move,
                r,
                tables_of(*final(self)),
            ),
        decreases 255 - ply, 0int,
    {
        let ghost win = old(self).tt.scores_bounded() && VALUE_MIN <= alpha < hi <= VALUE_MAX;
        let mut lo = alpha;
        let ghost t_moves = tables_of(*self);
        let ghost t0 = t_moves;
        let ghost b0 = *board;
        let color = board.active_color;
        let mut moves = MoveList::new();
        board.generate_moves_into(color, &mut moves);
        proof {
            assert forall|k: int| 0 <= k < moves@.len() implies (#[trigger] moves@[k]).from < 64 && moves@[k].to < 64 by {
                assert(moves@.contains(moves@[k]));
                lemma_pseudo_reversible(b0, color, moves@[k]);
            }
        }
        let (killer1, killer2) = if (ply as usize) < MAX_PLY {
            let row = self.killer_moves[ply as usize];
            (row[0], row[1])
        } else {
            (None, None)
        };
        let ghost unordered = moves@;
        order_moves(&mut moves, board, tt_best_move, killer1, killer2, &self.history);
        proof {
            assert forall|mv: Move| #[trigger] unordered.contains(mv) <==> legal_move(bb, bb.active_color, mv) by {
                crate::movegeneration::lemma_legal_same(b0, bb, color, mv);
            }
            assert(move_listing(bb, unordered));
            assert(moves@ == search_order(unordered, bb, tt_best_move, killer1, killer2, t_moves.history));
        }
        proof {
            if no_legal_move(b0) && moves@.len() > 0 {
                assert(moves@.contains(moves@[0]));
                assert(unordered.contains(moves@[0]));
            }
        }
        proof {
            assert(move_listing(bb, unordered));
        }
        if moves.is_empty() {
            if board.is_color_in_check(color) {
                return -100000 - depth as i32;
            }
            return 0;
        }
        proof {
            assert(moves@.contains(moves@[0]));
            assert(unordered.contains(moves@[0]));
            assert(legal_move(b0, color, moves@[0]));
        }
        let original_alpha = lo;
        let mut best_eval: i32 = VALUE_MIN;
        let mut best_move: Option<Move> = None;
        let mut i: usize = 0;
        proof {
            assert forall|rr: i32, tff: SearchTables|
                #[trigger] search_loop(t_moves, bb, moves@, 0, depth, ply, lo, hi, lo, VALUE_MIN, None, rr, tff)
                implies search_moves(t_moves, bb, depth, ply, lo, hi, tt_best_move, rr, tff) by {
                assert(move_listing(bb, unordered));
            }
        }
        while i < moves.len()
            invariant_except_break
                win ==> lo < hi,
                !self.time_up ==> forall|rr: i32, tff: SearchTables|
                    #[trigger] search_loop(tables_of(*self), bb, moves@, i as int, depth, ply, lo, hi, original_alpha, best_eval, best_move, rr, tff)
                    ==> search_moves(t0, bb, depth, ply, alpha, hi, tt_best_move, rr, tff),
                i >= moves@.len() ==> search_loop(
                    tables_of(*self),
                    bb,
                    moves@,
                    i as int,
                    depth,
                    ply,
                    lo,
                    hi,
                    original_alpha,
                    best_eval,
                    best_move,
                    best_eval,
                    stored(tables_of(*self), bb.hash, depth, best_eval, bound_for(best_eval, original_alpha, hi), best_move),
                ),
            invariant
                !no_legal_move(*old(board)),
                t0 == tables_of(*old(self)),
                bb.wf(),
                bb@ == old(board)@,
                old(self).time_up ==> self.time_up,
                self.time_up ==> old(self).time_up || deadline_passed(*old(self)),
                self.wf(),
                board.wf(),
                board@ == b0@,
                b0@ == old(board)@,
                b0.wf(),
                ply < 255,
                depth >= 1,
                color == b0.active_color,
                b0.fullmove_number + 400 - ply < usize::MAX,
                forall|m: Move| #[trigger] moves@.contains(m) <==> legal_move(b0, color, m),
                i <= moves@.len(),
                moves@.len() > 0,
                self.deadline == old(self).deadline,
                old(self).deadline is None ==> self.time_up == old(self).time_up,
                win ==> self.tt.scores_bounded(),
                win ==> VALUE_MIN <= lo < VALUE_MAX && VALUE_MIN < hi <= VALUE_MAX,
                win ==> (best_move is None ==> best_eval == VALUE_MIN),
                win ==> (best_move is Some ==> VALUE_MIN < best_eval < VALUE_MAX),
                win && i > 0 ==> best_move is Some,
                win == (old(self).tt.scores_bounded() && VALUE_MIN <= alpha < hi <= VALUE_MAX),
            ensures
                win ==> best_move is Some && VALUE_MIN < best_eval < VALUE_MAX && self.tt.scores_bounded(),
                self.deadline == old(self).deadline,
                old(self).deadline is None ==> self.time_up == old(self).time_up,
                old(self).time_up ==> self.time_up,
                self.time_up ==> old(self).time_up || deadline_passed(*old(self)),
                !self.time_up ==> search_moves(
                    t0,
                    bb,
                    depth,
                    ply,
                    alpha,
                    hi,
                    tt_best_move,
                    best_eval,
                    stored(tables_of(*self), bb.hash, depth, best_eval, bound_for(best_eval, original_alpha, hi), best_move),
                ),
            decreases moves@.len() - i,
        {
            let m = *moves.get(i);
            proof {
                assert(moves@.contains(m));
                lemma_pseudo_reversible(b0, color, m);
                lemma_undo_inverts_apply(b0@, m);
            }
            let is_capture = m.flags.contains(MoveFlags::CAPTURE);
            let reduction: u8 = if i >= 3 && depth >= 3 && !is_capture {
                let x: u8 = #[verifier::truncate] ((i - 3) as u8);
                if x < 3 { x } else { 3 }
            } else {
                0
            };
            let hist = board.apply_move(&m);
            let ghost tc = tables_of(*self);
            let ghost c = *board;
            let ghost lo_before = lo;
            let ghost best_before = best_eval;
            let ghost bm_before = best_move;
            let (first_depth, first_alpha) = if i == 0 {
                (depth - 1, negate(hi))
            } else if reduction > 0 {
                let rd = depth.saturating_sub(reduction);
                (rd.saturating_sub(1), predecessor(negate(lo)))
            } else {
                (depth - 1, predecessor(negate(lo)))
            };
            let s1 = self.negamax(board, first_depth, ply + 1, first_alpha, negate(lo), true);
            let ghost t1 = tables_of(*self);
            let ghost c2 = *board;
            let first = negate(s1);
            let again = i != 0 && (if reduction > 0 { first > lo } else { first > lo && first < hi });
            let mut s2 = s1;
            if again {
                s2 = self.negamax(board, depth - 1, ply + 1, negate(hi), negate(lo), true);
            }
            let ghost t2 = tables_of(*self);
            let eval = if again { negate(s2) } else { first };
            board.undo_move(&hist);
            if self.time_up {
                return if best_move.is_none() {
                    Self::static_eval(board)
                } else {
                    best_eval
                };
            }
            proof {
                let cap = has_flag(m.flags, MoveFlags::CAPTURE);
                assert(is_capture == cap);
                assert(reduction == late_move_reduction(i as int, depth, cap));
                assert(m == moves@[i as int]);
                assert(child_search(c, s1, t1, c2, s2, t2));
            }
            if eval > best_eval {
                best_eval = eval;
                best_move = Some(m);
            }
            if eval > lo {
                lo = eval;
            }
            if lo >= hi {
                if !is_capture && (ply as usize) < MAX_PLY {
                    let row = self.killer_moves[ply as usize];
                    let same = match row[0] {
                        Some((f, t)) => f == m.from && t == m.to,
                        None => false,
                    };
                    if !same {
                        self.killer_moves[ply as usize] = [Some((m.from, m.to)), row[0]];
                    }
                    let mut hrow = self.history[m.from];
                    let d = depth as i32;
                    assert(0 <= d * d <= 65025) by (nonlinear_arith)
                        requires
                            0 <= d <= 255,
                    ;
                    hrow[m.to] = add_sat(hrow[m.to], d * d);
                    self.history[m.from] = hrow;
                }
                proof {
                    let cap = has_flag(m.flags, MoveFlags::CAPTURE);
                    let t3 = tables_of(*self);
                    if !cap && ply < 64 {
                        assert(t3.killers.len() == t2.killers.len());
                        assert(t3.history.len() == t2.history.len());
                    }
                    assert(cutoff_step(t2, t3, m, cap, ply, depth));
                    assert(search_loop(tc, bb, moves@, i as int, depth, ply, lo_before, hi, original_alpha, best_before, bm_before,
                        best_eval, stored(t3, bb.hash, depth, best_eval, bound_for(best_eval, original_alpha, hi), best_move)));
                }
                break;
            }
            proof {
                assert forall|rr: i32, tff: SearchTables|
                    #[trigger] search_loop(t2, bb, moves@, i + 1, depth, ply, lo, hi, original_alpha, best_eval, best_move, rr, tff)
                    implies search_loop(tc, bb, moves@, i as int, depth, ply, lo_before, hi, original_alpha, best_before, bm_before, rr, tff) by {
                    assert(child_search(c, s1, t1, c2, s2, t2));
                }
                if i + 1 >= moves@.len() {
                    assert(search_loop(t2, bb, moves@, i + 1, depth, ply, lo, hi, original_alpha, best_eval, best_move, best_eval,
                        stored(t2, bb.hash, depth, best_eval, bound_for(best_eval, original_alpha, hi), best_move)));
                }
            }
            i = i + 1;
        }
        if !self.time_up {
            let flag = if best_eval <= original_alpha {
                Bound::Upper
            } else if best_eval >= hi {
                Bound::Lower
            } else {
                Bound::Exact
            };
            self.tt.insert(board.hash, depth, best_eval, flag, best_move);
        }
        best_eval
    }
}

} // verus!
