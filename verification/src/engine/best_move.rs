//! Choosing a move: a fixed-depth search of the root moves, and iterative deepening until a
//! deadline.
use vstd::prelude::*;
use crate::apply_undo_move::{Move, lemma_undo_inverts_apply};
use crate::chess::{Chess, Position};
use instant::Instant;
use crate::color::Color;
use crate::engine::engine::{deadline_passed, limit_reached, instant_plus, duration_of_millis, instant_at_or_after, Engine, VALUE_MAX, VALUE_MIN, negate, predecessor};
use crate::engine::minimax::{no_legal_move, lemma_no_legal_same, SearchTables, tables_of, search_value, child_search,
    move_listing, search_order};
use crate::engine::engine::{bucket_of, find_slot, neg_sat, pred_sat};
use crate::apply_undo_move::position_after;
use crate::engine::move_ordering::order_moves;
use crate::movegeneration::{legal_move, lemma_pseudo_reversible, lemma_legal_same};
use crate::movelist::MoveList;

verus! {

pub const MAX_DEPTH: u8 = 50u8;

/// The score (from White's side) a root search reports when no move scored above the bottom
/// of the window: the worst score for the side `c` to move.
pub open spec fn no_move_score(c: Color) -> i32 {
    if c == Color::White { VALUE_MIN } else { VALUE_MAX }
}

/// The table's best move for the position, which the root search orders first.
pub open spec fn table_move(t: SearchTables, b: Chess) -> Option<Move> {
    let bucket = t.tt[bucket_of(b.hash)];
    let slot = find_slot(bucket, b.hash);
    if slot is Some { bucket[slot->0].best_move } else { None }
}

/// The root loop over the moves `ms` from the move at `i` on, with the best score `alpha` and
/// move so far: each move searched `depth - 1` plies deep with the window negated (a later move
/// first with a null window, again in full when it beats `alpha`), and a move kept only when it
/// scores above the best so far, so the first of equal best moves stays. `r` is the move kept
/// at the end, `a` its score and `tf` the tables left.
pub open spec fn root_loop(
    t: SearchTables,
    p: Position,
    ms: Seq<Move>,
    i: int,
    depth: u8,
    alpha: i32,
    best_move: Option<Move>,
    r: Option<Move>,
    a: i32,
    tf: SearchTables,
) -> bool
    decreases ms.len() - i,
{
    if i < 0 || i >= ms.len() || depth == 0 {
        r == best_move && a == alpha && tf == t
    } else {
        let a1 = if i == 0 { neg_sat(VALUE_MAX) } else { pred_sat(neg_sat(alpha)) };
        exists|c: Chess, s1: i32, t1: SearchTables, c2: Chess, s2: i32, t2: SearchTables|
            #[trigger] child_search(c, s1, t1, c2, s2, t2) && c@ == position_after(p, ms[i]) && c2@ == c@
                && search_value(t, c, (depth - 1) as u8, 1, a1, neg_sat(alpha), false, s1, t1) && {
                let first = neg_sat(s1);
                let again = i != 0 && first > alpha;
                &&& if again {
                    search_value(t1, c2, (depth - 1) as u8, 1, neg_sat(VALUE_MAX), neg_sat(alpha), false, s2, t2)
                } else {
                    s2 == s1 && t2 == t1
                }
                &&& {
                    let eval = if again { neg_sat(s2) } else { first };
                    root_loop(
                        t2,
                        p,
                        ms,
                        i + 1,
                        depth,
                        if eval > alpha { eval } else { alpha },
                        if eval > alpha { Some(ms[i]) } else { best_move },
                        r,
                        a,
                        tf,
                    )
                }
            }
    }
}

/// `r`, with score `a` for the side to move, is the move the root search of `depth` plies
/// picks on `b` from tables `t`, leaving tables `tf`, when the time does not run out: the legal
/// moves in search order (the table move first), each scored by the negamax search, the first
/// with the highest score.
pub open spec fn root_search(t: SearchTables, b: Chess, depth: u8, r: Option<Move>, a: i32, tf: SearchTables) -> bool {
    exists|l: Seq<Move>|
        #[trigger] move_listing(b, l) && root_loop(
            t,
            b@,
            search_order(l, b, table_move(t, b), None, None, t.history),
            0,
            depth,
            VALUE_MIN,
            None,
            r,
            a,
            tf,
        )
}

/// Boards with the same view give the same root search.
pub proof fn lemma_root_search_same(
    t: SearchTables,
    b1: Chess,
    b2: Chess,
    depth: u8,
    r: Option<Move>,
    a: i32,
    tf: SearchTables,
)
    requires
        b1.wf(),
        b2.wf(),
        b1@ == b2@,
        root_search(t, b1, depth, r, a, tf),
    ensures
        root_search(t, b2, depth, r, a, tf),
{
    let l = choose|l: Seq<Move>|
        #[trigger] move_listing(b1, l) && root_loop(
            t,
            b1@,
            search_order(l, b1, table_move(t, b1), None, None, t.history),
            0,
            depth,
            VALUE_MIN,
            None,
            r,
            a,
            tf,
        );
    assert forall|m: Move| #[trigger] l.contains(m) <==> legal_move(b2, b2.active_color, m) by {
        lemma_legal_same(b1, b2, b1.active_color, m);
    }
    assert(move_listing(b2, l));
    assert(table_move(t, b1) == table_move(t, b2));
    assert(search_order(l, b1, table_move(t, b1), None, None, t.history) == search_order(
        l,
        b2,
        table_move(t, b2),
        None,
        None,
        t.history,
    ));
}

/// `r`, with score `ra`, is what iterative deepening from depth `d` to `MAX_DEPTH` on `b`
/// returns from tables `t`, leaving tables `tf`, when the time does not run out: the move and
/// score of the root search at each depth in turn, the deepest one kept.
pub open spec fn deepening(
    t: SearchTables,
    b: Chess,
    d: u8,
    best: Option<Move>,
    best_a: i32,
    r: Option<Move>,
    ra: i32,
    tf: SearchTables,
) -> bool
    decreases MAX_DEPTH + 1 - d,
{
    if d < 1 || d > MAX_DEPTH {
        r == best && ra == best_a && tf == t
    } else {
        exists|m: Option<Move>, a: i32, t1: SearchTables|
            #[trigger] root_search(t, b, d, m, a, t1) && deepening(t1, b, (d + 1) as u8, m, a, r, ra, tf)
    }
}

/// `r` is the move that searching `b` at depths `cur`, `cur + 1`, ... up to `depth` picks from
/// tables `t`, leaving tables `tf`, when no search runs out of time: the move of the last
/// search, stopping early (with the move found before) at a search that finds none.
pub open spec fn depth_search(
    t: SearchTables,
    b: Chess,
    cur: u8,
    depth: u8,
    best: Option<Move>,
    r: Option<Move>,
    tf: SearchTables,
) -> bool
    decreases depth - cur,
{
    if cur < 1 || cur > depth {
        r == best && tf == t
    } else {
        exists|m: Option<Move>, a: i32, t1: SearchTables|
            #[trigger] root_search(t, b, cur, m, a, t1) && if m is None {
                r == best && tf == t1
            } else if cur == depth {
                r == m && tf == t1
            } else {
                depth_search(t1, b, (cur + 1) as u8, depth, m, r, tf)
            }
    }
}

/// One depth of `depth_search`: the search at depth `cur` picked `m`.
pub proof fn lemma_depth_step(
    t: SearchTables,
    t1: SearchTables,
    before: Chess,
    b: Chess,
    cur: u8,
    depth: u8,
    best: Option<Move>,
    m: Option<Move>,
    a: i32,
)
    requires
        before.wf(),
        b.wf(),
        before@ == b@,
        1 <= cur <= depth,
        root_search(t, before, cur, m, a, t1),
    ensures
        m is None ==> depth_search(t, b, cur, depth, best, best, t1),
        m is Some && cur == depth ==> depth_search(t, b, cur, depth, best, m, t1),
        m is Some && cur < depth ==> forall|r: Option<Move>, tf: SearchTables|
            #[trigger] depth_search(t1, b, (cur + 1) as u8, depth, m, r, tf) ==> depth_search(t, b, cur, depth, best, r, tf),
{
    lemma_root_search_same(t, before, b, cur, m, a, t1);
    assert(root_search(t, b, cur, m, a, t1));
}

/// `r` is the move a timed search on `b` picks with engine `e0`, leaving engine `e1`, when the
/// time does not run out: iterative deepening from depth 1 to `MAX_DEPTH` over the table of a new
/// generation, with no killer moves and no history; the score of the deepest search is the one
/// reported.
pub open spec fn timed_search(e0: Engine, b: Chess, r: Option<Move>, e1: Engine) -> bool {
    exists|ts: SearchTables, ra: i32|
        #[trigger] deepening(ts, b, 1, None, 0, r, ra, tables_of(e1)) && ts.tt == e0.tt.entries() && ts.generation
            == e0.tt.generation.wrapping_add(1) && ts.killers.len() == 64 && ts.history.len() == 64 && (forall|
            p: int,
            k: int,
        | 0 <= p < 64 && 0 <= k < 2 ==> (#[trigger] ts.killers[p][k]) is None) && (forall|f: int, to: int|
            0 <= f < 64 && 0 <= to < 64 ==> #[trigger] ts.history[f][to] == 0) && e1.best_score == if b.active_color
            == Color::White {
            ra
        } else {
            neg_sat(ra)
        }
}

impl Engine {
    /// Searches every legal move of the side to move `depth` plies deep and returns the best,
    /// `None` when there is none; the score of the search (from White's side) is left in
    /// `best_score`, and the board ends as it started. A move comes back exactly when one
    /// scored above the bottom of the window (the search may be cut short by the deadline).
    pub fn get_best_move(&mut self, board: &mut Chess, depth: u8) -> (r: Option<Move>)
        requires
            old(self).wf(),
            old(board).wf(),
            depth >= 1,
            old(board).fullmove_number + 400 < usize::MAX,
        ensures
            final(self).wf(),
            final(board).wf(),
            final(board)@ == old(board)@,
            r matches Some(m) ==> legal_move(*old(board), old(board).active_color, m),
            no_legal_move(*old(board)) ==> r is None && final(self).best_score == old(self).best_score,
            !no_legal_move(*old(board)) ==> (r is None <==> final(self).best_score == no_move_score(
                old(board).active_color,
            )),
            final(self).deadline == old(self).deadline,
            old(self).deadline is None ==> final(self).time_up == old(self).time_up,
            old(self).tt.scores_bounded() ==> final(self).tt.scores_bounded(),
            old(self).deadline is None && !old(self).time_up && old(self).tt.scores_bounded() && !no_legal_move(
                *old(board),
            ) ==> r is Some,
            old(self).time_up ==> final(self).time_up,
            final(self).time_up ==> old(self).time_up || deadline_passed(*old(self)),
            !final(self).time_up && !no_legal_move(*old(board)) ==> exists|a: i32|
                #[trigger] root_search(tables_of(*old(self)), *old(board), depth, r, a, tables_of(*final(self)))
                    && final(self).best_score == if old(board).active_color == Color::White { a } else { neg_sat(a) },
    {
        let ghost t0 = tables_of(*self);
        let ghost b0 = *board;
        let color = board.active_color;
        let mut moves = MoveList::new();
        board.generate_moves_into(color, &mut moves);
        if moves.is_empty() {
            proof {
                assert forall|m: Move| !legal_move(b0, color, m) by {
                    assert(!moves@.contains(m));
                }
            }
            return None;
        }
        proof {
            assert(moves@.contains(moves@[0]));
            assert(legal_move(b0, color, moves@[0]));
        }
        proof {
            assert forall|k: int| 0 <= k < moves@.len() implies (#[trigger] moves@[k]).from < 64 && moves@[k].to < 64 by {
                assert(moves@.contains(moves@[k]));
                lemma_pseudo_reversible(b0, color, moves@[k]);
            }
        }
        let tt_best_move = match self.tt.probe(board.hash) {
            Some(e) => e.best_move,
            None => None,
        };
        let ghost unordered = moves@;
        order_moves(&mut moves, board, tt_best_move, None, None, &self.history);
        let mut best_move: Option<Move> = None;
        let mut alpha = VALUE_MIN;
        let beta = VALUE_MAX;
        let mut i: usize = 0;
        proof {
            assert(move_listing(b0, unordered));
            assert(tt_best_move == table_move(t0, b0));
            assert(moves@ == search_order(unordered, b0, table_move(t0, b0), None, None, t0.history));
            assert forall|rm: Option<Move>, aa: i32, tff: SearchTables|
                #[trigger] root_loop(t0, b0@, moves@, 0, depth, alpha, best_move, rm, aa, tff) implies root_search(
                t0,
                b0,
                depth,
                rm,
                aa,
                tff,
            ) by {
                assert(move_listing(b0, unordered));
            }
        }
        while i < moves.len()
            invariant
                self.wf(),
                board.wf(),
                board@ == b0@,
                b0.wf(),
                color == b0.active_color,
                b0.fullmove_number + 400 < usize::MAX,
                depth >= 1,
                forall|m: Move| #[trigger] moves@.contains(m) <==> legal_move(b0, color, m),
                best_move matches Some(m) ==> legal_move(b0, color, m),
                best_move is None <==> alpha == VALUE_MIN,
                alpha >= VALUE_MIN,
                i <= moves@.len(),
                moves@.len() > 0,
                beta == VALUE_MAX,
                self.deadline == old(self).deadline,
                old(self).deadline is None ==> self.time_up == old(self).time_up,
                old(self).tt.scores_bounded() ==> self.tt.scores_bounded() && alpha < VALUE_MAX,
                old(self).deadline is None && !old(self).time_up && old(self).tt.scores_bounded() && i > 0
                    ==> best_move is Some,
                t0 == tables_of(*old(self)),
                b0 == *old(board),
                old(self).time_up ==> self.time_up,
                self.time_up ==> old(self).time_up || deadline_passed(*old(self)),
                !self.time_up ==> forall|rm: Option<Move>, aa: i32, tff: SearchTables|
                    #[trigger] root_loop(tables_of(*self), b0@, moves@, i as int, depth, alpha, best_move, rm, aa, tff)
                    ==> root_search(t0, b0, depth, rm, aa, tff),
                i >= moves@.len() ==> root_loop(
                    tables_of(*self),
                    b0@,
                    moves@,
                    i as int,
                    depth,
                    alpha,
                    best_move,
                    best_move,
                    alpha,
                    tables_of(*self),
                ),
            ensures
                old(self).time_up ==> self.time_up,
                self.time_up ==> old(self).time_up || deadline_passed(*old(self)),
                !self.time_up ==> root_search(t0, b0, depth, best_move, alpha, tables_of(*self)),
                best_move matches Some(m) ==> legal_move(b0, color, m),
                best_move is None <==> alpha == VALUE_MIN,
                old(self).deadline is None && !old(self).time_up && old(self).tt.scores_bounded() ==> best_move is Some,
            decreases moves@.len() - i,
        {
            let m = *moves.get(i);
            proof {
                assert(moves@.contains(m));
                lemma_pseudo_reversible(b0, color, m);
                lemma_undo_inverts_apply(b0@, m);
            }
            let hist = board.apply_move(&m);
            let ghost tc = tables_of(*self);
            let ghost c = *board;
            let ghost alpha_before = alpha;
            let ghost bm_before = best_move;
            let first_alpha = if i == 0 { negate(beta) } else { predecessor(negate(alpha)) };
            let s1 = self.negamax(board, depth - 1, 1, first_alpha, negate(alpha), false);
            let ghost t1 = tables_of(*self);
            let ghost c2 = *board;
            let first = negate(s1);
            let again = i != 0 && first > alpha;
            let mut s2 = s1;
            if again {
                s2 = self.negamax(board, depth - 1, 1, negate(beta), negate(alpha), false);
            }
            let ghost t2 = tables_of(*self);
            let eval = if again { negate(s2) } else { first };
            board.undo_move(&hist);
            if self.time_up {
                break;
            }
            if eval > alpha {
                alpha = eval;
                best_move = Some(m);
            }
            proof {
                assert(m == moves@[i as int]);
                assert(child_search(c, s1, t1, c2, s2, t2));
                assert forall|rm: Option<Move>, aa: i32, tff: SearchTables|
                    #[trigger] root_loop(t2, b0@, moves@, i + 1, depth, alpha, best_move, rm, aa, tff) implies root_loop(
                    tc,
                    b0@,
                    moves@,
                    i as int,
                    depth,
                    alpha_before,
                    bm_before,
                    rm,
                    aa,
                    tff,
                ) by {
                    assert(child_search(c, s1, t1, c2, s2, t2));
                }
                if i + 1 >= moves@.len() {
                    assert(root_loop(t2, b0@, moves@, i + 1, depth, alpha, best_move, best_move, alpha, t2));
                }
            }
            i = i + 1;
        }
        let ghost t_end = tables_of(*self);
        self.best_score = if color == Color::White { alpha } else { negate(alpha) };
        proof {
            if !self.time_up {
                assert(tables_of(*self) == t_end);
                assert(root_search(t0, b0, depth, best_move, alpha, tables_of(*self)));
            }
        }
        best_move
    }

    /// Iterative deepening from depth 1 up to `MAX_DEPTH` until `max_ms` milliseconds have
    /// passed: the move of the deepest search that finished, `None` when none did or there is
    /// no legal move; the board ends as it started and the deadline is cleared. When the time
    /// did not run out, the deepest search finished and its score is the one reported.
    pub fn get_best_move_in_time(&mut self, board: &mut Chess, max_ms: u64) -> (r: Option<Move>)
        requires
            old(self).wf(),
            old(board).wf(),
            old(board).fullmove_number + 400 < usize::MAX,
        ensures
            final(self).wf(),
            final(board).wf(),
            final(board)@ == old(board)@,
            final(self).deadline is None,
            r matches Some(m) ==> legal_move(*old(board), old(board).active_color, m),
            no_legal_move(*old(board)) ==> r is None,
            !final(self).time_up && !no_legal_move(*old(board)) ==> (r is None <==> final(self).best_score
                == no_move_score(old(board).active_color)),
            !final(self).time_up && !no_legal_move(*old(board)) ==> timed_search(*old(self), *old(board), r, *final(self)),
            final(self).time_up ==> limit_reached(max_ms),
    {
        let ghost b0 = *board;
        self.set_deadline(max_ms);
        let ghost start = choose|now: Instant| self.deadline == instant_plus(now, duration_of_millis(max_ms));
        self.time_up = false;
        self.nodes = 0;
        self.tt.new_generation();
        self.clear_search_stats();
        let ghost ts = tables_of(*self);
        let ghost mut best_a: i32 = 0;
        let mut best_move: Option<Move> = None;
        let mut depth: u8 = 1;
        proof {
            assert forall|rm: Option<Move>, ra: i32, tff: SearchTables|
                #[trigger] deepening(tables_of(*self), b0, 1, best_move, best_a, rm, ra, tff) implies deepening(
                ts,
                b0,
                1,
                None,
                0,
                rm,
                ra,
                tff,
            ) by {}
        }
        while depth <= MAX_DEPTH
            invariant
                self.wf(),
                board.wf(),
                board@ == b0@,
                b0.wf(),
                b0.fullmove_number + 400 < usize::MAX,
                1 <= depth <= MAX_DEPTH + 1,
                best_move matches Some(m) ==> legal_move(b0, b0.active_color, m),
                no_legal_move(b0) ==> best_move is None,
                depth > 1 && !self.time_up && !no_legal_move(b0) ==> (best_move is None <==> self.best_score
                    == no_move_score(b0.active_color)),
                !self.time_up && !no_legal_move(b0) ==> forall|rm: Option<Move>, ra: i32, tff: SearchTables|
                    #[trigger] deepening(tables_of(*self), b0, depth, best_move, best_a, rm, ra, tff)
                    ==> deepening(ts, b0, 1, None, 0, rm, ra, tff),
                depth > MAX_DEPTH ==> deepening(
                    tables_of(*self),
                    b0,
                    depth,
                    best_move,
                    best_a,
                    best_move,
                    best_a,
                    tables_of(*self),
                ),
                depth > 1 && !self.time_up && !no_legal_move(b0) ==> self.best_score == if b0.active_color == Color::White {
                    best_a
                } else {
                    neg_sat(best_a)
                },
                ts.killers.len() == 64,
                self.deadline == instant_plus(start, duration_of_millis(max_ms)),
                self.time_up ==> deadline_passed(*self),
            ensures
                depth > MAX_DEPTH || self.time_up,
            decreases MAX_DEPTH + 1 - depth,
        {
            let ghost before = *board;
            let ghost t_before = tables_of(*self);
            let ghost bm_before = best_move;
            let ghost ba_before = best_a;
            let m = self.get_best_move(board, depth);
            proof {
                if m is Some {
                    lemma_legal_same(before, b0, b0.active_color, m->0);
                }
                lemma_no_legal_same(before, b0);
            }
            if self.time_up {
                break;
            }
            proof {
                if !no_legal_move(b0) {
                    let a = choose|a: i32|
                        #[trigger] root_search(t_before, before, depth, m, a, tables_of(*self)) && self.best_score == if before.active_color
                            == Color::White {
                            a
                        } else {
                            neg_sat(a)
                        };
                    lemma_root_search_same(t_before, before, b0, depth, m, a, tables_of(*self));
                    best_a = a;
                    assert forall|rm: Option<Move>, ra: i32, tff: SearchTables|
                        #[trigger] deepening(tables_of(*self), b0, (depth + 1) as u8, m, a, rm, ra, tff) implies deepening(
                        t_before,
                        b0,
                        depth,
                        bm_before,
                        ba_before,
                        rm,
                        ra,
                        tff,
                    ) by {
                        assert(root_search(t_before, b0, depth, m, a, tables_of(*self)));
                    }
                }
            }
            best_move = m;
            depth = depth + 1;
            proof {
                if depth > MAX_DEPTH {
                    assert(deepening(tables_of(*self), b0, depth, best_move, best_a, best_move, best_a, tables_of(*self)));
                }
            }
        }
        let ghost t_end = tables_of(*self);
        proof {
            if self.time_up {
                let dl = self.deadline->0;
                let now = choose|now: Instant| #[trigger] instant_at_or_after(now, dl);
                assert(instant_at_or_after(now, instant_plus(start, duration_of_millis(max_ms))->0));
            }
        }
        self.deadline = None;
        proof {
            if !self.time_up && !no_legal_move(b0) {
                assert(tables_of(*self) == t_end);
                assert(deepening(ts, b0, 1, None, 0, best_move, best_a, tables_of(*self)));
            }
        }
        best_move
    }
}

} // verus!
