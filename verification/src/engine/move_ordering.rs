//! Move ordering for the search: the table move first, then captures by most valuable victim,
//! then killer moves, then the history heuristic.
use vstd::prelude::*;
use crate::apply_undo_move::{Move, MoveFlags, Flags, has_flag};
use crate::chess::Chess;
use crate::square::Square;
use crate::movelist::{MoveList, lemma_sorted_keys, paired, stable_sort_desc};

verus! {

/// The ordering score of a move.
pub open spec fn move_score(
    m: Move,
    s: Seq<Square>,
    tt_move: Option<Move>,
    killer1: Option<(usize, usize)>,
    killer2: Option<(usize, usize)>,
    history: Seq<[i32; 64]>,
) -> i32 {
    if tt_move is Some && tt_move->0.from == m.from && tt_move->0.to == m.to && tt_move->0.flags == m.flags {
        2_000_000
    } else if has_flag(m.flags, MoveFlags::CAPTURE) {
        (1_000_000 + s[m.to as int].spec_value() * 10 - s[m.from as int].spec_value()) as i32
    } else if killer1 matches Some((kf, kt)) && m.from == kf && m.to == kt {
        900_000
    } else if killer2 matches Some((kf, kt)) && m.from == kf && m.to == kt {
        800_000
    } else {
        history[m.from as int]@[m.to as int]
    }
}

/// Each move with its ordering score.
pub open spec fn scored_moves(
    ms: Seq<Move>,
    s: Seq<Square>,
    tt_move: Option<Move>,
    killer1: Option<(usize, usize)>,
    killer2: Option<(usize, usize)>,
    history: Seq<[i32; 64]>,
) -> Seq<(Move, i32)> {
    Seq::new(ms.len(), |i: int| (ms[i], move_score(ms[i], s, tt_move, killer1, killer2, history)))
}

/// The moves of a list of scored moves.
pub open spec fn moves_of_scored(ps: Seq<(Move, i32)>) -> Seq<Move> {
    ps.map_values(|p: (Move, i32)| p.0)
}

pub fn score_move(
    m: &Move,
    board: &Chess,
    tt_move: Option<Move>,
    killer1: Option<(usize, usize)>,
    killer2: Option<(usize, usize)>,
    history: &[[i32; 64]; 64],
) -> (r: i32)
    requires
        m.from < 64,
        m.to < 64,
    ensures
        r == move_score(*m, board@.squares, tt_move, killer1, killer2, history@),
{
    if let Some(tm) = tt_move {
        if tm.from == m.from && tm.to == m.to && tm.flags == m.flags {
            return 2_000_000;
        }
    }
    if m.flags.contains(MoveFlags::CAPTURE) {
        let victim = board.squares[m.to].value();
        let attacker = board.squares[m.from].value();
        return 1_000_000 + victim * 10 - attacker;
    }
    if let Some((kf, kt)) = killer1 {
        if m.from == kf && m.to == kt {
            return 900_000;
        }
    }
    if let Some((kf, kt)) = killer2 {
        if m.from == kf && m.to == kt {
            return 800_000;
        }
    }
    let row = history[m.from];
    row[m.to]
}

/// Orders the moves by their scores, highest first; the moves stay the same.
pub fn order_moves(
    moves: &mut MoveList,
    board: &Chess,
    tt_move: Option<Move>,
    killer1: Option<(usize, usize)>,
    killer2: Option<(usize, usize)>,
    history: &[[i32; 64]; 64],
)
    requires
        forall|i: int| 0 <= i < old(moves)@.len() ==> (#[trigger] old(moves)@[i]).from < 64 && old(moves)@[i].to < 64,
    ensures
        final(moves)@.len() == old(moves)@.len(),
        forall|m: Move| #[trigger] final(moves)@.contains(m) <==> old(moves)@.contains(m),
        old(moves)@.no_duplicates() ==> final(moves)@.no_duplicates(),
        forall|a: int, b: int| 0 <= a < b < final(moves)@.len() ==> move_score(final(moves)@[a], board@.squares, tt_move, killer1,
            killer2, history@) >= move_score(final(moves)@[b], board@.squares, tt_move, killer1, killer2, history@),
            final(moves)@ == moves_of_scored(
                stable_sort_desc(scored_moves(old(moves)@, board@.squares, tt_move, killer1, killer2, history@)),
            ),
{
    let ghost unsorted = moves@;
    let mut keys: Vec<i32> = Vec::new();
    let mut i: usize = 0;
    while i < moves.len()
        invariant
            moves@ == unsorted,
            keys@.len() == i,
            i <= unsorted.len(),
            forall|j: int| 0 <= j < unsorted.len() ==> (#[trigger] unsorted[j]).from < 64 && unsorted[j].to < 64,
            forall|j: int| 0 <= j < i ==> keys@[j] == move_score(#[trigger] unsorted[j], board@.squares, tt_move, killer1, killer2, history@),
        decreases unsorted.len() - i,
    {
        let m = *moves.get(i);
        keys.push(score_move(&m, board, tt_move, killer1, killer2, history));
        i = i + 1;
    }
    let ghost keys0 = keys@;
    proof {
        assert(paired(unsorted, keys0) =~= scored_moves(unsorted, board@.squares, tt_move, killer1, killer2, history@));
    }
    moves.sort_by(&mut keys);
    proof {
        assert(moves_of_scored(paired(moves@, keys@)) =~= moves@);
        lemma_sorted_keys(unsorted, keys0, moves@, keys@, |mv: Move| move_score(mv, board@.squares, tt_move, killer1, killer2, history@));
        assert forall|a: int, b: int| 0 <= a < b < moves@.len() implies move_score(moves@[a], board@.squares, tt_move, killer1,
            killer2, history@) >= move_score(moves@[b], board@.squares, tt_move, killer1, killer2, history@) by {
            assert(keys@[a] == move_score(moves@[a], board@.squares, tt_move, killer1, killer2, history@));
            assert(keys@[b] == move_score(moves@[b], board@.squares, tt_move, killer1, killer2, history@));
        }
    }
}

} // verus!
