//! Perft: the number of move paths of a given length, for checking move generation against
//! known values.
use vstd::prelude::*;
use crate::apply_undo_move::{Move, position_after};
use crate::chess::{Chess, Position};
use crate::color::Color;
use crate::movegeneration::{legal_moves, legal_move, lemma_legal_count, lemma_pseudo_reversible, lemma_legal_same};
use crate::apply_undo_move::lemma_undo_inverts_apply;
use crate::movelist::MoveList;

verus! {

/// The legal moves of the side to move in a position.
pub open spec fn legal_set(p: Position) -> Set<Move> {
    Set::new(|m: Move| exists|b: Chess| b.wf() && b@ == p && legal_move(b, p.active_color, m))
}

/// The number of move paths `d` plies long from `p` (at one ply or less: its legal moves).
pub open spec fn perft_count(p: Position, d: int) -> int
    decreases d, 1int, 0int,
{
    if d <= 1 {
        legal_set(p).len() as int
    } else {
        children_sum(p, d, legal_set(p))
    }
}

/// The sum, over the moves of `s`, of the paths `d - 1` plies long after each.
pub open spec fn children_sum(p: Position, d: int, s: Set<Move>) -> int
    decreases d, 0int, s.len(),
{
    if d <= 1 || !s.finite() || s.len() == 0 {
        0
    } else {
        let m = s.choose();
        perft_count(position_after(p, m), d - 1) + children_sum(p, d, s.remove(m))
    }
}

/// The same sum over the moves of a list, in order.
pub open spec fn list_sum(p: Position, d: int, s: Seq<Move>) -> int
    decreases s.len(),
{
    if s.len() == 0 {
        0
    } else {
        list_sum(p, d, s.drop_last()) + perft_count(position_after(p, s.last()), d - 1)
    }
}

/// Two to the sixty-fourth: counts are kept modulo this.
pub open spec fn count_modulus() -> int {
    0x1_0000_0000_0000_0000
}

pub proof fn lemma_legal_set(b: Chess)
    requires
        b.wf(),
    ensures
        legal_set(b@) == legal_moves(b, b.active_color),
{
    assert forall|m: Move| #[trigger] legal_set(b@).contains(m) == legal_moves(b, b.active_color).contains(m) by {
        if legal_set(b@).contains(m) {
            let c = choose|c: Chess| c.wf() && c@ == b@ && legal_move(c, b@.active_color, m);
            lemma_legal_same(c, b, b.active_color, m);
        }
    }
    assert(legal_set(b@) =~= legal_moves(b, b.active_color));
}

/// The sum does not depend on which move is taken out first.
proof fn lemma_children_sum_remove(p: Position, d: int, s: Set<Move>, a: Move)
    requires
        d >= 2,
        s.finite(),
        s.contains(a),
    ensures
        children_sum(p, d, s) == perft_count(position_after(p, a), d - 1) + children_sum(p, d, s.remove(a)),
    decreases s.len(),
{
    assert(s.len() > 0);
    let m = s.choose();
    if m != a {
        lemma_children_sum_remove(p, d, s.remove(m), a);
        lemma_children_sum_remove(p, d, s.remove(a), m);
        assert(s.remove(m).remove(a) =~= s.remove(a).remove(m));
    }
}

/// Summing over a list without duplicates is summing over its set.
proof fn lemma_list_sum(p: Position, d: int, s: Seq<Move>)
    requires
        d >= 2,
        s.no_duplicates(),
    ensures
        list_sum(p, d, s) == children_sum(p, d, s.to_set()),
    decreases s.len(),
{
    if s.len() == 0 {
        assert(s.to_set() =~= Set::<Move>::empty());
    } else {
        let t = s.drop_last();
        let x = s.last();
        assert(t.no_duplicates()) by {
            assert forall|i: int, j: int| 0 <= i < j < t.len() implies t[i] != t[j] by {
                assert(t[i] == s[i] && t[j] == s[j]);
            }
        }
        lemma_list_sum(p, d, t);
        assert(!t.contains(x)) by {
            if t.contains(x) {
                let i = choose|i: int| 0 <= i < t.len() && t[i] == x;
                assert(s[i] == s[s.len() - 1]);
            }
        }
        assert forall|y: Move| #[trigger] s.to_set().remove(x).contains(y) == t.to_set().contains(y) by {
            if s.contains(y) && y != x {
                let i = choose|i: int| 0 <= i < s.len() && s[i] == y;
                assert(i < s.len() - 1);
                assert(t[i] == y);
            }
            if t.contains(y) {
                let i = choose|i: int| 0 <= i < t.len() && t[i] == y;
                assert(s[i] == y);
            }
        }
        assert(s.to_set().remove(x) =~= t.to_set());
        assert(s.to_set().contains(x)) by {
            assert(s[s.len() - 1] == x);
        }
        vstd::seq_lib::seq_to_set_is_finite(s);
        lemma_children_sum_remove(p, d, s.to_set(), x);
    }
}

/// Counts the leaf positions `depth` plies below the board, playing and taking back the legal
/// moves of the side to move; the board ends as it started. At depth one (or less) the count is
/// the number of legal moves.
pub fn perft(board: &mut Chess, depth: u32) -> (r: u64)
    requires
        old(board).wf(),
        old(board).fullmove_number + depth < usize::MAX,
    ensures
        final(board).wf(),
        final(board)@ == old(board)@,
        depth <= 1 ==> r == legal_moves(*old(board), old(board).active_color).len(),
        r == perft_count(old(board)@, depth as int) % count_modulus(),
    decreases depth,
{
    let ghost b0 = *board;
    let mut moves = MoveList::new();
    let color = board.active_color;
    board.generate_moves_into(color, &mut moves);
    proof {
        lemma_legal_count(b0, color, moves@);
        lemma_legal_set(b0);
    }
    if depth <= 1 {
        return moves.len() as u64;
    }
    proof {
        assert(moves@.to_set() =~= legal_moves(b0, color));
        lemma_list_sum(b0@, depth as int, moves@);
    }
    let mut count: u64 = 0;
    let mut i: usize = 0;
    while i < moves.len()
        invariant
            board.wf(),
            board@ == b0@,
            b0.wf(),
            b0.fullmove_number + depth < usize::MAX,
            depth >= 2,
            color == b0.active_color,
            forall|m| #[trigger] moves@.contains(m) <==> legal_move(b0, color, m),
            i <= moves@.len(),
            count == list_sum(b0@, depth as int, moves@.subrange(0, i as int)) % count_modulus(),
        decreases moves@.len() - i,
    {
        let m = *moves.get(i);
        proof {
            assert(moves@.contains(m));
            lemma_pseudo_reversible(b0, color, m);
            lemma_undo_inverts_apply(b0@, m);
        }
        let history = board.apply_move(&m);
        let sub = perft(board, depth - 1);
        board.undo_move(&history);
        proof {
            let prev = list_sum(b0@, depth as int, moves@.subrange(0, i as int));
            let g = perft_count(position_after(b0@, m), depth - 1);
            assert(moves@.subrange(0, i + 1).drop_last() =~= moves@.subrange(0, i as int));
            assert(list_sum(b0@, depth as int, moves@.subrange(0, i + 1)) == prev + g);
            vstd::arithmetic::div_mod::lemma_add_mod_noop(prev, g, count_modulus());
        }
        count = count.wrapping_add(sub);
        i = i + 1;
    }
    proof {
        assert(moves@.subrange(0, moves@.len() as int) =~= moves@);
    }
    count
}

} // verus!
