//! How pieces step and slide over the 8x8 board, stated over square indices.
use vstd::prelude::*;
use crate::bits::holds;

verus! {

/// 1-based row of square `t` (0..64).
pub open spec fn row_of(t: int) -> int {
    t / 8 + 1
}

/// 1-based column of square `t` (0..64).
pub open spec fn col_of(t: int) -> int {
    t % 8 + 1
}

pub open spec fn abs(x: int) -> int {
    if x < 0 {
        -x
    } else {
        x
    }
}

/// A knight on (row, col) reaches square `t`.
pub open spec fn knight_reach(row: int, col: int, t: int) -> bool {
    0 <= t < 64 && {
        let a = abs(row_of(t) - row);
        let b = abs(col_of(t) - col);
        (a == 1 && b == 2) || (a == 2 && b == 1)
    }
}

/// A king on (row, col) reaches square `t`.
pub open spec fn king_reach(row: int, col: int, t: int) -> bool {
    0 <= t < 64 && {
        let a = abs(row_of(t) - row);
        let b = abs(col_of(t) - col);
        a <= 1 && b <= 1 && !(a == 0 && b == 0)
    }
}

/// A pawn on (row, col) of the given side attacks square `t` (one row forward, one column aside).
pub open spec fn pawn_attack_reach(row: int, col: int, white: bool, t: int) -> bool {
    0 <= t < 64 && row_of(t) == (if white { row + 1 } else { row - 1 }) && abs(col_of(t) - col)
        == 1
}

/// `k * d` for a unit step `d`.
pub open spec fn times(k: int, d: int) -> int {
    if d == 1 {
        k
    } else if d == -1 {
        -k
    } else {
        0
    }
}

/// A direction of a sliding piece: each component -1, 0 or 1, not both 0.
pub open spec fn direction(dr: int, dc: int) -> bool {
    -1 <= dr <= 1 && -1 <= dc <= 1 && !(dr == 0 && dc == 0)
}

/// Number of steps from (row, col) to square `t` along (dr, dc).
pub open spec fn steps(row: int, col: int, dr: int, dc: int, t: int) -> int {
    if dr != 0 {
        times(row_of(t) - row, dr)
    } else {
        times(col_of(t) - col, dc)
    }
}

/// Square `t` lies on the ray that leaves (row, col) in direction (dr, dc)
/// (the start itself excluded).
pub open spec fn on_ray(row: int, col: int, dr: int, dc: int, t: int) -> bool {
    0 <= t < 64 && steps(row, col, dr, dc, t) >= 1 && row_of(t) == row + times(
        steps(row, col, dr, dc, t),
        dr,
    ) && col_of(t) == col + times(steps(row, col, dr, dc, t), dc)
}

/// A sliding piece on (row, col) moving in direction (dr, dc) reaches `t`: `t` is on the
/// ray and no occupied square lies strictly between.
pub open spec fn slides_to(row: int, col: int, dr: int, dc: int, occ: u64, t: int) -> bool {
    on_ray(row, col, dr, dc, t) && forall|u: int|
        #![trigger on_ray(row, col, dr, dc, u)]
        on_ray(row, col, dr, dc, u) && steps(row, col, dr, dc, u) < steps(row, col, dr, dc, t)
            ==> !holds(occ, u)
}

/// Rook-like reach from square `s`.
pub open spec fn straight_reach(s: int, occ: u64, t: int) -> bool {
    let r = row_of(s);
    let c = col_of(s);
    slides_to(r, c, 1, 0, occ, t) || slides_to(r, c, -1, 0, occ, t) || slides_to(r, c, 0, 1, occ, t)
        || slides_to(r, c, 0, -1, occ, t)
}

/// Bishop-like reach from square `s`.
pub open spec fn diagonal_reach(s: int, occ: u64, t: int) -> bool {
    let r = row_of(s);
    let c = col_of(s);
    slides_to(r, c, 1, 1, occ, t) || slides_to(r, c, 1, -1, occ, t) || slides_to(r, c, -1, 1, occ, t)
        || slides_to(r, c, -1, -1, occ, t)
}

/// The square at 1-based (r, c) is `t` exactly when `t` has that row and column.
pub proof fn lemma_square_of(r: int, c: int)
    ensures
        forall|t: int|
            #![trigger crate::utils::square_of(r, c), row_of(t), col_of(t)]
            (crate::utils::on_board(r, c) && t == crate::utils::square_of(r, c)) == (0 <= t < 64
                && row_of(t) == r && col_of(t) == c),
{
}

} // verus!
