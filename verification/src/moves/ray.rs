//! Rays and the attacks of sliding pieces.
use vstd::prelude::*;
use crate::bits::{holds, lowest, highest, lemma_has_and, lemma_has_xor, lemma_has_zero, lemma_lowest, lemma_highest};
use crate::moves::geometry::{row_of, col_of, on_ray, steps, slides_to, times, direction, straight_reach, diagonal_reach, lemma_square_of};
use crate::utils::{BitBoard, set_bit, bit_scan, bit_scan_backward, on_board};

verus! {

/// Along a forward ray square indices grow with the distance from the start.
pub open spec fn forward_dir(dr: int, dc: int) -> bool {
    dr == 1 || (dr == 0 && dc == 1)
}

/// The squares on a ray from an on-board start come in order of their index.
proof fn lemma_ray_order(row: int, col: int, dr: int, dc: int, u: int, v: int)
    requires
        on_board(row, col),
        direction(dr, dc),
        on_ray(row, col, dr, dc, u),
        on_ray(row, col, dr, dc, v),
    ensures
        steps(row, col, dr, dc, u) < steps(row, col, dr, dc, v) <==> (if forward_dir(dr, dc) {
            u < v
        } else {
            u > v
        }),
        steps(row, col, dr, dc, u) == steps(row, col, dr, dc, v) <==> u == v,
{
    assert(u == (row_of(u) - 1) * 8 + col_of(u) - 1);
    assert(v == (row_of(v) - 1) * 8 + col_of(v) - 1);
}

/// The ray from a square on the ray holds exactly the farther squares of the ray.
proof fn lemma_ray_from_square_on_ray(row: int, col: int, dr: int, dc: int, b: int, t: int)
    requires
        on_board(row, col),
        direction(dr, dc),
        on_ray(row, col, dr, dc, b),
    ensures
        on_ray(row_of(b), col_of(b), dr, dc, t) == (on_ray(row, col, dr, dc, t) && steps(
            row,
            col,
            dr,
            dc,
            t,
        ) > steps(row, col, dr, dc, b)),
{
}

/// The squares of the ray that leaves on-board 1-based (row, col) in direction (dr, dc).
pub fn ray(row: i32, col: i32, dr: i32, dc: i32) -> (r: BitBoard)
    requires
        on_board(row as int, col as int),
        direction(dr as int, dc as int),
    ensures
        forall|t: int| #[trigger] holds(r, t) == on_ray(row as int, col as int, dr as int, dc as int, t),
{
    let mut bitboard: BitBoard = 0;
    let mut r: i32 = row + dr;
    let mut c: i32 = col + dc;
    let ghost mut k: int = 1;
    proof {
        lemma_has_zero();
    }
    while r >= 1 && r <= 8 && c >= 1 && c <= 8
        invariant
            on_board(row as int, col as int),
            direction(dr as int, dc as int),
            k >= 1,
            r == row + times(k, dr as int),
            c == col + times(k, dc as int),
            forall|t: int| #[trigger] holds(bitboard, t) == (on_ray(row as int, col as int, dr as int, dc as int, t)
                && steps(row as int, col as int, dr as int, dc as int, t) < k),
        decreases (if dr == 1 { 9 - r } else if dr == -1 { r as int } else { 0 }) + (if dc == 1 {
            9 - c
        } else if dc == -1 {
            c as int
        } else {
            0
        }),
    {
        let ghost old_bb = bitboard;
        bitboard = set_bit(bitboard, r, c);
        proof {
            lemma_square_of(r as int, c as int);
            assert forall|t: int| #[trigger] holds(bitboard, t) == (on_ray(row as int, col as int, dr as int, dc as int, t)
                && steps(row as int, col as int, dr as int, dc as int, t) < k + 1) by {
                if 0 <= t < 64 {
                    assert(holds(old_bb, t) == (on_ray(row as int, col as int, dr as int, dc as int, t)
                        && steps(row as int, col as int, dr as int, dc as int, t) < k));
                }
            }
            k = k + 1;
        }
        r = r + dr;
        c = c + dc;
    }
    proof {
        assert forall|t: int| #[trigger] holds(bitboard, t) == on_ray(row as int, col as int, dr as int, dc as int, t) by {
            if on_ray(row as int, col as int, dr as int, dc as int, t) {
                assert(steps(row as int, col as int, dr as int, dc as int, t) < k);
            }
        }
    }
    bitboard
}

/// The rays of one direction from every square.
pub fn generate_ray_family(dr: i32, dc: i32) -> (r: [BitBoard; 64])
    requires
        direction(dr as int, dc as int),
    ensures
        forall|sq: int, t: int|
            0 <= sq < 64 ==> #[trigger] holds(r[sq], t) == on_ray(row_of(sq), col_of(sq), dr as int, dc as int, t),
{
    let mut rays: [BitBoard; 64] = [0; 64];
    let mut sq: usize = 0;
    while sq < 64
        invariant
            sq <= 64,
            direction(dr as int, dc as int),
            forall|s: int, t: int|
                0 <= s < sq ==> #[trigger] holds(rays[s], t) == on_ray(row_of(s), col_of(s), dr as int, dc as int, t),
        decreases 64 - sq,
    {
        rays[sq] = ray((sq / 8 + 1) as i32, (sq % 8 + 1) as i32, dr, dc);
        sq = sq + 1;
    }
    rays
}

/// The square where a ray meets the board's occupancy first.
pub open spec fn first_blocker(overlap: u64, forward: bool) -> int {
    if forward {
        lowest(overlap)
    } else {
        highest(overlap)
    }
}

/// The squares of a ray up to and including its first occupied square, from the ray, the rays of
/// its direction from every square, and whether square indices grow along it.
pub fn blocked_ray_attack(
    ray: BitBoard,
    ray_family: &[BitBoard; 64],
    forward_ray: bool,
    occupancy: BitBoard,
) -> (r: BitBoard)
    ensures
        (ray & occupancy) == 0 ==> r == ray,
        (ray & occupancy) != 0 ==> r == ray ^ ray_family[first_blocker(ray & occupancy, forward_ray)],
        forall|row: int, col: int, dr: int, dc: int, t: int|
            #![trigger on_ray(row, col, dr, dc, t), holds(r, t)]
            on_board(row, col) && direction(dr, dc) && forward_ray == forward_dir(dr, dc)
                && (forall|i: int| 0 <= i < 64 ==> #[trigger] holds(ray, i) == on_ray(row, col, dr, dc, i))
                && (forall|s: int, i: int|
                0 <= s < 64 ==> #[trigger] holds(ray_family[s], i) == on_ray(
                    row_of(s),
                    col_of(s),
                    dr,
                    dc,
                    i,
                )) ==> (holds(r, t) == slides_to(row, col, dr, dc, occupancy, t)),
{
    let overlap: u64 = ray & occupancy;
    if overlap == 0 {
        proof {
            assert forall|row: int, col: int, dr: int, dc: int, t: int|
                #![trigger on_ray(row, col, dr, dc, t), holds(ray, t)]
                on_board(row, col) && direction(dr, dc) && forward_ray == forward_dir(dr, dc)
                    && (forall|i: int| 0 <= i < 64 ==> #[trigger] holds(ray, i) == on_ray(row, col, dr, dc, i))
                    && (forall|s: int, i: int|
                    0 <= s < 64 ==> #[trigger] holds(ray_family[s], i) == on_ray(
                        row_of(s),
                        col_of(s),
                        dr,
                        dc,
                        i,
                    )) implies (holds(ray, t) == slides_to(row, col, dr, dc, occupancy, t)) by {
                lemma_empty_overlap(ray, occupancy, row, col, dr, dc, t);
            }
        }
        return ray;
    }
    let blocker: usize = if forward_ray {
        bit_scan(overlap)
    } else {
        bit_scan_backward(overlap)
    };
    proof {
        if forward_ray {
            lemma_lowest(overlap);
        } else {
            lemma_highest(overlap);
        }
        lemma_has_xor(ray, ray_family[blocker as int]);
        assert forall|row: int, col: int, dr: int, dc: int, t: int|
            #![trigger on_ray(row, col, dr, dc, t), holds(ray ^ ray_family[blocker as int], t)]
            on_board(row, col) && direction(dr, dc) && forward_ray == forward_dir(dr, dc)
                && (forall|i: int| 0 <= i < 64 ==> #[trigger] holds(ray, i) == on_ray(row, col, dr, dc, i))
                && (forall|s: int, i: int|
                0 <= s < 64 ==> #[trigger] holds(ray_family[s], i) == on_ray(
                    row_of(s),
                    col_of(s),
                    dr,
                    dc,
                    i,
                )) implies (holds(ray ^ ray_family[blocker as int], t) == slides_to(
                row,
                col,
                dr,
                dc,
                occupancy,
                t,
            )) by {
            lemma_blocked(ray, occupancy, forward_ray, blocker as int, ray_family[blocker as int], row, col, dr, dc, t);
        }
    }
    ray ^ ray_family[blocker]
}

proof fn lemma_empty_overlap(ray: u64, occ: u64, row: int, col: int, dr: int, dc: int, t: int)
    requires
        ray & occ == 0,
        forall|i: int| 0 <= i < 64 ==> #[trigger] holds(ray, i) == on_ray(row, col, dr, dc, i),
    ensures
        holds(ray, t) == slides_to(row, col, dr, dc, occ, t),
{
    lemma_has_and(ray, occ);
    lemma_has_zero();
    if on_ray(row, col, dr, dc, t) {
        assert forall|u: int|
            #![trigger on_ray(row, col, dr, dc, u)]
            on_ray(row, col, dr, dc, u) && steps(row, col, dr, dc, u) < steps(row, col, dr, dc, t)
                implies !holds(occ, u) by {
            assert(holds(ray, u));
            assert(!holds(ray & occ, u));
        }
    }
}

/// The ray cut at its first occupied square is what a sliding piece reaches.
proof fn lemma_blocked(
    ray: u64,
    occ: u64,
    forward: bool,
    b: int,
    after: u64,
    row: int,
    col: int,
    dr: int,
    dc: int,
    t: int,
)
    requires
        on_board(row, col),
        direction(dr, dc),
        forward == forward_dir(dr, dc),
        forall|i: int| 0 <= i < 64 ==> #[trigger] holds(ray, i) == on_ray(row, col, dr, dc, i),
        forall|i: int| 0 <= i < 64 ==> #[trigger] holds(after, i) == on_ray(row_of(b), col_of(b), dr, dc, i),
        0 <= b < 64,
        holds(ray & occ, b),
        forall|i: int|
            0 <= i < 64 && (if forward { i < b } else { i > b }) ==> !#[trigger] holds(ray & occ, i),
    ensures
        holds(ray ^ after, t) == slides_to(row, col, dr, dc, occ, t),
{
    lemma_has_and(ray, occ);
    lemma_has_xor(ray, after);
    assert(on_ray(row, col, dr, dc, b));
    assert(holds(occ, b));
    if 0 <= t < 64 {
        lemma_ray_from_square_on_ray(row, col, dr, dc, b, t);
        if on_ray(row, col, dr, dc, t) {
            lemma_ray_order(row, col, dr, dc, b, t);
            if steps(row, col, dr, dc, t) <= steps(row, col, dr, dc, b) {
                assert forall|u: int|
                    #![trigger on_ray(row, col, dr, dc, u)]
                    on_ray(row, col, dr, dc, u) && steps(row, col, dr, dc, u) < steps(
                        row,
                        col,
                        dr,
                        dc,
                        t,
                    ) implies !holds(occ, u) by {
                    lemma_ray_order(row, col, dr, dc, u, b);
                    assert(holds(ray, u));
                    if holds(occ, u) {
                        assert(holds(ray & occ, u));
                    }
                }
            } else {
                assert(on_ray(row, col, dr, dc, b));
            }
        }
    }
}

/// What a slider on square `sq` reaches in direction (dr, dc) on the given occupancy.
pub fn slide(sq: usize, dr: i32, dc: i32, occupancy: BitBoard) -> (r: BitBoard)
    requires
        sq < 64,
        direction(dr as int, dc as int),
    ensures
        forall|t: int| #[trigger] holds(r, t) == slides_to(row_of(sq as int), col_of(sq as int), dr as int, dc as int, occupancy, t),
{
    let row = (sq / 8 + 1) as i32;
    let col = (sq % 8 + 1) as i32;
    let ray_bb = ray(row, col, dr, dc);
    let overlap: u64 = ray_bb & occupancy;
    if overlap == 0 {
        proof {
            assert forall|t: int| #[trigger] holds(ray_bb, t) == slides_to(row as int, col as int, dr as int, dc as int, occupancy, t) by {
                lemma_empty_overlap(ray_bb, occupancy, row as int, col as int, dr as int, dc as int, t);
            }
        }
        return ray_bb;
    }
    let forward = dr == 1 || (dr == 0 && dc == 1);
    let blocker: usize = if forward {
        bit_scan(overlap)
    } else {
        bit_scan_backward(overlap)
    };
    proof {
        if forward {
            lemma_lowest(overlap);
        } else {
            lemma_highest(overlap);
        }
        lemma_has_and(ray_bb, occupancy);
    }
    let after = ray((blocker / 8 + 1) as i32, (blocker % 8 + 1) as i32, dr, dc);
    proof {
        lemma_has_xor(ray_bb, after);
        assert forall|t: int| #[trigger] holds(ray_bb ^ after, t) == slides_to(row as int, col as int, dr as int, dc as int, occupancy, t) by {
            lemma_blocked(ray_bb, occupancy, forward, blocker as int, after, row as int, col as int, dr as int, dc as int, t);
        }
    }
    ray_bb ^ after
}

/// Squares a rook on `square` attacks on the given occupancy.
pub fn straight_attacks(square: usize, occupancy: BitBoard) -> (r: BitBoard)
    requires
        square < 64,
    ensures
        forall|t: int| #[trigger] holds(r, t) == straight_reach(square as int, occupancy, t),
{
    let a = slide(square, 1, 0, occupancy);
    let b = slide(square, -1, 0, occupancy);
    let c = slide(square, 0, 1, occupancy);
    let d = slide(square, 0, -1, occupancy);
    proof {
        crate::bits::lemma_has_or(a, b);
        crate::bits::lemma_has_or(a | b, c);
        crate::bits::lemma_has_or(a | b | c, d);
    }
    a | b | c | d
}

/// Squares a bishop on `square` attacks on the given occupancy.
pub fn diagonal_attacks(square: usize, occupancy: BitBoard) -> (r: BitBoard)
    requires
        square < 64,
    ensures
        forall|t: int| #[trigger] holds(r, t) == diagonal_reach(square as int, occupancy, t),
{
    let a = slide(square, 1, 1, occupancy);
    let b = slide(square, 1, -1, occupancy);
    let c = slide(square, -1, 1, occupancy);
    let d = slide(square, -1, -1, occupancy);
    proof {
        crate::bits::lemma_has_or(a, b);
        crate::bits::lemma_has_or(a | b, c);
        crate::bits::lemma_has_or(a | b | c, d);
    }
    a | b | c | d
}

/// Every square's ray holds the squares along direction (dr, dc) from it.
pub open spec fn ray_family(f: [BitBoard; 64], dr: int, dc: int) -> bool {
    forall|sq: int, t: int|
        0 <= sq < 64 ==> #[trigger] holds(f[sq], t) == on_ray(row_of(sq), col_of(sq), dr, dc, t)
}

/// The rays of the eight directions from every square.
pub struct Rays {
    pub north: [BitBoard; 64],
    pub south: [BitBoard; 64],
    pub east: [BitBoard; 64],
    pub west: [BitBoard; 64],
    pub northeast: [BitBoard; 64],
    pub northwest: [BitBoard; 64],
    pub southeast: [BitBoard; 64],
    pub southwest: [BitBoard; 64],
}

impl Rays {
    pub fn new() -> (r: Self)
        ensures
            ray_family(r.north, 1, 0),
            ray_family(r.south, -1, 0),
            ray_family(r.east, 0, 1),
            ray_family(r.west, 0, -1),
            ray_family(r.northeast, 1, 1),
            ray_family(r.northwest, 1, -1),
            ray_family(r.southeast, -1, 1),
            ray_family(r.southwest, -1, -1),
    {
        Rays {
            north: generate_ray_family(1, 0),
            south: generate_ray_family(-1, 0),
            east: generate_ray_family(0, 1),
            west: generate_ray_family(0, -1),
            northeast: generate_ray_family(1, 1),
            northwest: generate_ray_family(1, -1),
            southeast: generate_ray_family(-1, 1),
            southwest: generate_ray_family(-1, -1),
        }
    }
}

} // verus!
