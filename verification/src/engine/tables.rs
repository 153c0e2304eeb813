//! The static evaluation of a board: material, piece-square tables, mobility, king safety,
//! development, the bishop pair and passed pawns.
use vstd::prelude::*;

verus! {

/// The pawn piece-square table, first rank first, from White's side.
pub open spec fn pawn_table() -> Seq<i32> {
    seq![
        0i32, 0i32, 0i32, 0i32, 0i32, 0i32, 0i32, 0i32,
        10i32, 10i32, 10i32, 10i32, 10i32, 10i32, 10i32, 10i32,
        10i32, 10i32, 10i32, 10i32, 10i32, 10i32, 10i32, 10i32,
        20i32, 20i32, 20i32, 20i32, 20i32, 20i32, 20i32, 20i32,
        30i32, 30i32, 30i32, 30i32, 30i32, 30i32, 30i32, 30i32,
        40i32, 40i32, 40i32, 40i32, 40i32, 40i32, 40i32, 40i32,
        50i32, 50i32, 50i32, 50i32, 50i32, 50i32, 50i32, 50i32,
        0i32, 0i32, 0i32, 0i32, 0i32, 0i32, 0i32, 0i32
    ]
}

pub fn pawn_table_values() -> (r: [i32; 64])
    ensures
        r@ == pawn_table(),
{
    let r: [i32; 64] = [
        0, 0, 0, 0, 0, 0, 0, 0,
        10, 10, 10, 10, 10, 10, 10, 10,
        10, 10, 10, 10, 10, 10, 10, 10,
        20, 20, 20, 20, 20, 20, 20, 20,
        30, 30, 30, 30, 30, 30, 30, 30,
        40, 40, 40, 40, 40, 40, 40, 40,
        50, 50, 50, 50, 50, 50, 50, 50,
        0, 0, 0, 0, 0, 0, 0, 0
    ];
    assert(r@ =~= pawn_table());
    r
}

/// The knight piece-square table, first rank first, from White's side.
pub open spec fn knight_table() -> Seq<i32> {
    seq![
        -50i32, -40i32, -30i32, -30i32, -30i32, -30i32, -40i32, -50i32,
        -40i32, -20i32, 0i32, 5i32, 5i32, 0i32, -20i32, -40i32,
        -30i32, 0i32, 10i32, 15i32, 15i32, 10i32, 0i32, -30i32,
        -30i32, 5i32, 15i32, 20i32, 20i32, 15i32, 5i32, -30i32,
        -30i32, 0i32, 15i32, 20i32, 20i32, 15i32, 0i32, -30i32,
        -30i32, 5i32, 10i32, 15i32, 15i32, 10i32, 5i32, -30i32,
        -40i32, -20i32, 0i32, 5i32, 5i32, 0i32, -20i32, -40i32,
        -50i32, -40i32, -30i32, -30i32, -30i32, -30i32, -40i32, -50i32
    ]
}

pub fn knight_table_values() -> (r: [i32; 64])
    ensures
        r@ == knight_table(),
{
    let r: [i32; 64] = [
        -50, -40, -30, -30, -30, -30, -40, -50,
        -40, -20, 0, 5, 5, 0, -20, -40,
        -30, 0, 10, 15, 15, 10, 0, -30,
        -30, 5, 15, 20, 20, 15, 5, -30,
        -30, 0, 15, 20, 20, 15, 0, -30,
        -30, 5, 10, 15, 15, 10, 5, -30,
        -40, -20, 0, 5, 5, 0, -20, -40,
        -50, -40, -30, -30, -30, -30, -40, -50
    ];
    assert(r@ =~= knight_table());
    r
}

/// The bishop piece-square table, first rank first, from White's side.
pub open spec fn bishop_table() -> Seq<i32> {
    seq![
        -20i32, -10i32, -10i32, -10i32, -10i32, -10i32, -10i32, -20i32,
        -10i32, 0i32, 0i32, 0i32, 0i32, 0i32, 0i32, -10i32,
        -10i32, 0i32, 5i32, 10i32, 10i32, 5i32, 0i32, -10i32,
        -10i32, 5i32, 5i32, 10i32, 10i32, 5i32, 5i32, -10i32,
        -10i32, 0i32, 10i32, 10i32, 10i32, 10i32, 0i32, -10i32,
        -10i32, 10i32, 10i32, 10i32, 10i32, 10i32, 10i32, -10i32,
        -10i32, 5i32, 0i32, 0i32, 0i32, 0i32, 5i32, -10i32,
        -20i32, -10i32, -10i32, -10i32, -10i32, -10i32, -10i32, -20i32
    ]
}

pub fn bishop_table_values() -> (r: [i32; 64])
    ensures
        r@ == bishop_table(),
{
    let r: [i32; 64] = [
        -20, -10, -10, -10, -10, -10, -10, -20,
        -10, 0, 0, 0, 0, 0, 0, -10,
        -10, 0, 5, 10, 10, 5, 0, -10,
        -10, 5, 5, 10, 10, 5, 5, -10,
        -10, 0, 10, 10, 10, 10, 0, -10,
        -10, 10, 10, 10, 10, 10, 10, -10,
        -10, 5, 0, 0, 0, 0, 5, -10,
        -20, -10, -10, -10, -10, -10, -10, -20
    ];
    assert(r@ =~= bishop_table());
    r
}

/// The rook piece-square table, first rank first, from White's side.
pub open spec fn rook_table() -> Seq<i32> {
    seq![
        0i32, 0i32, 0i32, 5i32, 5i32, 0i32, 0i32, 0i32,
        -5i32, 0i32, 0i32, 0i32, 0i32, 0i32, 0i32, -5i32,
        -5i32, 0i32, 0i32, 0i32, 0i32, 0i32, 0i32, -5i32,
        -5i32, 0i32, 0i32, 0i32, 0i32, 0i32, 0i32, -5i32,
        -5i32, 0i32, 0i32, 0i32, 0i32, 0i32, 0i32, -5i32,
        -5i32, 0i32, 0i32, 0i32, 0i32, 0i32, 0i32, -5i32,
        5i32, 10i32, 10i32, 10i32, 10i32, 10i32, 10i32, 5i32,
        0i32, 0i32, 0i32, 0i32, 0i32, 0i32, 0i32, 0i32
    ]
}

pub fn rook_table_values() -> (r: [i32; 64])
    ensures
        r@ == rook_table(),
{
    let r: [i32; 64] = [
        0, 0, 0, 5, 5, 0, 0, 0,
        -5, 0, 0, 0, 0, 0, 0, -5,
        -5, 0, 0, 0, 0, 0, 0, -5,
        -5, 0, 0, 0, 0, 0, 0, -5,
        -5, 0, 0, 0, 0, 0, 0, -5,
        -5, 0, 0, 0, 0, 0, 0, -5,
        5, 10, 10, 10, 10, 10, 10, 5,
        0, 0, 0, 0, 0, 0, 0, 0
    ];
    assert(r@ =~= rook_table());
    r
}

/// The queen piece-square table, first rank first, from White's side.
pub open spec fn queen_table() -> Seq<i32> {
    seq![
        -20i32, -10i32, -10i32, -5i32, -5i32, -10i32, -10i32, -20i32,
        -10i32, 0i32, 0i32, 0i32, 0i32, 0i32, 0i32, -10i32,
        -10i32, 0i32, 5i32, 5i32, 5i32, 5i32, 0i32, -10i32,
        -5i32, 0i32, 5i32, 5i32, 5i32, 5i32, 0i32, -5i32,
        0i32, 0i32, 5i32, 5i32, 5i32, 5i32, 0i32, 0i32,
        -10i32, 5i32, 5i32, 5i32, 5i32, 5i32, 0i32, -10i32,
        -10i32, 0i32, 5i32, 0i32, 0i32, 0i32, 0i32, -10i32,
        -20i32, -10i32, -10i32, -5i32, -5i32, -10i32, -10i32, -20i32
    ]
}

pub fn queen_table_values() -> (r: [i32; 64])
    ensures
        r@ == queen_table(),
{
    let r: [i32; 64] = [
        -20, -10, -10, -5, -5, -10, -10, -20,
        -10, 0, 0, 0, 0, 0, 0, -10,
        -10, 0, 5, 5, 5, 5, 0, -10,
        -5, 0, 5, 5, 5, 5, 0, -5,
        0, 0, 5, 5, 5, 5, 0, 0,
        -10, 5, 5, 5, 5, 5, 0, -10,
        -10, 0, 5, 0, 0, 0, 0, -10,
        -20, -10, -10, -5, -5, -10, -10, -20
    ];
    assert(r@ =~= queen_table());
    r
}

/// The mg king piece-square table, first rank first, from White's side.
pub open spec fn mg_king_table() -> Seq<i32> {
    seq![
        20i32, 30i32, 10i32, 0i32, 0i32, 10i32, 30i32, 20i32,
        20i32, 20i32, 0i32, 0i32, 0i32, 0i32, 20i32, 20i32,
        -10i32, -20i32, -20i32, -20i32, -20i32, -20i32, -20i32, -10i32,
        -20i32, -30i32, -30i32, -40i32, -40i32, -30i32, -30i32, -20i32,
        -30i32, -40i32, -40i32, -50i32, -50i32, -40i32, -40i32, -30i32,
        -30i32, -40i32, -40i32, -50i32, -50i32, -40i32, -40i32, -30i32,
        -30i32, -40i32, -40i32, -50i32, -50i32, -40i32, -40i32, -30i32,
        -30i32, -40i32, -40i32, -50i32, -50i32, -40i32, -40i32, -30i32
    ]
}

pub fn mg_king_table_values() -> (r: [i32; 64])
    ensures
        r@ == mg_king_table(),
{
    let r: [i32; 64] = [
        20, 30, 10, 0, 0, 10, 30, 20,
        20, 20, 0, 0, 0, 0, 20, 20,
        -10, -20, -20, -20, -20, -20, -20, -10,
        -20, -30, -30, -40, -40, -30, -30, -20,
        -30, -40, -40, -50, -50, -40, -40, -30,
        -30, -40, -40, -50, -50, -40, -40, -30,
        -30, -40, -40, -50, -50, -40, -40, -30,
        -30, -40, -40, -50, -50, -40, -40, -30
    ];
    assert(r@ =~= mg_king_table());
    r
}

/// The eg king piece-square table, first rank first, from White's side.
pub open spec fn eg_king_table() -> Seq<i32> {
    seq![
        -50i32, -40i32, -30i32, -20i32, -20i32, -30i32, -40i32, -50i32,
        -30i32, -20i32, -10i32, 0i32, 0i32, -10i32, -20i32, -30i32,
        -30i32, -10i32, 20i32, 30i32, 30i32, 20i32, -10i32, -30i32,
        -30i32, -10i32, 30i32, 40i32, 40i32, 30i32, -10i32, -30i32,
        -30i32, -10i32, 30i32, 40i32, 40i32, 30i32, -10i32, -30i32,
        -30i32, -10i32, 20i32, 30i32, 30i32, 20i32, -10i32, -30i32,
        -30i32, -30i32, 0i32, 0i32, 0i32, 0i32, -30i32, -30i32,
        -50i32, -30i32, -30i32, -30i32, -30i32, -30i32, -30i32, -50i32
    ]
}

pub fn eg_king_table_values() -> (r: [i32; 64])
    ensures
        r@ == eg_king_table(),
{
    let r: [i32; 64] = [
        -50, -40, -30, -20, -20, -30, -40, -50,
        -30, -20, -10, 0, 0, -10, -20, -30,
        -30, -10, 20, 30, 30, 20, -10, -30,
        -30, -10, 30, 40, 40, 30, -10, -30,
        -30, -10, 30, 40, 40, 30, -10, -30,
        -30, -10, 20, 30, 30, 20, -10, -30,
        -30, -30, 0, 0, 0, 0, -30, -30,
        -50, -30, -30, -30, -30, -30, -30, -50
    ];
    assert(r@ =~= eg_king_table());
    r
}

} // verus!
