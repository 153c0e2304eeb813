use chess::chess::Chess;
use chess::color::Color;
use chess::moves::knight::{generate_knight_attacks, KnightAttacks};
use chess::moves::pawn::{generate_diagonal, generate_forward_1, generate_forward_2};
use chess::moves::ray::{blocked_ray_attack, ray, Rays};
use chess::utils::{bitboard_to_string, set_bit};

#[test]
fn knightattacks_print_knight_attacks() {
    let knight_attacks = KnightAttacks::new();
    println!("{}", bitboard_to_string(knight_attacks.0[3], Some(3)));
    println!("{}", bitboard_to_string(knight_attacks.0[30], Some(30)));
    println!("{}", bitboard_to_string(knight_attacks.0[39], Some(39)));
}

#[test]
fn knight_print_knight_attacks() {
    let knight_moves = generate_knight_attacks();
    println!("{}", bitboard_to_string(knight_moves[3], Some(3)));
    println!("{}", bitboard_to_string(knight_moves[30], Some(30)));
    println!("{}", bitboard_to_string(knight_moves[39], Some(39)));
}

#[test]
fn print_pawn_attacks() {
    let one = generate_forward_1(true);
    let two = generate_forward_2(true);
    let attacks = generate_diagonal(true);
    println!("{}", bitboard_to_string(one[9] | two[9] | attacks[9], Some(9)));
    println!("{}", bitboard_to_string(one[20] | two[20] | attacks[20], Some(20)));
}

#[test]
fn make_n_ray() {
    println!("{}", bitboard_to_string(ray(4, 4, 1, 1), Some((4 - 1) * 8 + 4 - 1)));
    println!("{}", bitboard_to_string(ray(4, 4, -1, 1), Some((4 - 1) * 8 + 4 - 1)));
}

#[test]
fn blocked_ray_forward_single_blocker() {
    let ray = ray(4, 4, 1, 1);

    let blocker = set_bit(0u64, 6, 6);
    let occupancy = blocker;

    let rays = Rays::new();
    let result = blocked_ray_attack(ray, &rays.northeast, true, occupancy);

    let mut expected = set_bit(0u64, 5, 5);
    expected = set_bit(expected, 6, 6);

    println!("Ray:\n{}", bitboard_to_string(ray, Some((4 - 1) * 8 + 4 - 1)));
    println!("Blocker:\n{}", bitboard_to_string(blocker, Some((6 - 1) * 8 + 6 - 1)));
    println!("Expected:\n{}", bitboard_to_string(expected, Some((4 - 1) * 8 + 4 - 1)));
    println!("Result:\n{}", bitboard_to_string(result, Some((4 - 1) * 8 + 4 - 1)));

    assert_eq!(
        result,
        expected,
        "\nExpected only squares before blocker\nresult:\n{}\nexpected:\n{}",
        bitboard_to_string(result, Some((4 - 1) * 8 + 4 - 1)),
        bitboard_to_string(expected, Some((4 - 1) * 8 + 4 - 1)),
    );
}

#[test]
fn test_check_detection() {
    let chess = Chess::from_fen("7r/5k2/8/8/8/8/R3K2R w - - 0 1");
    assert!(!chess.is_active_color_in_check());

    let chess = Chess::from_fen("7r/5k2/8/8/8/8/4K2R w - - 0 1");
    assert!(!chess.is_active_color_in_check());

    let chess = Chess::from_fen("r6r/5k2/8/8/8/8/4K2R w - - 0 1");
    assert!(!chess.is_active_color_in_check());
}

#[test]
fn test_move_legality_filters_check() {
    let chess = Chess::from_fen("4k3/8/8/8/8/8/r3K2R w - - 0 1");

    let moves = chess.generate_moves(chess.active_color);
    for mv in &moves {
        let mut temp = chess.clone();
        temp.apply_move(mv);
        temp.active_color = Color::White;
        assert!(
            !temp.is_active_color_in_check(),
            "Move {:?} was generated but leaves king in check!",
            mv
        );
    }
}
