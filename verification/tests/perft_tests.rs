use chess::chess::Chess;
use chess::perft::perft;

#[test]
fn perft_starting_d1() {
    let mut board = Chess::new();
    assert_eq!(perft(&mut board, 1), 20);
}

#[test]
fn perft_starting_d2() {
    let mut board = Chess::new();
    assert_eq!(perft(&mut board, 2), 400);
}

#[test]
fn perft_starting_d3() {
    let mut board = Chess::new();
    assert_eq!(perft(&mut board, 3), 8902);
}

#[test]
fn perft_starting_d4() {
    let mut board = Chess::new();
    assert_eq!(perft(&mut board, 4), 197281);
}

#[test]
fn perft_kiwipete_d1() {
    let mut board = Chess::from_fen("r3k2r/p1ppqpb1/bn2pnp1/3PN3/1p2P3/2N2Q1p/PPPBBPPP/R3K2R w KQkq - 0 1");
    assert_eq!(perft(&mut board, 1), 48);
}

#[test]
fn perft_kiwipete_d2() {
    let mut board = Chess::from_fen("r3k2r/p1ppqpb1/bn2pnp1/3PN3/1p2P3/2N2Q1p/PPPBBPPP/R3K2R w KQkq - 0 1");
    assert_eq!(perft(&mut board, 2), 2039);
}

#[test]
fn perft_kiwipete_d3() {
    let mut board = Chess::from_fen("r3k2r/p1ppqpb1/bn2pnp1/3PN3/1p2P3/2N2Q1p/PPPBBPPP/R3K2R w KQkq - 0 1");
    assert_eq!(perft(&mut board, 3), 97862);
}

#[test]
fn perft_pos3_d1() {
    let mut board = Chess::from_fen("8/2p5/3p4/KP5r/1R3p1k/8/4P1P1/8 w - - 0 1");
    assert_eq!(perft(&mut board, 1), 14);
}

#[test]
fn perft_pos3_d2() {
    let mut board = Chess::from_fen("8/2p5/3p4/KP5r/1R3p1k/8/4P1P1/8 w - - 0 1");
    assert_eq!(perft(&mut board, 2), 191);
}

#[test]
fn perft_pos3_d3() {
    let mut board = Chess::from_fen("8/2p5/3p4/KP5r/1R3p1k/8/4P1P1/8 w - - 0 1");
    assert_eq!(perft(&mut board, 3), 2812);
}

#[test]
fn perft_pos3_d4() {
    let mut board = Chess::from_fen("8/2p5/3p4/KP5r/1R3p1k/8/4P1P1/8 w - - 0 1");
    assert_eq!(perft(&mut board, 4), 43238);
}

#[test]
fn perft_pos4_d1() {
    let mut board =
        Chess::from_fen("r3k2r/Pppp1ppp/1b3nbN/nP6/BBP1P3/q4N2/Pp1P2PP/R2Q1RK1 w kq - 0 1");
    assert_eq!(perft(&mut board, 1), 6);
}

#[test]
fn perft_pos4_d2() {
    let mut board =
        Chess::from_fen("r3k2r/Pppp1ppp/1b3nbN/nP6/BBP1P3/q4N2/Pp1P2PP/R2Q1RK1 w kq - 0 1");
    assert_eq!(perft(&mut board, 2), 264);
}

#[test]
fn perft_pos4_d3() {
    let mut board =
        Chess::from_fen("r3k2r/Pppp1ppp/1b3nbN/nP6/BBP1P3/q4N2/Pp1P2PP/R2Q1RK1 w kq - 0 1");
    assert_eq!(perft(&mut board, 3), 9467);
}

#[test]
fn perft_pos5_d1() {
    let mut board =
        Chess::from_fen("rnbq1k1r/pp1Pbppp/2p5/8/2B5/8/PPP1NnPP/RNBQK2R w KQ - 1 8");
    assert_eq!(perft(&mut board, 1), 44);
}

#[test]
fn perft_pos5_d2() {
    let mut board =
        Chess::from_fen("rnbq1k1r/pp1Pbppp/2p5/8/2B5/8/PPP1NnPP/RNBQK2R w KQ - 1 8");
    assert_eq!(perft(&mut board, 2), 1486);
}

#[test]
fn perft_pos5_d3() {
    let mut board =
        Chess::from_fen("rnbq1k1r/pp1Pbppp/2p5/8/2B5/8/PPP1NnPP/RNBQK2R w KQ - 1 8");
    assert_eq!(perft(&mut board, 3), 62379);
}

#[test]
fn perft_pos6_d1() {
    let mut board =
        Chess::from_fen("r4rk1/1pp1qppp/p1np1n2/2b1p1B1/2B1P1b1/P1NP1N2/1PP1QPPP/R4RK1 w - - 0 10");
    assert_eq!(perft(&mut board, 1), 46);
}

#[test]
fn perft_pos6_d2() {
    let mut board =
        Chess::from_fen("r4rk1/1pp1qppp/p1np1n2/2b1p1B1/2B1P1b1/P1NP1N2/1PP1QPPP/R4RK1 w - - 0 10");
    assert_eq!(perft(&mut board, 2), 2079);
}

#[test]
fn perft_pos6_d3() {
    let mut board =
        Chess::from_fen("r4rk1/1pp1qppp/p1np1n2/2b1p1B1/2B1P1b1/P1NP1N2/1PP1QPPP/R4RK1 w - - 0 10");
    assert_eq!(perft(&mut board, 3), 89890);
}
