use siroco::perft::{perft, perft_divide};
use siroco::position::Position;

fn perft_test(fen: &str, depth: u32, expected: u64) {
    let mut pos = Position::from_fen(fen).unwrap();
    let nodes = perft(&mut pos, depth);
    assert_eq!(nodes, expected, "perft fen={} depth={}", fen, depth);
}

#[test]
fn perft_startpos() {
    let fen = "rnbqkbnr/pppppppp/8/8/8/8/PPPPPPPP/RNBQKBNR w KQkq - 0 1";
    let expected = [20, 400, 8902, 197281, 4865609];
    for (i, &exp) in expected.iter().enumerate() {
        perft_test(fen, (i + 1) as u32, exp);
    }
}

#[test]
fn perft_kiwipete() {
    let fen = "r3k2r/p1ppqpb1/bn2pnp1/3PN3/1p2P3/2N2Q1p/PPPBBPPP/R3K2R w KQkq - 0 1";
    let expected = [(1, 48), (2, 2039), (3, 97862), (4, 4085603)];
    for (d, exp) in expected {
        perft_test(fen, d, exp);
    }
}

#[test]
fn perft_position3() {
    let fen = "8/2p5/3p4/KP5r/1R3p1k/8/4P1P1/8 w - - 0 1";
    let expected = [(1, 14), (2, 191), (3, 2812), (4, 43238)];
    for (d, exp) in expected {
        perft_test(fen, d, exp);
    }
}

#[test]
fn perft_depth_zero_is_one() {
    let mut pos = Position::new();
    assert_eq!(perft(&mut pos, 0), 1);
}

#[test]
fn perft_divide_sums_to_perft() {
    let mut pos = Position::new();
    let before = pos.to_fen();
    let divide = perft_divide(&mut pos, 3);
    assert_eq!(divide.len(), 20);
    let total: u64 = divide.iter().map(|(_, n)| *n).sum();
    assert_eq!(total, 8902);
    assert_eq!(pos.to_fen(), before);
    let e2e4 = divide.iter().find(|(m, _)| m == "e2e4").unwrap();
    assert_eq!(e2e4.1, 600);
}

#[test]
fn perft_divide_depth_one_counts_one_each() {
    let mut pos = Position::new();
    let divide = perft_divide(&mut pos, 1);
    assert_eq!(divide.len(), 20);
    assert!(divide.iter().all(|(_, n)| *n == 1));
    assert_eq!(divide[0].0.len(), 4);
}

#[test]
fn perft_checked_counts_fit() {
    let mut pos = Position::new();
    assert_eq!(siroco::perft::perft_checked(&mut pos, 0), Some(1));
    assert_eq!(siroco::perft::perft_checked(&mut pos, 1), Some(20));
    assert_eq!(siroco::perft::perft_checked(&mut pos, 3), Some(8902));
    assert_eq!(pos.to_fen(), Position::new().to_fen());
}

#[test]
fn divide_adds_up_to_perft() {
    let fen = "r3k2r/p1ppqpb1/bn2pnp1/3PN3/1p2P3/2N2Q1p/PPPBBPPP/R3K2R w KQkq - 0 1";
    let mut pos = Position::from_fen(fen).unwrap();
    for depth in 1..=3 {
        let total: u64 = perft_divide(&mut pos, depth).iter().map(|(_, n)| n).sum();
        assert_eq!(total, perft(&mut pos, depth));
    }
    assert_eq!(perft_divide(&mut pos, 1).len(), 48);
}
