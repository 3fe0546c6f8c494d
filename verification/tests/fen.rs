use siroco::position::Position;
use siroco::types::{Color, NO_SQUARE, CASTLE_WK, CASTLE_BQ};

const START: &str = "rnbqkbnr/pppppppp/8/8/8/8/PPPPPPPP/RNBQKBNR w KQkq - 0 1";

#[test]
fn fen_startpos_roundtrip() {
    let pos = Position::from_fen(START).unwrap();
    assert_eq!(pos.to_fen(), START);
    assert_eq!(Position::new().to_fen(), START);
    assert_eq!(pos.hash, Position::new().hash);
    assert_eq!(pos.hash, pos.compute_hash());
    assert_eq!(pos.hash_history, vec![pos.hash]);
    assert!(pos.history.is_empty());
}

#[test]
fn fen_roundtrip_various() {
    let fens = [
        "r3k2r/p1ppqpb1/bn2pnp1/3PN3/1p2P3/2N2Q1p/PPPBBPPP/R3K2R w KQkq - 0 1",
        "8/2p5/3p4/KP5r/1R3p1k/8/4P1P1/8 w - - 0 1",
        "rnbq1k1r/pp1Pbppp/2p5/8/2B5/8/PPP1NnPP/RNBQK2R w KQ - 1 8",
        "rnbqkbnr/ppp1pppp/8/3pP3/8/8/PPPP1PPP/RNBQKBNR w KQkq d6 0 3",
        "4k3/8/8/8/8/8/8/4K3 b - - 99 200",
    ];
    for fen in fens {
        let pos = Position::from_fen(fen).unwrap();
        assert_eq!(pos.to_fen(), fen);
        let again = Position::from_fen(&pos.to_fen()).unwrap();
        assert_eq!(again.board, pos.board);
        assert_eq!(again.hash, pos.hash);
    }
}

#[test]
fn fen_fields_read() {
    let pos = Position::from_fen("rnbqkbnr/ppp1pppp/8/3pP3/8/8/PPPP1PPP/RNBQKBNR b Kq d6 12 34").unwrap();
    assert_eq!(pos.side_to_move, Color::Black);
    assert_eq!(pos.castling, CASTLE_WK | CASTLE_BQ);
    assert_eq!(pos.en_passant, 43);
    assert_eq!(pos.halfmove, 12);
    assert_eq!(pos.fullmove, 34);
}

#[test]
fn fen_defaults_for_missing_counters() {
    let pos = Position::from_fen("4k3/8/8/8/8/8/8/4K3 w - -").unwrap();
    assert_eq!(pos.halfmove, 0);
    assert_eq!(pos.fullmove, 1);
    assert_eq!(pos.en_passant, NO_SQUARE);
    assert_eq!(pos.to_fen(), "4k3/8/8/8/8/8/8/4K3 w - - 0 1");
}

#[test]
fn fen_extra_whitespace_and_plus_sign() {
    let pos = Position::from_fen("  4k3/8/8/8/8/8/8/4K3\tw  -\n- +7 +9 ").unwrap();
    assert_eq!(pos.halfmove, 7);
    assert_eq!(pos.fullmove, 9);
}

#[test]
fn fen_errors() {
    assert_eq!(Position::from_fen("8/8 w -").err().unwrap(), "FEN too short: 8/8 w -");
    assert_eq!(Position::from_fen("").err().unwrap(), "FEN too short: ");
    assert_eq!(Position::from_fen("8/8/8/8/8/8/8/8 w - - x 1").err().unwrap(), "halfmove");
    assert_eq!(Position::from_fen("8/8/8/8/8/8/8/8 w - - 256 1").err().unwrap(), "halfmove");
    assert_eq!(Position::from_fen("8/8/8/8/8/8/8/8 w - - 0 65536").err().unwrap(), "fullmove");
    assert_eq!(Position::from_fen("8/8/8/8/8/8/8/8 w - - 0 -1").err().unwrap(), "fullmove");
    assert_eq!(Position::from_fen("7/8/8/8/8/8/8/8 w - -").err().unwrap(), "FEN rank not 8 files");
    assert_eq!(Position::from_fen("8/8/8/8/8/8/8/8/8 w - -").err().unwrap(), "too many ranks");
    assert_eq!(Position::from_fen("9/8/8/8/8/8/8/8 w - -").err().unwrap(), "bad digit");
    assert_eq!(Position::from_fen("0/8/8/8/8/8/8/8 w - -").err().unwrap(), "bad digit");
    assert_eq!(Position::from_fen("x7/8/8/8/8/8/8/8 w - -").err().unwrap(), "bad piece x");
    assert_eq!(Position::from_fen("8p/8/8/8/8/8/8/8 w - -").err().unwrap(), "board overflow");
    assert_eq!(Position::from_fen("8/8/8/8/8/8/8/8 x - -").err().unwrap(), "side");
    assert_eq!(Position::from_fen("8/8/8/8/8/8/8/8 w KX -").err().unwrap(), "bad castling X");
    assert_eq!(Position::from_fen("8/8/8/8/8/8/8/8 w - z9").err().unwrap(), "bad ep");
    assert_eq!(Position::from_fen("8/8/8/8/8/8/8/8 w - e").err().unwrap(), "bad ep");
}

#[test]
fn fen_error_order_counters_first() {
    assert_eq!(Position::from_fen("9/8 x Z zz q").err().unwrap(), "halfmove");
    assert_eq!(Position::from_fen("9/8 x Z zz").err().unwrap(), "bad digit");
}

#[test]
fn fen_short_board_is_accepted() {
    let pos = Position::from_fen("k7/8 w - -").unwrap();
    assert_eq!(pos.board[56], 11);
    assert_eq!(pos.to_fen(), "k7/8/8/8/8/8/8/8 w - - 0 1");
}

#[test]
fn fen_overflowing_run_is_detected() {
    assert!(Position::read_fen("8/8/8/8/8/8/8/81 w - -").is_some());
    assert!(Position::read_fen("k7/8/8/8/8/8/8/81 w - -").is_some());
    assert!(Position::read_fen("81/8/8/8/8/8/8/8 w - -").is_none());
    assert!(Position::read_fen(START).is_some());
}
