use siroco::position::Position;
use siroco::types::Move;
use siroco::uci::{
    apply_move_texts, matching_legal_move, option_request, position_source, setoption_fields, MoveNote,
    OptionRequest,
};

const START: &str = "rnbqkbnr/pppppppp/8/8/8/8/PPPPPPPP/RNBQKBNR w KQkq - 0 1";

fn tokens(line: &str) -> Vec<String> {
    line.split_whitespace().map(|t| t.to_string()).collect()
}

#[test]
fn position_source_startpos() {
    let r = position_source(&tokens("position startpos moves e2e4 e7e5"));
    assert_eq!(r, Some((START.to_string(), 2)));
    let r = position_source(&tokens("position startpos"));
    assert_eq!(r, Some((START.to_string(), 2)));
}

#[test]
fn position_source_fen_with_moves() {
    let line = "position fen 8/8/8/8/8/8/8/K6k w - - 3 40 moves a1a2";
    let r = position_source(&tokens(line));
    assert_eq!(r, Some(("8/8/8/8/8/8/8/K6k w - - 3 40".to_string(), 8)));
    let r = position_source(&tokens("position fen 8/8/8/8/8/8/8/K6k w"));
    assert_eq!(r, Some(("8/8/8/8/8/8/8/K6k w".to_string(), 4)));
}

#[test]
fn position_source_rejects_other_forms() {
    assert_eq!(position_source(&tokens("position")), None);
    assert_eq!(position_source(&tokens("position kiwipete")), None);
}

#[test]
fn setoption_reads_name_and_value() {
    let (n, v) = setoption_fields(&tokens("setoption name Hash value 64"));
    assert_eq!(n, "Hash");
    assert_eq!(v, "64");
    let (n, v) = setoption_fields(&tokens("setoption name Syzygy Path value /tb a"));
    assert_eq!(n, "Syzygy Path");
    assert_eq!(v, "/tb a");
    let (n, v) = setoption_fields(&tokens("setoption"));
    assert_eq!(n, "");
    assert_eq!(v, "");
}

#[test]
fn option_requests() {
    let s = |x: &str| x.to_string();
    assert!(matches!(option_request(&s("Hash"), &s("64")), OptionRequest::Hash(64)));
    assert!(matches!(option_request(&s("hash"), &s("0")), OptionRequest::Hash(1)));
    assert!(matches!(option_request(&s("HASH"), &s("5000")), OptionRequest::Hash(1024)));
    assert!(matches!(option_request(&s("Hash"), &s("lots")), OptionRequest::Ignored));
    assert!(matches!(option_request(&s("Threads"), &s("4")), OptionRequest::Threads));
    assert!(matches!(option_request(&s("Ponder"), &s("true")), OptionRequest::Ignored));
}

#[test]
fn matching_moves_from_text() {
    let mut pos = Position::new();
    let before = pos.to_fen();
    let e2e4 = Move::from_uci("e2e4").unwrap();
    assert_eq!(matching_legal_move(&mut pos, e2e4), Some(e2e4));
    let e2e5 = Move::from_uci("e2e5").unwrap();
    assert_eq!(matching_legal_move(&mut pos, e2e5), None);
    assert_eq!(pos.to_fen(), before);

    let mut promo = Position::from_fen("8/P6k/8/8/8/8/8/K7 w - - 0 1").unwrap();
    let q = Move::from_uci("a7a8q").unwrap();
    assert_eq!(matching_legal_move(&mut promo, q), Some(q));
    let plain = Move::from_uci("a7a8").unwrap();
    assert_eq!(matching_legal_move(&mut promo, plain), None);
}

#[test]
fn consistency_and_playability() {
    let pos = Position::new();
    assert!(pos.is_consistent());
    assert!(pos.is_playable());

    let mut broken = Position::new();
    broken.hash ^= 1;
    assert!(!broken.is_consistent());

    let no_black_king = Position::from_fen("8/8/8/8/8/8/8/K7 w - - 0 1").unwrap();
    assert!(no_black_king.is_consistent());
    assert!(!no_black_king.is_playable());

    // The side not to move stands in check: its king could be taken.
    let exposed = Position::from_fen("k6R/8/8/8/8/8/8/K7 w - - 0 1").unwrap();
    assert!(exposed.is_consistent());
    assert!(!exposed.is_playable());
}

#[test]
fn fen_roundtrip_after_moves() {
    let mut pos = Position::new();
    for m in ["e2e4", "c7c5", "g1f3", "d7d6", "e1e2"] {
        let mv = matching_legal_move(&mut pos, Move::from_uci(m).unwrap()).unwrap();
        pos.make_move(mv);
        let fen = pos.to_fen();
        let again = Position::from_fen(&fen).unwrap();
        assert_eq!(again.to_fen(), fen);
        assert_eq!(again.hash, pos.hash);
    }
    assert_eq!(
        pos.to_fen(),
        "rnbqkbnr/pp2pppp/3p4/2p5/4P3/5N2/PPPPKPPP/RNBQ1B1R b kq - 1 3"
    );
}

#[test]
fn move_texts_applied_in_turn() {
    let mut pos = Position::new();
    let texts = tokens("e2e4 e7e5 e2e4 zz g1f3 b8c6 e1g1");
    let notes = apply_move_texts(&mut pos, &texts);
    assert_eq!(
        notes,
        vec![
            MoveNote::Played,
            MoveNote::Played,
            MoveNote::Illegal,
            MoveNote::BadFormat,
            MoveNote::Played,
            MoveNote::Played,
            MoveNote::Illegal,
        ]
    );
    assert_eq!(
        pos.to_fen(),
        "r1bqkbnr/pppp1ppp/2n5/4p3/4P3/5N2/PPPP1PPP/RNBQKB1R w KQkq - 2 3"
    );
}

#[test]
fn move_texts_on_unplayable_position() {
    let mut pos = Position::from_fen("8/8/8/8/8/8/8/K7 w - - 0 1").unwrap();
    let notes = apply_move_texts(&mut pos, &tokens("a1a2 a1a9"));
    assert_eq!(notes, vec![MoveNote::NotPlayable, MoveNote::BadFormat]);
    assert_eq!(pos.to_fen(), "8/8/8/8/8/8/8/K7 w - - 0 1");
}
