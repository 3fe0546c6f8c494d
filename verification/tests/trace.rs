use siroco::position::Position;
use siroco::trace::{dump_lines, trace_pv_lines};
use siroco::types::Move;

const START: &str = "rnbqkbnr/pppppppp/8/8/8/8/PPPPPPPP/RNBQKBNR w KQkq - 0 1";

#[test]
fn dump_depth_zero_is_one_leaf() {
    let mut pos = Position::new();
    let lines = dump_lines(&mut pos, 0);
    assert_eq!(
        lines,
        vec![format!("ply 0 eval 10 alpha -30000 beta 30000 fen {}", START)]
    );
    assert_eq!(pos.to_fen(), START);
}

#[test]
fn dump_kings_depth_one() {
    let fen = "k7/8/8/8/8/8/8/K7 w - - 0 1";
    let mut pos = Position::from_fen(fen).unwrap();
    let lines = dump_lines(&mut pos, 1);
    assert_eq!(lines.len(), 6);
    for pair in lines.chunks(2) {
        assert!(pair[0].starts_with("ply 0 move a1"));
        assert!(pair[0].ends_with(" alpha -30000 beta 30000"));
        assert!(pair[1].starts_with("  ply 1 eval "));
        assert!(pair[1].contains(" alpha -30000 beta 30000 fen "));
        assert!(pair[1].ends_with(" b - - 1 1"));
    }
    assert_eq!(pos.to_fen(), fen);
}

#[test]
fn dump_checkmate_has_no_moves() {
    let fen = "rnb1kbnr/pppp1ppp/8/4p3/6Pq/5P2/PPPPP2P/RNBQKBNR w KQkq - 1 3";
    let mut pos = Position::from_fen(fen).unwrap();
    assert_eq!(dump_lines(&mut pos, 2), vec![format!("ply 0 no moves fen {}", fen)]);
}

#[test]
fn dump_depth_two_counts() {
    let mut pos = Position::new();
    let lines = dump_lines(&mut pos, 2);
    // 20 root moves, 20 replies each, one line per move and one per leaf.
    assert_eq!(lines.len(), 20 + 20 * 20 * 2);
    assert!(lines[1].starts_with("  ply 1 move "));
    assert!(lines[1].ends_with(" alpha -30000 beta 30000"));
    assert!(lines[2].starts_with("    ply 2 eval "));
}

#[test]
fn trace_line_of_play() {
    let mut pos = Position::new();
    let e2e4 = Move::from_uci("e2e4").unwrap();
    let e7e5 = Move::from_uci("e7e5").unwrap();
    let lines = trace_pv_lines(&mut pos, &[e2e4, e7e5, e2e4, e7e5]);
    assert_eq!(lines.len(), 9);
    assert_eq!(lines[0], format!("start {}", START));
    assert_eq!(lines[1], "make e2e4");
    assert_eq!(lines[2], "fen rnbqkbnr/pppppppp/8/8/4P3/8/PPPP1PPP/RNBQKBNR b KQkq e3 0 1");
    assert!(lines[3].starts_with("eval "));
    assert_eq!(lines[4], "make e7e5");
    assert_eq!(lines[5], "fen rnbqkbnr/pppp1ppp/8/4p3/4P3/8/PPPP1PPP/RNBQKBNR w KQkq e6 0 2");
    assert!(lines[6].starts_with("eval "));
    assert_eq!(lines[7], "make e2e4");
    assert_eq!(lines[8], "not legal here");
    assert_eq!(pos.to_fen(), "rnbqkbnr/pppp1ppp/8/4p3/4P3/8/PPPP1PPP/RNBQKBNR w KQkq e6 0 2");
}

#[test]
fn board_report_of_start() {
    let pos = Position::new();
    let lines = siroco::trace::board_lines(&pos);
    let rule = " +---+---+---+---+---+---+---+---+";
    let expected = vec![
        rule.to_string(),
        "8 | r | n | b | q | k | b | n | r |".to_string(),
        rule.to_string(),
        "7 | p | p | p | p | p | p | p | p |".to_string(),
        rule.to_string(),
        "6 |   |   |   |   |   |   |   |   |".to_string(),
        rule.to_string(),
        "5 |   |   |   |   |   |   |   |   |".to_string(),
        rule.to_string(),
        "4 |   |   |   |   |   |   |   |   |".to_string(),
        rule.to_string(),
        "3 |   |   |   |   |   |   |   |   |".to_string(),
        rule.to_string(),
        "2 | P | P | P | P | P | P | P | P |".to_string(),
        rule.to_string(),
        "1 | R | N | B | Q | K | B | N | R |".to_string(),
        rule.to_string(),
        "   a   b   c   d   e   f   g   h".to_string(),
        format!("FEN: {}", START),
        "Side: white".to_string(),
        "Castling: 15".to_string(),
        "En passant: -".to_string(),
        format!("Hash: {:016x}", pos.hash),
        "Halfmove: 0 Fullmove: 1".to_string(),
    ];
    assert_eq!(lines, expected);
}

#[test]
fn board_report_fields_after_double_push() {
    let pos = Position::from_fen("4k3/8/8/8/4P3/8/8/4K3 b - e3 7 42").unwrap();
    let lines = siroco::trace::board_lines(&pos);
    assert_eq!(lines[9], "4 |   |   |   |   | P |   |   |   |");
    assert_eq!(lines[19], "Side: black");
    assert_eq!(lines[20], "Castling: 0");
    assert_eq!(lines[21], "En passant: e3");
    assert_eq!(lines[22], format!("Hash: {:016x}", pos.hash));
    assert_eq!(lines[22].len(), 22);
    assert_eq!(lines[23], "Halfmove: 7 Fullmove: 42");
}
