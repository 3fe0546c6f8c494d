use siroco::eval::evaluate;
use siroco::history::{HistoryTable, KillerTable};
use siroco::position::Position;
use siroco::search::{nps, score_text, search, search_with_tt, SearchInfo, SearchLimits, MATE};
use siroco::tt::TranspositionTable;
use siroco::types::{Color, Move};

#[test]
fn eval_startpos_is_tempo() {
    assert_eq!(evaluate(&Position::new()), 10);
    let black = Position::from_fen("rnbqkbnr/pppppppp/8/8/8/8/PPPPPPPP/RNBQKBNR b KQkq - 0 1").unwrap();
    assert_eq!(evaluate(&black), 10);
}

#[test]
fn eval_side_to_move_view() {
    let w = Position::from_fen("4k3/8/8/8/8/8/8/3QK3 w - - 0 1").unwrap();
    let b = Position::from_fen("4k3/8/8/8/8/8/8/3QK3 b - - 0 1").unwrap();
    let ew = evaluate(&w);
    let eb = evaluate(&b);
    assert!(ew > 500);
    assert_eq!(ew - 10, -(eb - 10));
}

#[test]
fn eval_kings_only_exact() {
    let pos = Position::from_fen("4k3/8/8/8/8/8/8/4K3 w - - 0 1").unwrap();
    assert_eq!(evaluate(&pos), 10);
}

#[test]
fn killers_store_and_score() {
    let mut k = KillerTable::new();
    let a = Move::new(1, 2, None);
    let b = Move::new(3, 4, None);
    assert!(!k.is_killer(5, a));
    k.store(5, a);
    assert!(k.is_killer(5, a));
    assert_eq!(k.score_killer(5, a), 8000);
    k.store(5, b);
    assert_eq!(k.score_killer(5, b), 8000);
    assert_eq!(k.score_killer(5, a), 7000);
    k.store(5, b);
    assert_eq!(k.killers[5][1], a);
    assert_eq!(k.score_killer(64, a), 0);
    assert!(!k.is_killer(100, a));
    k.store(100, a);
    k.clear();
    assert!(!k.is_killer(5, b));
}

#[test]
fn history_updates() {
    let mut h = HistoryTable::new();
    let m = Move::new(12, 28, None);
    h.update_quiet(0, m, 4, true);
    assert_eq!(h.get(0, 12, 28), 16);
    assert_eq!(h.score(0, m), 0);
    h.update_quiet(0, m, 8, true);
    assert_eq!(h.get(0, 12, 28), 80);
    assert_eq!(h.score(0, m), 2);
    h.update_quiet(0, m, 8, false);
    assert_eq!(h.get(0, 12, 28), 16);
    h.update_quiet(0, m, 4, false);
    assert_eq!(h.get(0, 12, 28), 0);
    h.update(1, m, 1, 20000);
    assert_eq!(h.get(1, 12, 28), 16384);
    h.update(1, m, 1, -100);
    assert_eq!(h.get(1, 12, 28), 16384 - 100 - (16384 * 100 / 16384));
    h.update(1, m, 1, -40000);
    assert_eq!(h.get(1, 12, 28), -16384);
    h.clear();
    assert_eq!(h.get(1, 12, 28), 0);
}

#[test]
fn go_params() {
    let params: Vec<String> = "wtime 60000 btime 55000 winc 1000 binc 900 movestogo 20 depth 7 nodes 12345 infinite movetime x"
        .split_whitespace()
        .map(|s| s.to_string())
        .collect();
    let l = SearchLimits::from_go_params(&params);
    assert_eq!(l.wtime, Some(60000));
    assert_eq!(l.btime, Some(55000));
    assert_eq!(l.winc, Some(1000));
    assert_eq!(l.binc, Some(900));
    assert_eq!(l.movestogo, Some(20));
    assert_eq!(l.depth, Some(7));
    assert_eq!(l.nodes, Some(12345));
    assert!(l.infinite);
    assert_eq!(l.movetime, None);
    let bad: Vec<String> = vec!["depth".to_string(), "-3".to_string(), "depth".to_string()];
    let l = SearchLimits::from_go_params(&bad);
    assert_eq!(l.depth, None);
    let d = SearchLimits::default();
    assert_eq!(d.depth, None);
    assert!(!d.infinite);
}

#[test]
fn time_budget_formula() {
    let l = SearchLimits { wtime: Some(60000), winc: Some(1000), ..Default::default() };
    assert!(l.time_budget_computable(true));
    assert_eq!(l.time_budget(true), (Some(2750), Some(4125)));
    assert_eq!(l.time_budget(false), (None, None));
    let fixed = SearchLimits { movetime: Some(500), ..Default::default() };
    assert_eq!(fixed.time_budget(true), (Some(500), Some(500)));
    let short = SearchLimits { btime: Some(40), ..Default::default() };
    assert_eq!(short.time_budget(false), (Some(10), Some(10)));
    let zero = SearchLimits { wtime: Some(100), movestogo: Some(0), ..Default::default() };
    assert!(!zero.time_budget_computable(true));
}

#[test]
fn score_texts() {
    assert_eq!(score_text(35), "cp 35");
    assert_eq!(score_text(-120), "cp -120");
    assert_eq!(score_text(MATE - 1), "mate 1");
    assert_eq!(score_text(MATE - 4), "mate 2");
    assert_eq!(score_text(-MATE + 2), "mate -1");
    assert_eq!(nps(5000, 2), 2500000);
    assert_eq!(nps(5000, 0), 5000);
}

#[test]
fn search_finds_mate_in_one() {
    let mut pos = Position::from_fen("6k1/5ppp/8/8/8/8/8/R5K1 w - - 0 1").unwrap();
    let limits = SearchLimits { depth: Some(3), ..Default::default() };
    let (best, score) = search(&mut pos, limits);
    assert_eq!(best.to_uci(), "a1a8");
    assert_eq!(score, MATE - 1);
}

#[test]
fn search_no_moves_returns_null() {
    let mut pos = Position::from_fen("rnb1kbnr/pppp1ppp/8/4p3/6Pq/5P2/PPPPP2P/RNBQKBNR w KQkq - 1 3").unwrap();
    let (best, score) = search(&mut pos, SearchLimits { depth: Some(2), ..Default::default() });
    assert!(best.is_null());
    assert_eq!(score, 0);
}

#[test]
fn search_with_tt_reports_iterations() {
    let mut pos = Position::new();
    let mut tt = TranspositionTable::new(1);
    let mut h = HistoryTable::new();
    let mut k = KillerTable::new();
    let mut infos: Vec<SearchInfo> = Vec::new();
    let before = pos.to_fen();
    let (best, score) = search_with_tt(&mut pos, SearchLimits { depth: Some(3), ..Default::default() }, &mut tt, &mut h, &mut k, &mut infos);
    assert!(!best.is_null());
    assert_eq!(pos.to_fen(), before);
    assert_eq!(infos.len(), 3);
    for (i, info) in infos.iter().enumerate() {
        assert_eq!(info.depth, i as i32 + 1);
        assert!(info.hashfull <= 1000);
        assert!(!info.pv.is_empty() && info.pv.len() <= 16);
    }
    assert_eq!(infos[2].score, score);
    assert_eq!(infos[2].depth, 3);
    assert!(!infos[2].pv.is_empty());
    assert!(infos[2].nodes > 0);
    assert_eq!(pos.side_to_move, Color::White);
}

#[test]
fn search_node_limit_still_moves() {
    let mut pos = Position::new();
    let (best, _) = search(&mut pos, SearchLimits { nodes: Some(1), ..Default::default() });
    assert!(!best.is_null());
}

#[test]
fn search_on_stray_en_passant_square() {
    let mut pos = Position::from_fen("4k3/8/8/8/8/8/8/4K3 w - e6 0 1").unwrap();
    let mut tt = TranspositionTable::new(1);
    let age = tt.age;
    let mut h = HistoryTable::new();
    let mut k = KillerTable::new();
    let mut infos: Vec<SearchInfo> = Vec::new();
    let limits = SearchLimits { depth: Some(2), ..Default::default() };
    let (best, score) = search_with_tt(&mut pos, limits, &mut tt, &mut h, &mut k, &mut infos);
    assert!(["e1d1", "e1d2", "e1e2", "e1f2", "e1f1"].contains(&best.to_uci().as_str()));
    assert_eq!(tt.age, age.wrapping_add(1));
    assert_eq!(infos.len(), 2);
    assert_eq!(infos[1].score, score);
}
