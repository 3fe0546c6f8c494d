use siroco::position::Position;
use siroco::syzygy::{probe_wdl, wdl_to_score, SyzygyTablebase};

#[test]
fn syzygy_kq_vs_k() {
    let pos = Position::from_fen("8/8/8/8/8/8/8/K1k1Q3 w - - 0 1").unwrap();
    assert_eq!(probe_wdl(&pos), Some(2));
}

#[test]
fn syzygy_k_vs_k() {
    let pos = Position::from_fen("8/8/8/8/8/8/4k3/4K3 w - - 0 1").unwrap();
    assert_eq!(probe_wdl(&pos), Some(1));
}

#[test]
fn syzygy_kb_vs_k() {
    let pos = Position::from_fen("8/8/8/8/8/8/4k3/4KB2 w - - 0 1").unwrap();
    assert_eq!(probe_wdl(&pos), Some(1));
}

#[test]
fn syzygy_kq_vs_k_black_to_move_loses() {
    let pos = Position::from_fen("8/8/8/8/8/8/8/K1k1Q3 b - - 0 1").unwrap();
    assert_eq!(probe_wdl(&pos), Some(0));
}

#[test]
fn syzygy_kr_vs_k_black_rook_wins_for_black() {
    let pos = Position::from_fen("8/8/8/8/8/3r4/4k3/4K3 b - - 0 1").unwrap();
    assert_eq!(probe_wdl(&pos), Some(2));
}

#[test]
fn syzygy_kbb_vs_k() {
    let pos = Position::from_fen("8/8/8/8/8/8/4k3/2B1KB2 b - - 0 1").unwrap();
    assert_eq!(probe_wdl(&pos), Some(0));
    let pos = Position::from_fen("8/8/8/8/8/8/4k3/2B1KB2 w - - 0 1").unwrap();
    assert_eq!(probe_wdl(&pos), Some(2));
}

#[test]
fn syzygy_unknown_sets() {
    let kp = Position::from_fen("8/8/8/8/8/8/4kP2/4K3 w - - 0 1").unwrap();
    assert_eq!(probe_wdl(&kp), None);
    let start = Position::new();
    assert_eq!(probe_wdl(&start), None);
    let five = Position::from_fen("8/8/8/8/8/2n5/3pk3/4K1N1 w - - 0 1").unwrap();
    assert_eq!(probe_wdl(&five), None);
}

#[test]
fn syzygy_scores() {
    assert_eq!(wdl_to_score(2, 3), 29997);
    assert_eq!(wdl_to_score(0, 3), -29997);
    assert_eq!(wdl_to_score(1, 3), 0);
    assert_eq!(wdl_to_score(7, 3), 0);
}

#[test]
fn syzygy_path_handling() {
    let mut tb = SyzygyTablebase::new();
    assert!(!tb.is_enabled());
    tb.set_path("/tb".to_string());
    assert!(tb.is_enabled());
    assert_eq!(tb.path.as_deref(), Some("/tb"));
    tb.set_path("<empty>".to_string());
    assert!(!tb.is_enabled());
    assert!(tb.path.is_none());
    tb.set_path(String::new());
    assert!(!tb.is_enabled());
    let d = SyzygyTablebase::default();
    assert!(!d.enabled);
}
