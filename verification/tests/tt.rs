use siroco::tt::{TranspositionTable, TTEntry, TT_EXACT, TT_LOWER, TT_ENTRY_BYTES};
use siroco::types::Move;

#[test]
fn tt_store_probe() {
    let mut tt = TranspositionTable::new(1);
    let hash = 0x12345678abcdef00;
    let mv = Move::new(12, 28, None);
    tt.store(hash, mv, 100, 5, TT_EXACT, 0);
    let e = tt.probe(hash).unwrap();
    assert_eq!(e.best_move.0, mv.0);
    assert_eq!(e.score, 100);
    assert_eq!(e.depth, 5);
}

#[test]
fn tt_mate_adjust() {
    let mut tt = TranspositionTable::new(1);
    let hash = 0x1;
    tt.store(hash, Move::null(), 29990, 10, TT_EXACT, 5);
    let e = tt.probe(hash).unwrap();
    let (score, _, _, _) = tt.retrieve_with_correction(e, 5);
    assert_eq!(score, 29990);
    let (score2, _, _, _) = tt.retrieve_with_correction(e, 0);
    assert_eq!(score2, 29995);
}

#[test]
fn tt_entry_bytes_constant() {
    assert_eq!(TT_ENTRY_BYTES, 16);
}

#[test]
fn tt_sizes() {
    let tt = TranspositionTable::new(1);
    assert_eq!(tt.entries.len(), 65536);
    assert_eq!(tt.mask, 65535);
    assert_eq!(tt.size_mb(), 1);
    let tt16 = TranspositionTable::with_default();
    assert_eq!(tt16.entries.len(), 1 << 20);
    assert_eq!(tt16.size_mb(), 16);
    assert_eq!(TranspositionTable::new(3).size_mb(), 2);
    let tiny = TranspositionTable::new(0);
    assert_eq!(tiny.entries.len(), 1);
}

#[test]
fn tt_probe_miss_and_hits() {
    let mut tt = TranspositionTable::new(1);
    assert!(tt.probe(0).is_none());
    assert!(tt.probe(77).is_none());
    tt.store(77, Move::new(1, 2, None), -5, 3, TT_LOWER, 2);
    assert_eq!(tt.stores, 1);
    let e = tt.probe(77).unwrap();
    assert_eq!(e.flag, TT_LOWER);
    assert_eq!(e.score, -5);
    assert_eq!(tt.hits, 1);
    assert!(tt.probe(77 + 32768).is_none());
}

#[test]
fn tt_replacement_rule() {
    let mut tt = TranspositionTable::new(1);
    tt.store(5, Move::new(1, 2, None), 10, 8, TT_LOWER, 0);
    tt.store(5 + 32768, Move::new(3, 4, None), 20, 2, TT_LOWER, 0);
    assert_eq!(tt.probe(5).unwrap().score, 10);
    tt.store(5 + 32768, Move::new(3, 4, None), 20, 2, TT_EXACT, 0);
    assert_eq!(tt.probe(5 + 32768).unwrap().score, 20);
    tt.new_search();
    tt.store(5, Move::new(1, 2, None), 30, 1, TT_LOWER, 0);
    assert_eq!(tt.probe(5).unwrap().score, 30);
}

#[test]
fn tt_negative_mate_adjust_roundtrip() {
    let mut tt = TranspositionTable::new(1);
    tt.store(9, Move::null(), -29950, 4, TT_EXACT, 7);
    let e = tt.probe(9).unwrap();
    assert_eq!(e.score, -29957);
    assert_eq!(tt.retrieve_with_correction(e, 7).0, -29950);
}

#[test]
fn tt_clear_and_hashfull() {
    let mut tt = TranspositionTable::new(1);
    assert_eq!(tt.hashfull(), 0);
    for i in 1..=6554u64 {
        tt.store(i, Move::null(), 0, 1, TT_EXACT, 0);
    }
    assert_eq!(tt.hashfull(), 100);
    let age = tt.age;
    tt.clear();
    assert_eq!(tt.age, age.wrapping_add(1));
    assert_eq!(tt.hashfull(), 0);
    assert_eq!(tt.hits, 0);
    assert_eq!(tt.stores, 0);
    assert!(tt.probe(1).is_none());
    tt.resize(2);
    assert_eq!(tt.entries.len(), 131072);
}
