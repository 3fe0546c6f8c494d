use siroco::movegen::{
    bishop_attacks, generate_captures, generate_legal, generate_pseudo_legal, is_legal_move,
    is_square_attacked, king_attacks, knight_attacks, pawn_attacks, queen_attacks, rook_attacks,
};
use siroco::position::{zobrist, Position};
use siroco::types::{Color, Move, MoveList, PieceType};

#[test]
fn attack_tables() {
    assert_eq!(knight_attacks(0).count_ones(), 2);
    assert_eq!(knight_attacks(27).count_ones(), 8);
    assert_eq!(king_attacks(0).count_ones(), 3);
    assert_eq!(pawn_attacks(Color::White, 12), (1u64 << 19) | (1u64 << 21));
    assert_eq!(pawn_attacks(Color::Black, 8), 1u64 << 1);
    assert_eq!(rook_attacks(0, 0).count_ones(), 14);
    assert_eq!(bishop_attacks(27, 0).count_ones(), 13);
    assert_eq!(rook_attacks(0, 1u64 << 8), (1u64 << 8) | 0xFE);
    assert_eq!(queen_attacks(27, 0), rook_attacks(27, 0) | bishop_attacks(27, 0));
}

#[test]
fn make_unmake_restores_everything() {
    let mut pos = Position::from_fen("r3k2r/p1ppqpb1/bn2pnp1/3PN3/1p2P3/2N2Q1p/PPPBBPPP/R3K2R w KQkq - 0 1").unwrap();
    let before_fen = pos.to_fen();
    let before_hash = pos.hash;
    let mut list = MoveList::new();
    generate_legal(&mut pos, &mut list);
    assert_eq!(list.len(), 48);
    for &m in list.as_slice() {
        pos.make_move(m);
        assert_eq!(pos.hash, pos.compute_hash());
        pos.unmake_move(m);
        assert_eq!(pos.to_fen(), before_fen);
        assert_eq!(pos.hash, before_hash);
        assert_eq!(pos.hash_history.len(), 1);
    }
}

#[test]
fn castling_and_en_passant_moves() {
    let mut pos = Position::from_fen("r3k2r/8/8/8/8/8/8/R3K2R w KQkq - 0 1").unwrap();
    let castle = Move::new(4, 6, None);
    assert!(is_legal_move(&mut pos, castle));
    pos.make_move(castle);
    assert_eq!(pos.to_fen(), "r3k2r/8/8/8/8/8/8/R4RK1 b kq - 1 1");
    let mut pos = Position::from_fen("rnbqkbnr/ppp1pppp/8/3pP3/8/8/PPPP1PPP/RNBQKBNR w KQkq d6 0 3").unwrap();
    let ep = Move::new(36, 43, None);
    assert!(is_legal_move(&mut pos, ep));
    pos.make_move(ep);
    assert_eq!(pos.to_fen(), "rnbqkbnr/ppp1pppp/3P4/8/8/8/PPPP1PPP/RNBQKBNR b KQkq - 0 3");
    pos.unmake_move(ep);
    assert_eq!(pos.to_fen(), "rnbqkbnr/ppp1pppp/8/3pP3/8/8/PPPP1PPP/RNBQKBNR w KQkq d6 0 3");
}

#[test]
fn double_push_sets_en_passant() {
    let mut pos = Position::new();
    pos.make_move(Move::new(12, 28, None));
    assert_eq!(pos.en_passant, 20);
    assert_eq!(pos.side_to_move, Color::Black);
    assert_eq!(pos.to_fen(), "rnbqkbnr/pppppppp/8/8/4P3/8/PPPP1PPP/RNBQKBNR b KQkq e3 0 1");
}

#[test]
fn pseudo_and_captures() {
    let pos = Position::from_fen("4k3/8/8/3p4/4P3/8/8/4K3 w - - 0 1").unwrap();
    let mut pseudo = MoveList::new();
    generate_pseudo_legal(&pos, &mut pseudo);
    let mut caps = MoveList::new();
    generate_captures(&pos, &mut caps);
    assert_eq!(caps.len(), 1);
    assert_eq!(caps.as_slice()[0], Move::new(28, 35, None));
    assert!(pseudo.len() > caps.len());
    assert!(is_square_attacked(&pos, 35, Color::White));
    assert!(!is_square_attacked(&pos, 36, Color::White));
}

#[test]
fn checkmate_has_no_legal_moves() {
    let mut pos = Position::from_fen("rnb1kbnr/pppp1ppp/8/4p3/6Pq/5P2/PPPPP2P/RNBQKBNR w KQkq - 1 3").unwrap();
    let mut list = MoveList::new();
    generate_legal(&mut pos, &mut list);
    assert!(list.is_empty());
    assert!(is_square_attacked(&pos, pos.king_square(Color::White), Color::Black));
}

#[test]
fn promotions_generated() {
    let mut pos = Position::from_fen("4k3/P7/8/8/8/8/8/4K3 w - - 0 1").unwrap();
    let mut list = MoveList::new();
    generate_legal(&mut pos, &mut list);
    let promos: Vec<_> = list.as_slice().iter().filter(|m| m.is_promotion()).collect();
    assert_eq!(promos.len(), 4);
    assert!(list.as_slice().contains(&Move::new(48, 56, Some(PieceType::Queen))));
}

#[test]
fn draws() {
    let pos = Position::from_fen("4k3/8/8/8/8/8/8/4K3 w - - 0 1").unwrap();
    assert!(pos.is_insufficient_material());
    assert!(pos.is_draw());
    let pos = Position::from_fen("4k3/8/8/8/8/8/8/4KB2 w - - 0 1").unwrap();
    assert!(pos.is_insufficient_material());
    let pos = Position::from_fen("4kb2/8/8/8/8/8/8/4KB2 w - - 0 1").unwrap();
    assert!(!pos.is_insufficient_material());
    let pos = Position::from_fen("4k1b1/8/8/8/8/8/8/4KB2 w - - 0 1").unwrap();
    assert!(pos.is_insufficient_material());
    let pos = Position::from_fen("4k3/8/8/8/8/8/8/4KR2 w - - 0 1").unwrap();
    assert!(!pos.is_draw());
    let pos = Position::from_fen("4k3/8/8/8/8/8/8/4KR2 w - - 100 80").unwrap();
    assert!(pos.is_draw());
}

#[test]
fn repetition_and_threefold() {
    let mut pos = Position::new();
    let cycle = [Move::new(6, 21, None), Move::new(62, 45, None), Move::new(21, 6, None), Move::new(45, 62, None)];
    assert!(!pos.is_repetition());
    for &m in &cycle {
        pos.make_move(m);
    }
    assert!(pos.is_repetition());
    assert!(!pos.is_threefold());
    for &m in &cycle {
        pos.make_move(m);
    }
    assert!(pos.is_threefold());
    assert!(pos.is_draw());
}

#[test]
fn piece_access_and_kings() {
    let pos = Position::new();
    assert_eq!(pos.piece_at(4), 5);
    assert!(pos.is_empty(30));
    assert!(!pos.is_empty(0));
    assert_eq!(pos.king_square(Color::White), 4);
    assert_eq!(pos.king_square(Color::Black), 60);
    let none = Position::from_fen("8/8/8/8/8/8/8/8 w - - 0 1").unwrap();
    assert_eq!(none.king_square(Color::White), 64);
}

#[test]
fn zobrist_tables() {
    let z = zobrist();
    assert_eq!(z.piece_keys.len(), 768);
    assert_eq!(z.castling_keys.len(), 16);
    assert_eq!(z.en_passant_keys.len(), 8);
    assert_ne!(z.side_key, 0);
    assert_eq!(zobrist().side_key, z.side_key);
    let black = Position::from_fen("rnbqkbnr/pppppppp/8/8/8/8/PPPPPPPP/RNBQKBNR b KQkq - 0 1").unwrap();
    assert_eq!(black.hash ^ Position::new().hash, z.side_key);
}

#[test]
fn generator_never_captures_a_king() {
    let pos = Position::from_fen("4k3/8/8/8/8/8/8/4R1K1 w - - 0 1").unwrap();
    let mut pseudo = MoveList::new();
    generate_pseudo_legal(&pos, &mut pseudo);
    assert!(!pseudo.as_slice().contains(&Move::from_uci("e1e8").unwrap()));
    assert!(pseudo.as_slice().contains(&Move::from_uci("e1e7").unwrap()));
    let pawn = Position::from_fen("8/8/8/8/8/3k4/4P3/4K3 w - - 0 1").unwrap();
    let mut caps = MoveList::new();
    generate_captures(&pawn, &mut caps);
    assert!(caps.is_empty());
}

#[test]
fn only_pawns_capture_en_passant() {
    let pos = Position::from_fen("4k3/8/8/3pP3/4N3/8/8/4K3 w - d6 0 2").unwrap();
    let mut caps = MoveList::new();
    generate_captures(&pos, &mut caps);
    assert_eq!(caps.as_slice(), &[Move::from_uci("e5d6").unwrap()]);
    let mut pseudo = MoveList::new();
    generate_pseudo_legal(&pos, &mut pseudo);
    assert!(pseudo.as_slice().contains(&Move::from_uci("e4d6").unwrap()));
}

#[test]
fn stray_en_passant_square_is_playable() {
    let mut pos = Position::from_fen("4k3/8/8/8/8/8/8/4K3 w - e6 0 1").unwrap();
    assert!(pos.is_consistent());
    assert!(pos.is_playable());
    assert_eq!(siroco::perft::perft(&mut pos, 1), 5);
    let misused = Position::from_fen("4k3/8/8/8/8/8/4P3/4K3 w - e3 0 1").unwrap();
    assert!(!misused.is_playable());
}

#[test]
fn castling_needs_king_and_rook_at_home() {
    let mut pos = Position::from_fen("r3k2r/8/8/8/8/8/8/R3K3 w KQkq - 0 1").unwrap();
    assert!(pos.is_playable());
    let mut list = MoveList::new();
    generate_legal(&mut pos, &mut list);
    assert!(list.as_slice().contains(&Move::from_uci("e1c1").unwrap()));
    assert!(!list.as_slice().contains(&Move::from_uci("e1g1").unwrap()));
    let mut moved = Position::from_fen("4k3/8/8/8/8/8/8/R2K3R w KQ - 0 1").unwrap();
    assert!(moved.is_playable());
    let mut list = MoveList::new();
    generate_legal(&mut moved, &mut list);
    assert!(!list.as_slice().contains(&Move::from_uci("d1f1").unwrap()));
    assert!(!list.as_slice().contains(&Move::from_uci("d1b1").unwrap()));
    assert_eq!(siroco::perft::perft(&mut moved, 2), siroco::perft::perft(
        &mut Position::from_fen("4k3/8/8/8/8/8/8/R2K3R w - - 0 1").unwrap(),
        2,
    ));
}
