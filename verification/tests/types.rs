use siroco::types::{
    bb_square, count_bits, lsb, make_piece, make_square, piece_color, piece_type, piece_type_of,
    pop_lsb, square_file, square_from_name, square_name, square_rank, Color, Move, MoveList,
    PieceType, NO_SQUARE,
};

#[test]
fn color_basics() {
    assert_eq!(Color::White.opposite(), Color::Black);
    assert_eq!(Color::Black.opposite().opposite(), Color::Black);
    assert_eq!(Color::White.as_usize(), 0);
    assert_eq!(Color::Black.as_index(), 1);
}

#[test]
fn piece_chars_roundtrip() {
    for pt in [PieceType::Pawn, PieceType::Knight, PieceType::Bishop, PieceType::Rook, PieceType::Queen, PieceType::King] {
        assert_eq!(PieceType::from_char(pt.to_char()), Some(pt));
        assert_eq!(PieceType::from_char(pt.to_char().to_ascii_uppercase()), Some(pt));
    }
    assert_eq!(PieceType::from_char('x'), None);
    assert_eq!(PieceType::Queen.promo_char(), 'q');
    assert_eq!(PieceType::King.promo_char(), '?');
    assert_eq!(PieceType::Rook.as_usize(), 3);
}

#[test]
fn piece_codes() {
    let p = make_piece(Color::Black, PieceType::Queen);
    assert_eq!(p, 10);
    assert_eq!(piece_color(p), Color::Black);
    assert_eq!(piece_type(p), PieceType::Queen);
    assert_eq!(piece_type_of(3), PieceType::Rook);
    assert_eq!(piece_color(5), Color::White);
}

#[test]
fn squares() {
    let sq = make_square(4, 3);
    assert_eq!(sq, 28);
    assert_eq!(square_file(sq), 4);
    assert_eq!(square_rank(sq), 3);
    assert_eq!(square_name(sq), "e4");
    assert_eq!(square_from_name("e4"), Some(28));
    assert_eq!(square_from_name("h8"), Some(63));
    assert_eq!(square_from_name("i1"), None);
    assert_eq!(square_from_name("a9"), None);
    assert_eq!(square_from_name("a"), None);
    for s in 0..64u8 {
        assert_eq!(square_from_name(&square_name(s)), Some(s));
    }
    assert_eq!(NO_SQUARE, 64);
}

#[test]
fn move_encoding() {
    let m = Move::new(12, 28, None);
    assert_eq!(m.0, 12 | (28 << 6));
    assert_eq!(m.from_sq(), 12);
    assert_eq!(m.to_sq(), 28);
    assert_eq!(m.promotion(), None);
    assert!(!m.is_promotion());
    assert!(!m.is_null());
    assert_eq!(m.to_uci(), "e2e4");
    let p = Move::new(52, 60, Some(PieceType::Queen));
    assert_eq!(p.to_uci(), "e7e8q");
    assert!(p.is_promotion());
    assert_eq!(p.promotion(), Some(PieceType::Queen));
    assert!(Move::null().is_null());
    assert_eq!(Move::null().to_uci(), "0000");
}

#[test]
fn move_uci_parse() {
    assert_eq!(Move::from_uci("e2e4"), Some(Move::new(12, 28, None)));
    assert_eq!(Move::from_uci("a7a8n"), Some(Move::new(48, 56, Some(PieceType::Knight))));
    assert_eq!(Move::from_uci("e2e"), None);
    assert_eq!(Move::from_uci("e2e4x"), None);
    assert_eq!(Move::from_uci("z2e4"), None);
    for m in [Move::new(0, 63, None), Move::new(9, 1, Some(PieceType::Rook))] {
        assert_eq!(Move::from_uci(&m.to_uci()), Some(m));
    }
}

#[test]
fn move_list_ops() {
    let mut l = MoveList::new();
    assert!(l.is_empty());
    l.push(Move::new(1, 2, None));
    l.push(Move::new(3, 4, None));
    assert_eq!(l.len(), 2);
    assert_eq!(l.as_slice()[1], Move::new(3, 4, None));
    assert_eq!(l.iter().count(), 2);
    l.clear();
    assert_eq!(l.len(), 0);
}

#[test]
fn bit_helpers() {
    assert_eq!(bb_square(5), 32);
    assert_eq!(lsb(0b1000), 3);
    assert_eq!(lsb(0), 64);
    assert_eq!(count_bits(0xF0F0), 8);
    let mut b: u64 = 0b1010;
    assert_eq!(pop_lsb(&mut b), 1);
    assert_eq!(b, 0b1000);
}
