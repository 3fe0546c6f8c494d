//! Colors, piece types, squares, moves, move lists and bitboard helpers.
use vstd::prelude::*;
use vstd::std_specs::bits::u64_trailing_zeros;
use crate::bits::{bit, popcount, popcount_upto, lemma_bit_single, lemma_lowest_bit, lemma_clear_lowest, lemma_and_below};
use crate::text::push_char;
use vstd::string::StringSliceAdditionalSpecFns;
use vstd::std_specs::iter::IteratorSpec;

verus! {

#[derive(Clone, Copy, Debug, PartialEq, Eq, Structural)]
pub enum Color {
    White,
    Black,
}

/// Index of a color: white 0, black 1.
pub open spec fn color_idx(c: Color) -> int {
    match c {
        Color::White => 0,
        Color::Black => 1,
    }
}

pub open spec fn spec_opposite(c: Color) -> Color {
    match c {
        Color::White => Color::Black,
        Color::Black => Color::White,
    }
}

impl Color {
    pub fn opposite(self) -> (r: Color)
        ensures
            r == spec_opposite(self),
            r != self,
    {
        match self {
            Color::White => Color::Black,
            Color::Black => Color::White,
        }
    }

    pub fn as_usize(self) -> (r: usize)
        ensures
            r == color_idx(self),
    {
        match self {
            Color::White => 0,
            Color::Black => 1,
        }
    }

    pub fn as_index(self) -> (r: usize)
        ensures
            r == color_idx(self),
    {
        self.as_usize()
    }
}

/// The opposite of the opposite color is the color itself.
pub proof fn lemma_opposite_involution(c: Color)
    ensures
        spec_opposite(spec_opposite(c)) == c,
        spec_opposite(c) != c,
{
}

#[derive(Clone, Copy, Debug, PartialEq, Eq, Structural)]
pub enum PieceType {
    Pawn,
    Knight,
    Bishop,
    Rook,
    Queen,
    King,
}

/// Index of a piece type: pawn 0 .. king 5.
pub open spec fn pt_idx(pt: PieceType) -> int {
    match pt {
        PieceType::Pawn => 0,
        PieceType::Knight => 1,
        PieceType::Bishop => 2,
        PieceType::Rook => 3,
        PieceType::Queen => 4,
        PieceType::King => 5,
    }
}

/// The piece type with a given index modulo 6.
pub open spec fn pt_of_idx(i: int) -> PieceType {
    if i % 6 == 0 {
        PieceType::Pawn
    } else if i % 6 == 1 {
        PieceType::Knight
    } else if i % 6 == 2 {
        PieceType::Bishop
    } else if i % 6 == 3 {
        PieceType::Rook
    } else if i % 6 == 4 {
        PieceType::Queen
    } else {
        PieceType::King
    }
}

/// The piece type named by a letter, in either case.
pub open spec fn spec_pt_from_char(c: char) -> Option<PieceType> {
    if c == 'p' || c == 'P' {
        Some(PieceType::Pawn)
    } else if c == 'n' || c == 'N' {
        Some(PieceType::Knight)
    } else if c == 'b' || c == 'B' {
        Some(PieceType::Bishop)
    } else if c == 'r' || c == 'R' {
        Some(PieceType::Rook)
    } else if c == 'q' || c == 'Q' {
        Some(PieceType::Queen)
    } else if c == 'k' || c == 'K' {
        Some(PieceType::King)
    } else {
        None
    }
}

/// The lower-case letter of a piece type.
pub open spec fn spec_pt_char(pt: PieceType) -> char {
    match pt {
        PieceType::Pawn => 'p',
        PieceType::Knight => 'n',
        PieceType::Bishop => 'b',
        PieceType::Rook => 'r',
        PieceType::Queen => 'q',
        PieceType::King => 'k',
    }
}

/// The letter a promotion is written with; `?` for pawn and king.
pub open spec fn spec_promo_char(pt: PieceType) -> char {
    match pt {
        PieceType::Knight => 'n',
        PieceType::Bishop => 'b',
        PieceType::Rook => 'r',
        PieceType::Queen => 'q',
        _ => '?',
    }
}

impl PieceType {
    pub fn as_usize(self) -> (r: usize)
        ensures
            r == pt_idx(self),
    {
        match self {
            PieceType::Pawn => 0,
            PieceType::Knight => 1,
            PieceType::Bishop => 2,
            PieceType::Rook => 3,
            PieceType::Queen => 4,
            PieceType::King => 5,
        }
    }

    pub fn from_char(c: char) -> (r: Option<PieceType>)
        ensures
            r == spec_pt_from_char(c),
    {
        match c {
            'p' | 'P' => Some(PieceType::Pawn),
            'n' | 'N' => Some(PieceType::Knight),
            'b' | 'B' => Some(PieceType::Bishop),
            'r' | 'R' => Some(PieceType::Rook),
            'q' | 'Q' => Some(PieceType::Queen),
            'k' | 'K' => Some(PieceType::King),
            _ => None,
        }
    }

    pub fn to_char(self) -> (r: char)
        ensures
            r == spec_pt_char(self),
    {
        match self {
            PieceType::Pawn => 'p',
            PieceType::Knight => 'n',
            PieceType::Bishop => 'b',
            PieceType::Rook => 'r',
            PieceType::Queen => 'q',
            PieceType::King => 'k',
        }
    }

    pub fn promo_char(self) -> (r: char)
        ensures
            r == spec_promo_char(self),
    {
        match self {
            PieceType::Knight => 'n',
            PieceType::Bishop => 'b',
            PieceType::Rook => 'r',
            PieceType::Queen => 'q',
            _ => '?',
        }
    }
}

/// Reading a piece letter back gives the piece type.
pub proof fn lemma_pt_char_roundtrip(pt: PieceType)
    ensures
        spec_pt_from_char(spec_pt_char(pt)) == Some(pt),
{
}

// Piece encoding: white pawn 0 .. white king 5, black pawn 6 .. black king 11, 12 empty.
pub const NO_PIECE: u8 = 12;

/// The code of a piece of color `c` and type `pt`.
pub open spec fn piece_code(c: Color, pt: PieceType) -> int {
    color_idx(c) * 6 + pt_idx(pt)
}

/// The color of a piece code: black from 6 up.
pub open spec fn spec_piece_color(p: int) -> Color {
    if p >= 6 {
        Color::Black
    } else {
        Color::White
    }
}

pub fn make_piece(color: Color, pt: PieceType) -> (r: u8)
    ensures
        r == piece_code(color, pt),
        r < 12,
{
    (color.as_usize() * 6 + pt.as_usize()) as u8
}

pub fn piece_color(piece: u8) -> (r: Color)
    ensures
        r == spec_piece_color(piece as int),
{
    if piece >= 6 {
        Color::Black
    } else {
        Color::White
    }
}

pub fn piece_type(piece: u8) -> (r: PieceType)
    ensures
        r == pt_of_idx(piece as int),
{
    match piece % 6 {
        0 => PieceType::Pawn,
        1 => PieceType::Knight,
        2 => PieceType::Bishop,
        3 => PieceType::Rook,
        4 => PieceType::Queen,
        _ => PieceType::King,
    }
}

pub fn piece_type_of(piece: u8) -> (r: PieceType)
    ensures
        r == pt_of_idx(piece as int),
{
    piece_type(piece)
}

/// A piece code decodes back to its color and type.
pub proof fn lemma_piece_code_decode(c: Color, pt: PieceType)
    ensures
        spec_piece_color(piece_code(c, pt)) == c,
        pt_of_idx(piece_code(c, pt)) == pt,
        0 <= piece_code(c, pt) < 12,
{
}

/// Every code below 12 is the code of its own color and type.
pub proof fn lemma_piece_code_encode(p: int)
    requires
        0 <= p < 12,
    ensures
        piece_code(spec_piece_color(p), pt_of_idx(p)) == p,
{
}

// Squares: A1=0, B1=1 ... H1=7, A2=8 ... H8=63; 64 means none.
pub type Square = u8;

pub const NO_SQUARE: u8 = 64;

pub const SQ_A1: u8 = 0;

pub const SQ_B1: u8 = 1;

pub const SQ_C1: u8 = 2;

pub const SQ_D1: u8 = 3;

pub const SQ_E1: u8 = 4;

pub const SQ_F1: u8 = 5;

pub const SQ_G1: u8 = 6;

pub const SQ_H1: u8 = 7;

pub const SQ_A8: u8 = 56;

pub const SQ_E8: u8 = 60;

pub const SQ_H8: u8 = 63;

pub open spec fn file_of(sq: int) -> int {
    sq % 8
}

pub open spec fn rank_of(sq: int) -> int {
    sq / 8
}

pub fn square_file(sq: Square) -> (r: u8)
    ensures
        r == file_of(sq as int),
        r < 8,
{
    sq % 8
}

pub fn square_rank(sq: Square) -> (r: u8)
    ensures
        r == rank_of(sq as int),
        sq < 64 ==> r < 8,
{
    sq / 8
}

pub fn make_square(file: u8, rank: u8) -> (r: Square)
    requires
        rank * 8 + file < 256,
    ensures
        r == rank * 8 + file,
{
    rank * 8 + file
}

/// A square rebuilt from its file and rank is the same square.
pub proof fn lemma_square_parts(sq: int)
    requires
        0 <= sq,
    ensures
        rank_of(sq) * 8 + file_of(sq) == sq,
        0 <= file_of(sq) < 8,
        sq < 64 ==> 0 <= rank_of(sq) < 8,
{
}

/// The two characters naming a square: file letter, then rank digit.
pub open spec fn spec_square_name(sq: int) -> Seq<char> {
    seq![(97 + file_of(sq)) as char, (49 + rank_of(sq)) as char]
}

pub fn square_name(sq: Square) -> (s: String)
    ensures
        s@ == spec_square_name(sq as int),
{
    let f = (97u8 + square_file(sq)) as char;
    let r = (49u8 + square_rank(sq)) as char;
    let mut s = String::new();
    push_char(&mut s, f);
    push_char(&mut s, r);
    s
}

/// The square named by a file byte and a rank byte, if both are in range.
pub open spec fn square_of_bytes(f: u8, r: u8) -> Option<u8> {
    if 97 <= f <= 104 && 49 <= r <= 56 {
        Some(((r - 49) * 8 + (f - 97)) as u8)
    } else {
        None
    }
}

/// The square named by a two-byte string.
pub open spec fn spec_square_from_name(b: Seq<u8>) -> Option<u8> {
    if b.len() != 2 {
        None
    } else {
        square_of_bytes(b[0], b[1])
    }
}

fn square_from_bytes(f: u8, r: u8) -> (res: Option<Square>)
    ensures
        res == square_of_bytes(f, r),
        res matches Some(sq) ==> sq < 64,
{
    if !(97u8 <= f && f <= 104u8) || !(49u8 <= r && r <= 56u8) {
        return None;
    }
    Some(make_square(f - 97u8, r - 49u8))
}

pub fn square_from_name(s: &str) -> (res: Option<Square>)
    ensures
        res == spec_square_from_name(s.spec_bytes()),
        res matches Some(sq) ==> sq < 64,
{
    let bytes = s.as_bytes();
    if bytes.len() != 2 {
        return None;
    }
    square_from_bytes(bytes[0], bytes[1])
}

/// Naming a square and reading the name back gives the square.
pub proof fn lemma_square_name_roundtrip(sq: int)
    requires
        0 <= sq < 64,
    ensures
        square_of_bytes(
            spec_square_name(sq)[0] as u8,
            spec_square_name(sq)[1] as u8,
        ) == Some(sq as u8),
{
}

// Castling rights.
pub const CASTLE_WK: u8 = 1;

pub const CASTLE_WQ: u8 = 2;

pub const CASTLE_BK: u8 = 4;

pub const CASTLE_BQ: u8 = 8;

pub const CASTLE_ALL: u8 = 15;

// Move encoding: bits 0-5 from, 6-11 to, 12-14 promotion (0 none, 1 N, 2 B, 3 R, 4 Q).
#[derive(Clone, Copy, Debug, PartialEq, Eq, Structural)]
pub struct Move(pub u32);

/// The promotion code of an optional piece type.
pub open spec fn promo_code(p: Option<PieceType>) -> u32 {
    match p {
        Some(PieceType::Knight) => 1,
        Some(PieceType::Bishop) => 2,
        Some(PieceType::Rook) => 3,
        Some(PieceType::Queen) => 4,
        _ => 0,
    }
}

/// The promotion a code stands for.
pub open spec fn promo_of_code(c: u32) -> Option<PieceType> {
    if c == 1 {
        Some(PieceType::Knight)
    } else if c == 2 {
        Some(PieceType::Bishop)
    } else if c == 3 {
        Some(PieceType::Rook)
    } else if c == 4 {
        Some(PieceType::Queen)
    } else {
        None
    }
}

pub open spec fn move_from(m: Move) -> u8 {
    (m.0 & 0x3F) as u8
}

pub open spec fn move_to(m: Move) -> u8 {
    ((m.0 >> 6) & 0x3F) as u8
}

pub open spec fn move_promo(m: Move) -> Option<PieceType> {
    promo_of_code((m.0 >> 12) & 7)
}

/// The move encoding of a from square, a to square and a promotion.
pub open spec fn encode_move(from: u8, to: u8, promo: Option<PieceType>) -> Move {
    Move(((from as u32) & 0x3F) | (((to as u32) & 0x3F) << 6) | (promo_code(promo) << 12))
}

proof fn lemma_move_fields(f: u32, t: u32, p: u32)
    requires
        f < 64,
        t < 64,
        p < 8,
    ensures
        ((f & 0x3F) | ((t & 0x3F) << 6) | (p << 12)) & 0x3F == f,
        ((((f & 0x3F) | ((t & 0x3F) << 6) | (p << 12)) >> 6) & 0x3F) == t,
        ((((f & 0x3F) | ((t & 0x3F) << 6) | (p << 12)) >> 12) & 7) == p,
        ((f & 0x3F) | ((t & 0x3F) << 6) | (p << 12)) == 0 <==> (f == 0 && t == 0 && p == 0),
{
    assert(((f & 0x3F) | ((t & 0x3F) << 6) | (p << 12)) & 0x3F == f && ((((f & 0x3F) | ((t
        & 0x3F) << 6) | (p << 12)) >> 6) & 0x3F) == t && ((((f & 0x3F) | ((t & 0x3F) << 6) | (p
        << 12)) >> 12) & 7) == p && (((f & 0x3F) | ((t & 0x3F) << 6) | (p << 12)) == 0 <==> (f
        == 0 && t == 0 && p == 0))) by (bit_vector)
        requires
            f < 64,
            t < 64,
            p < 8,
    ;
}

proof fn lemma_move_field_bounds(x: u32)
    ensures
        x & 0x3F < 64,
        (x >> 6) & 0x3F < 64,
        (x >> 12) & 7 < 8,
{
    assert(x & 0x3F < 64 && (x >> 6) & 0x3F < 64 && (x >> 12) & 7 < 8) by (bit_vector);
}

/// The squares of any move are on the board.
pub proof fn lemma_move_bounds(m: Move)
    ensures
        move_from(m) < 64,
        move_to(m) < 64,
{
    lemma_move_field_bounds(m.0);
}

/// Reading the name of a square back, through its text, gives the square.
pub proof fn lemma_square_text_roundtrip(sq: u8)
    requires
        sq < 64,
    ensures
        spec_square_from_name(vstd::utf8::encode_utf8(spec_square_name(sq as int))) == Some(sq),
{
    let t = spec_square_name(sq as int);
    assert(vstd::utf8::is_ascii_chars(t));
    vstd::utf8::is_ascii_chars_encode_utf8(t);
    let b = vstd::utf8::encode_utf8(t);
    assert(b[0] == 97 + sq % 8 && b[1] == 49 + sq / 8);
}

/// Reading the UCI text of a move back gives the move: for every move but
/// the null move (whose text "0000" names no squares), without promotion or
/// promoting to a knight, bishop, rook or queen.
pub proof fn lemma_uci_roundtrip(from: u8, to: u8, promo: Option<PieceType>)
    requires
        from < 64,
        to < 64,
        encode_move(from, to, promo).0 != 0,
        promo matches Some(p) ==> p != PieceType::Pawn && p != PieceType::King,
    ensures
        spec_move_from_uci(vstd::utf8::encode_utf8(spec_move_uci(encode_move(from, to, promo))))
            == Some(encode_move(from, to, promo)),
{
    let m = encode_move(from, to, promo);
    lemma_move_fields(from as u32, to as u32, promo_code(promo));
    lemma_move_roundtrip(from, to, promo);
    let t = spec_move_uci(m);
    assert(m.0 != 0);
    assert(vstd::utf8::is_ascii_chars(t));
    vstd::utf8::is_ascii_chars_encode_utf8(t);
    let b = vstd::utf8::encode_utf8(t);
    assert(b[0] == 97 + from % 8 && b[1] == 49 + from / 8);
    assert(b[2] == 97 + to % 8 && b[3] == 49 + to / 8);
    assert(square_of_bytes(b[0], b[1]) == Some(from));
    assert(square_of_bytes(b[2], b[3]) == Some(to));
}

/// Decoding an encoded move gives back its squares and its promotion
/// (promotions to pawn or king are encoded as no promotion).
pub proof fn lemma_move_roundtrip(from: u8, to: u8, promo: Option<PieceType>)
    requires
        from < 64,
        to < 64,
    ensures
        move_from(encode_move(from, to, promo)) == from,
        move_to(encode_move(from, to, promo)) == to,
        move_promo(encode_move(from, to, promo)) == promo_of_code(promo_code(promo)),
        (promo matches Some(p) && p != PieceType::Pawn && p != PieceType::King) ==> move_promo(
            encode_move(from, to, promo),
        ) == promo,
{
    lemma_move_fields(from as u32, to as u32, promo_code(promo));
}

impl Move {
    /// The null move, encoded as 0.
    pub fn null() -> (m: Move)
        ensures
            m.0 == 0,
    {
        Move(0)
    }

    pub fn new(from: Square, to: Square, promo: Option<PieceType>) -> (m: Self)
        ensures
            m == encode_move(from, to, promo),
    {
        let p: u32 = match promo {
            None => 0,
            Some(PieceType::Knight) => 1,
            Some(PieceType::Bishop) => 2,
            Some(PieceType::Rook) => 3,
            Some(PieceType::Queen) => 4,
            _ => 0,
        };
        Move(((from as u32) & 0x3F) | (((to as u32) & 0x3F) << 6) | (p << 12))
    }

    pub fn from_sq(self) -> (r: Square)
        ensures
            r == move_from(self),
            r < 64,
    {
        proof {
            lemma_move_field_bounds(self.0);
        }
        (self.0 & 0x3F) as Square
    }

    pub fn to_sq(self) -> (r: Square)
        ensures
            r == move_to(self),
            r < 64,
    {
        proof {
            lemma_move_field_bounds(self.0);
        }
        ((self.0 >> 6) & 0x3F) as Square
    }

    pub fn promotion(self) -> (r: Option<PieceType>)
        ensures
            r == move_promo(self),
    {
        match (self.0 >> 12) & 0x7 {
            1 => Some(PieceType::Knight),
            2 => Some(PieceType::Bishop),
            3 => Some(PieceType::Rook),
            4 => Some(PieceType::Queen),
            _ => None,
        }
    }

    pub fn is_null(self) -> (r: bool)
        ensures
            r == (self.0 == 0),
    {
        self.0 == 0
    }

    pub fn is_promotion(self) -> (r: bool)
        ensures
            r == (move_promo(self) is Some),
    {
        self.promotion().is_some()
    }

    pub fn from_uci(s: &str) -> (res: Option<Move>)
        requires
            4 <= s.spec_bytes().len() <= 5 ==> vstd::utf8::is_char_boundary(s.spec_bytes(), 2)
                && vstd::utf8::is_char_boundary(s.spec_bytes(), 4),
        ensures
            res == spec_move_from_uci(s.spec_bytes()),
    {
        let b = s.as_bytes();
        let n = b.len();
        if n < 4 || n > 5 {
            return None;
        }
        let from = match square_from_bytes(b[0], b[1]) {
            Some(sq) => sq,
            None => return None,
        };
        let to = match square_from_bytes(b[2], b[3]) {
            Some(sq) => sq,
            None => return None,
        };
        let promo = if n == 5 {
            let c = b[4];
            if c == 113u8 || c == 81u8 {
                Some(PieceType::Queen)
            } else if c == 114u8 || c == 82u8 {
                Some(PieceType::Rook)
            } else if c == 98u8 || c == 66u8 {
                Some(PieceType::Bishop)
            } else if c == 110u8 || c == 78u8 {
                Some(PieceType::Knight)
            } else {
                return None;
            }
        } else {
            None
        };
        Some(Move::new(from, to, promo))
    }

    pub fn to_uci(self) -> (s: String)
        ensures
            s@ == spec_move_uci(self),
    {
        let mut s = String::new();
        if self.is_null() {
            push_char(&mut s, '0');
            push_char(&mut s, '0');
            push_char(&mut s, '0');
            push_char(&mut s, '0');
            return s;
        }
        let from = self.from_sq();
        let to = self.to_sq();
        push_char(&mut s, (97u8 + square_file(from)) as char);
        push_char(&mut s, (49u8 + square_rank(from)) as char);
        push_char(&mut s, (97u8 + square_file(to)) as char);
        push_char(&mut s, (49u8 + square_rank(to)) as char);
        match self.promotion() {
            Some(p) => push_char(&mut s, p.promo_char()),
            None => {},
        }
        s
    }
}

/// The promotion piece named by a byte, in either case.
pub open spec fn promo_of_byte(c: u8) -> Option<PieceType> {
    if c == 113 || c == 81 {
        Some(PieceType::Queen)
    } else if c == 114 || c == 82 {
        Some(PieceType::Rook)
    } else if c == 98 || c == 66 {
        Some(PieceType::Bishop)
    } else if c == 110 || c == 78 {
        Some(PieceType::Knight)
    } else {
        None
    }
}

/// The move a UCI string of 4 or 5 bytes names.
pub open spec fn spec_move_from_uci(b: Seq<u8>) -> Option<Move> {
    if b.len() < 4 || b.len() > 5 {
        None
    } else {
        match (square_of_bytes(b[0], b[1]), square_of_bytes(b[2], b[3])) {
            (Some(from), Some(to)) => {
                if b.len() == 5 {
                    match promo_of_byte(b[4]) {
                        Some(p) => Some(encode_move(from, to, Some(p))),
                        None => None,
                    }
                } else {
                    Some(encode_move(from, to, None))
                }
            },
            _ => None,
        }
    }
}

/// The UCI text of a move: "0000" for the null move, else the two square
/// names and the promotion letter if any.
pub open spec fn spec_move_uci(m: Move) -> Seq<char> {
    if m.0 == 0 {
        seq!['0', '0', '0', '0']
    } else {
        let base = spec_square_name(move_from(m) as int) + spec_square_name(move_to(m) as int);
        match move_promo(m) {
            Some(p) => base.push(spec_promo_char(p)),
            None => base,
        }
    }
}

/// A list of moves.
#[derive(Clone)]
pub struct MoveList {
    pub moves: Vec<Move>,
}

impl View for MoveList {
    type V = Seq<Move>;

    open spec fn view(&self) -> Seq<Move> {
        self.moves@
    }
}

impl MoveList {
    pub fn new() -> (l: Self)
        ensures
            l@ == Seq::<Move>::empty(),
    {
        MoveList { moves: Vec::new() }
    }

    pub fn clear(&mut self)
        ensures
            final(self)@ == Seq::<Move>::empty(),
    {
        self.moves.clear();
    }

    pub fn push(&mut self, m: Move)
        ensures
            final(self)@ == old(self)@.push(m),
    {
        self.moves.push(m);
    }

    pub fn is_empty(&self) -> (r: bool)
        ensures
            r == (self@.len() == 0),
    {
        self.moves.len() == 0
    }

    pub fn len(&self) -> (r: usize)
        ensures
            r == self@.len(),
    {
        self.moves.len()
    }

    pub fn get(&self, i: usize) -> (m: Move)
        requires
            i < self@.len(),
        ensures
            m == self@[i as int],
    {
        self.moves[i]
    }

    pub fn iter(&self) -> (it: std::slice::Iter<'_, Move>)
        ensures
            it.remaining() == self@.as_ref(),
    {
        broadcast use vstd::std_specs::slice::axiom_spec_slice_iter;

        self.moves.as_slice().iter()
    }

    pub fn as_slice(&self) -> (s: &[Move])
        ensures
            s@ == self@,
    {
        self.moves.as_slice()
    }
}

// Bitboard helpers.
pub fn bb_square(sq: Square) -> (b: u64)
    requires
        sq < 64,
    ensures
        b == 1u64 << sq,
        forall|i: u64| i < 64 ==> #[trigger] bit(b, i) == (i == sq),
{
    proof {
        assert forall|i: u64| i < 64 implies #[trigger] bit(1u64 << sq, i) == (i == sq) by {
            lemma_bit_single(sq as u64, i);
        }
    }
    1u64 << sq
}

/// Removes the lowest set bit of a nonzero bitboard and returns its square.
pub fn pop_lsb(bb: &mut u64) -> (sq: Square)
    requires
        *old(bb) != 0,
    ensures
        sq == u64_trailing_zeros(*old(bb)),
        sq < 64,
        bit(*old(bb), sq as u64),
        forall|j: u64| j < sq ==> !#[trigger] bit(*old(bb), j),
        forall|j: u64| j < 64 ==> #[trigger] bit(*final(bb), j) == (bit(*old(bb), j) && j != sq),
        *final(bb) < *old(bb),
{
    proof {
        lemma_lowest_bit(*bb);
        assert forall|j: u64| j < 64 implies #[trigger] bit(*bb & ((*bb - 1) as u64), j) == (bit(
            *bb,
            j,
        ) && j != u64_trailing_zeros(*bb) as u64) by {
            lemma_clear_lowest(*bb, j);
        }
        lemma_and_below(*bb, (*bb - 1) as u64);
    }
    let sq = bb.trailing_zeros() as Square;
    *bb = *bb & (*bb - 1);
    sq
}

pub fn lsb(bb: u64) -> (sq: Square)
    ensures
        sq == u64_trailing_zeros(bb),
        bb != 0 ==> sq < 64 && bit(bb, sq as u64),
        bb == 0 ==> sq == 64,
{
    proof {
        vstd::std_specs::bits::axiom_u64_trailing_zeros(bb);
    }
    bb.trailing_zeros() as Square
}

pub fn count_bits(bb: u64) -> (n: u32)
    ensures
        n == popcount(bb),
        n <= 64,
{
    let mut n: u32 = 0;
    let mut i: u64 = 0;
    while i < 64
        invariant
            i <= 64,
            n == popcount_upto(bb, i as nat),
            n <= i,
        decreases 64 - i,
    {
        if (bb >> i) & 1 == 1 {
            n += 1;
        }
        i += 1;
    }
    n
}

} // verus!
