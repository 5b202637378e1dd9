use vstd::prelude::*;
use crate::bitboard::{Bitboard, is_square, rank_spec, bit, lemma_bitops, lemma_eq_bits, lemma_zero_bits};

verus! {

#[derive(Clone, Copy, PartialEq, Eq, Structural, Debug)]
pub enum PieceType {
    Pawn,
    Knight,
    Bishop,
    Rook,
    Queen,
    King,
}

impl PieceType {
    pub open spec fn char_spec(self) -> char {
        match self {
            PieceType::Pawn => 'p',
            PieceType::Knight => 'n',
            PieceType::Bishop => 'b',
            PieceType::Rook => 'r',
            PieceType::Queen => 'q',
            PieceType::King => 'k',
        }
    }

    pub open spec fn char_upper_spec(self) -> char {
        match self {
            PieceType::Pawn => 'P',
            PieceType::Knight => 'N',
            PieceType::Bishop => 'B',
            PieceType::Rook => 'R',
            PieceType::Queen => 'Q',
            PieceType::King => 'K',
        }
    }

    /// Lower-case letter of the piece type.
    pub fn char(self) -> (r: char)
        ensures
            r == self.char_spec(),
    {
        match self {
            PieceType::Pawn => 'p',
            PieceType::Knight => 'n',
            PieceType::Bishop => 'b',
            PieceType::Rook => 'r',
            PieceType::Queen => 'q',
            PieceType::King => 'k',
        }
    }

    /// Upper-case letter of the piece type.
    pub fn char_upper(self) -> (r: char)
        ensures
            r == self.char_upper_spec(),
    {
        match self {
            PieceType::Pawn => 'P',
            PieceType::Knight => 'N',
            PieceType::Bishop => 'B',
            PieceType::Rook => 'R',
            PieceType::Queen => 'Q',
            PieceType::King => 'K',
        }
    }
}

#[derive(Clone, Copy, PartialEq, Eq, Structural, Debug)]
pub enum Color {
    Black,
    White,
}

impl Color {
    pub open spec fn opponent(self) -> Color {
        match self {
            Color::White => Color::Black,
            Color::Black => Color::White,
        }
    }

    pub fn from_white(white: bool) -> (r: Color)
        ensures
            r == (if white {
                Color::White
            } else {
                Color::Black
            }),
    {
        if white {
            Color::White
        } else {
            Color::Black
        }
    }

    pub fn other(self) -> (r: Color)
        ensures
            r == self.opponent(),
    {
        match self {
            Color::White => Color::Black,
            Color::Black => Color::White,
        }
    }
}

#[derive(Clone, Copy, PartialEq, Eq, Structural, Debug)]
pub struct Piece {
    pub color: Color,
    pub piece_type: PieceType,
}

impl Piece {
    pub fn is_white(&self) -> (r: bool)
        ensures
            r == (self.color == Color::White),
    {
        self.color == Color::White
    }

    /// Display letter: lower case for White, upper case for Black.
    pub fn char(&self) -> (r: char)
        ensures
            r == (if self.color == Color::White {
                self.piece_type.char_spec()
            } else {
                self.piece_type.char_upper_spec()
            }),
    {
        if self.is_white() {
            self.piece_type.char()
        } else {
            self.piece_type.char_upper()
        }
    }
}

/// Squares occupied by each color.
#[derive(Clone, Copy, PartialEq, Eq, Structural, Debug)]
pub struct BoardColor {
    pub white: Bitboard,
    pub black: Bitboard,
}

#[derive(Clone, Copy, PartialEq, Eq, Structural, Debug)]
pub struct CastlingRights {
    pub white_king_side: bool,
    pub white_queen_side: bool,
    pub black_king_side: bool,
    pub black_queen_side: bool,
}

#[derive(Clone, Copy, PartialEq, Eq, Structural, Debug)]
pub enum ChessError {
    /// The text does not read as a pair of squares with an optional promotion letter.
    MalformedAlgebraic,
    /// The squares read match no pseudo-legal move of the position.
    AmbiguousOrIllegalMove,
    /// The bitboards of a position contradict each other.
    InvariantViolation,
}

/// A position: one bitboard per piece type (both colors together), one per
/// color, and the state that the rules of play carry from move to move.
#[derive(Clone, Copy, PartialEq, Eq, Structural, Debug)]
pub struct Board {
    pub pawns: Bitboard,
    pub knights: Bitboard,
    pub bishops: Bitboard,
    pub rooks: Bitboard,
    pub queens: Bitboard,
    pub kings: Bitboard,
    pub colors: BoardColor,
    pub side_to_move: Color,
    pub castling: CastlingRights,
    /// The square passed over by a pawn that has just advanced two ranks.
    pub en_passant: Option<u32>,
    pub halfmove_clock: u32,
    pub fullmove_number: u32,
}

pub const INIT_PAWNS: u64 = 0x00ff_0000_0000_ff00;

pub const INIT_KNIGHTS: u64 = 0x4200_0000_0000_0042;

pub const INIT_BISHOPS: u64 = 0x2400_0000_0000_0024;

pub const INIT_ROOKS: u64 = 0x8100_0000_0000_0081;

pub const INIT_QUEENS: u64 = 0x0800_0000_0000_0008;

pub const INIT_KINGS: u64 = 0x1000_0000_0000_0010;

pub const INIT_WHITE: u64 = 0x0000_0000_0000_ffff;

pub const INIT_BLACK: u64 = 0xffff_0000_0000_0000;

impl Board {
    pub open spec fn type_bb(self, t: PieceType) -> Bitboard {
        match t {
            PieceType::Pawn => self.pawns,
            PieceType::Knight => self.knights,
            PieceType::Bishop => self.bishops,
            PieceType::Rook => self.rooks,
            PieceType::Queen => self.queens,
            PieceType::King => self.kings,
        }
    }

    pub open spec fn color_bb(self, c: Color) -> Bitboard {
        match c {
            Color::White => self.colors.white,
            Color::Black => self.colors.black,
        }
    }

    pub open spec fn type_at(self, s: int) -> Option<PieceType> {
        if self.pawns.has(s) {
            Some(PieceType::Pawn)
        } else if self.knights.has(s) {
            Some(PieceType::Knight)
        } else if self.bishops.has(s) {
            Some(PieceType::Bishop)
        } else if self.rooks.has(s) {
            Some(PieceType::Rook)
        } else if self.queens.has(s) {
            Some(PieceType::Queen)
        } else if self.kings.has(s) {
            Some(PieceType::King)
        } else {
            None
        }
    }

    pub open spec fn color_on(self, s: int) -> Option<Color> {
        if self.colors.white.has(s) {
            Some(Color::White)
        } else if self.colors.black.has(s) {
            Some(Color::Black)
        } else {
            None
        }
    }

    pub open spec fn piece_at_spec(self, s: int) -> Option<Piece> {
        match self.type_at(s) {
            Some(t) => Some(
                Piece {
                    color: if self.colors.white.has(s) {
                        Color::White
                    } else {
                        Color::Black
                    },
                    piece_type: t,
                },
            ),
            None => None,
        }
    }

    pub open spec fn is_occupied(self, s: int) -> bool {
        self.colors.white.has(s) || self.colors.black.has(s)
    }

    pub open spec fn has_piece(self, s: int, c: Color, t: PieceType) -> bool {
        self.color_on(s) == Some(c) && self.type_at(s) == Some(t)
    }

    pub open spec fn type_count(self, s: int) -> int {
        (if self.pawns.has(s) { 1int } else { 0int }) + (if self.knights.has(s) { 1int } else { 0int })
            + (if self.bishops.has(s) { 1int } else { 0int }) + (if self.rooks.has(s) { 1int } else { 0int })
            + (if self.queens.has(s) { 1int } else { 0int }) + (if self.kings.has(s) { 1int } else { 0int })
    }

    /// At most one piece type and one color on square `s`, and a type exactly
    /// where there is a color.
    pub open spec fn square_ok(self, s: int) -> bool {
        &&& self.type_count(s) <= 1
        &&& !(self.colors.white.has(s) && self.colors.black.has(s))
        &&& (self.type_count(s) == 1) == self.is_occupied(s)
    }

    /// The bitboards agree with each other on every square.
    pub open spec fn bitboards_ok(self) -> bool {
        forall|s: int| #[trigger] self.square_ok(s)
    }

    /// The en-passant square, if any, lies behind a pawn of the side that has
    /// just moved, which passed over it.
    pub open spec fn en_passant_ok(self) -> bool {
        match self.en_passant {
            None => true,
            Some(e) => {
                &&& e < 64
                &&& !self.is_occupied(e as int)
                &&& self.side_to_move == Color::Black ==> rank_spec(e as int) == 2
                    && self.has_piece(e + 8, Color::White, PieceType::Pawn)
                &&& self.side_to_move == Color::White ==> rank_spec(e as int) == 5
                    && self.has_piece(e - 8, Color::Black, PieceType::Pawn)
            },
        }
    }

    /// A castling right is held only while king and rook stand on their home squares.
    pub open spec fn castling_ok(self) -> bool {
        &&& self.castling.white_king_side ==> self.has_piece(4, Color::White, PieceType::King)
            && self.has_piece(7, Color::White, PieceType::Rook)
        &&& self.castling.white_queen_side ==> self.has_piece(4, Color::White, PieceType::King)
            && self.has_piece(0, Color::White, PieceType::Rook)
        &&& self.castling.black_king_side ==> self.has_piece(60, Color::Black, PieceType::King)
            && self.has_piece(63, Color::Black, PieceType::Rook)
        &&& self.castling.black_queen_side ==> self.has_piece(60, Color::Black, PieceType::King)
            && self.has_piece(56, Color::Black, PieceType::Rook)
    }

    pub open spec fn wf(self) -> bool {
        self.bitboards_ok() && self.en_passant_ok() && self.castling_ok()
    }

    /// The bitboard equations behind `bitboards_ok`: the six piece-type sets are
    /// pairwise disjoint, the two color sets are disjoint, and both cover the same squares.
    pub open spec fn bits_consistent(self) -> bool {
        let p = self.pawns.0;
        let n = self.knights.0;
        let b = self.bishops.0;
        let r = self.rooks.0;
        let q = self.queens.0;
        let k = self.kings.0;
        &&& p & n == 0 && p & b == 0 && p & r == 0 && p & q == 0 && p & k == 0
        &&& n & b == 0 && n & r == 0 && n & q == 0 && n & k == 0
        &&& b & r == 0 && b & q == 0 && b & k == 0
        &&& r & q == 0 && r & k == 0
        &&& q & k == 0
        &&& self.colors.white.0 & self.colors.black.0 == 0
        &&& p | n | b | r | q | k == self.colors.white.0 | self.colors.black.0
    }
}

proof fn lemma_square_bits(bd: Board, i: u64)
    requires
        i < 64,
    ensures
        bd.square_ok(i as int) == (!bit(bd.pawns.0 & bd.knights.0, i) && !bit(bd.pawns.0 & bd.bishops.0, i)
            && !bit(bd.pawns.0 & bd.rooks.0, i) && !bit(bd.pawns.0 & bd.queens.0, i)
            && !bit(bd.pawns.0 & bd.kings.0, i) && !bit(bd.knights.0 & bd.bishops.0, i)
            && !bit(bd.knights.0 & bd.rooks.0, i) && !bit(bd.knights.0 & bd.queens.0, i)
            && !bit(bd.knights.0 & bd.kings.0, i) && !bit(bd.bishops.0 & bd.rooks.0, i)
            && !bit(bd.bishops.0 & bd.queens.0, i) && !bit(bd.bishops.0 & bd.kings.0, i)
            && !bit(bd.rooks.0 & bd.queens.0, i) && !bit(bd.rooks.0 & bd.kings.0, i)
            && !bit(bd.queens.0 & bd.kings.0, i) && !bit(bd.colors.white.0 & bd.colors.black.0, i)
            && bit(bd.pawns.0 | bd.knights.0 | bd.bishops.0 | bd.rooks.0 | bd.queens.0 | bd.kings.0, i)
            == bit(bd.colors.white.0 | bd.colors.black.0, i)),
{
    let p = bd.pawns.0;
    let n = bd.knights.0;
    let b = bd.bishops.0;
    let r = bd.rooks.0;
    let q = bd.queens.0;
    let k = bd.kings.0;
    lemma_bitops(p, n, i);
    lemma_bitops(p, b, i);
    lemma_bitops(p, r, i);
    lemma_bitops(p, q, i);
    lemma_bitops(p, k, i);
    lemma_bitops(n, b, i);
    lemma_bitops(n, r, i);
    lemma_bitops(n, q, i);
    lemma_bitops(n, k, i);
    lemma_bitops(b, r, i);
    lemma_bitops(b, q, i);
    lemma_bitops(b, k, i);
    lemma_bitops(r, q, i);
    lemma_bitops(r, k, i);
    lemma_bitops(q, k, i);
    lemma_bitops(p | n, b, i);
    lemma_bitops(p | n | b, r, i);
    lemma_bitops(p | n | b | r, q, i);
    lemma_bitops(p | n | b | r | q, k, i);
    lemma_bitops(bd.colors.white.0, bd.colors.black.0, i);
}

/// On consistent bitboards two different piece types share no square, nor do the two colors.
proof fn lemma_disjoint(bd: Board, t1: PieceType, t2: PieceType)
    requires
        bd.bitboards_ok(),
        t1 != t2,
    ensures
        bd.type_bb(t1).0 & bd.type_bb(t2).0 == 0,
        bd.colors.white.0 & bd.colors.black.0 == 0,
{
    let x = bd.type_bb(t1).0;
    let y = bd.type_bb(t2).0;
    let w = bd.colors.white.0;
    let bl = bd.colors.black.0;
    assert forall|k: u64| k < 64 implies !#[trigger] bit(x & y, k) by {
        assert(bd.square_ok(k as int));
        lemma_board_fields(bd, k as int);
        lemma_bitops(x, y, k);
    }
    assert forall|k: u64| k < 64 implies !#[trigger] bit(w & bl, k) by {
        assert(bd.square_ok(k as int));
        lemma_bitops(w, bl, k);
    }
    lemma_zero_bits(x & y);
    lemma_zero_bits(w & bl);
}

proof fn lemma_bits_consistent(bd: Board)
    ensures
        bd.bits_consistent() == bd.bitboards_ok(),
{
    let p = bd.pawns.0;
    let n = bd.knights.0;
    let b = bd.bishops.0;
    let r = bd.rooks.0;
    let q = bd.queens.0;
    let k = bd.kings.0;
    let w = bd.colors.white.0;
    let bl = bd.colors.black.0;
    if bd.bits_consistent() {
        assert forall|s: int| #[trigger] bd.square_ok(s) by {
            if is_square(s) {
                lemma_square_bits(bd, s as u64);
                lemma_bitops(0, 0, s as u64);
            }
        }
    }
    if bd.bitboards_ok() {
        assert forall|i: u64| i < 64 implies bit(p | n | b | r | q | k, i) == bit(w | bl, i) by {
            lemma_square_bits(bd, i);
            assert(bd.square_ok(i as int));
        }
        lemma_eq_bits(p | n | b | r | q | k, w | bl);
        lemma_disjoint(bd, PieceType::Pawn, PieceType::Knight);
        lemma_disjoint(bd, PieceType::Pawn, PieceType::Bishop);
        lemma_disjoint(bd, PieceType::Pawn, PieceType::Rook);
        lemma_disjoint(bd, PieceType::Pawn, PieceType::Queen);
        lemma_disjoint(bd, PieceType::Pawn, PieceType::King);
        lemma_disjoint(bd, PieceType::Knight, PieceType::Bishop);
        lemma_disjoint(bd, PieceType::Knight, PieceType::Rook);
        lemma_disjoint(bd, PieceType::Knight, PieceType::Queen);
        lemma_disjoint(bd, PieceType::Knight, PieceType::King);
        lemma_disjoint(bd, PieceType::Bishop, PieceType::Rook);
        lemma_disjoint(bd, PieceType::Bishop, PieceType::Queen);
        lemma_disjoint(bd, PieceType::Bishop, PieceType::King);
        lemma_disjoint(bd, PieceType::Rook, PieceType::Queen);
        lemma_disjoint(bd, PieceType::Rook, PieceType::King);
        lemma_disjoint(bd, PieceType::Queen, PieceType::King);
    }
}

impl Board {
    /// The standard starting position, White to move.
    pub fn new() -> (r: Board)
        ensures
            r.wf(),
            r.side_to_move == Color::White,
            r.en_passant is None,
            r.castling == (CastlingRights {
                white_king_side: true,
                white_queen_side: true,
                black_king_side: true,
                black_queen_side: true,
            }),
            r.halfmove_clock == 0,
            r.fullmove_number == 1,
            r.pawns.0 == INIT_PAWNS,
            r.knights.0 == INIT_KNIGHTS,
            r.bishops.0 == INIT_BISHOPS,
            r.rooks.0 == INIT_ROOKS,
            r.queens.0 == INIT_QUEENS,
            r.kings.0 == INIT_KINGS,
            r.colors.white.0 == INIT_WHITE,
            r.colors.black.0 == INIT_BLACK,
    {
        let r = Board {
            pawns: Bitboard::new(INIT_PAWNS),
            knights: Bitboard::new(INIT_KNIGHTS),
            bishops: Bitboard::new(INIT_BISHOPS),
            rooks: Bitboard::new(INIT_ROOKS),
            queens: Bitboard::new(INIT_QUEENS),
            kings: Bitboard::new(INIT_KINGS),
            colors: BoardColor {
                white: Bitboard::new(INIT_WHITE),
                black: Bitboard::new(INIT_BLACK),
            },
            side_to_move: Color::White,
            castling: CastlingRights {
                white_king_side: true,
                white_queen_side: true,
                black_king_side: true,
                black_queen_side: true,
            },
            en_passant: None,
            halfmove_clock: 0,
            fullmove_number: 1,
        };
        proof {
            assert(INIT_PAWNS & INIT_KNIGHTS == 0 && INIT_PAWNS & INIT_BISHOPS == 0 && INIT_PAWNS & INIT_ROOKS == 0 && INIT_PAWNS & INIT_QUEENS == 0 && INIT_PAWNS & INIT_KINGS == 0 && INIT_KNIGHTS & INIT_BISHOPS == 0
                && INIT_KNIGHTS & INIT_ROOKS == 0 && INIT_KNIGHTS & INIT_QUEENS == 0 && INIT_KNIGHTS & INIT_KINGS == 0 && INIT_BISHOPS & INIT_ROOKS == 0 && INIT_BISHOPS & INIT_QUEENS == 0 && INIT_BISHOPS & INIT_KINGS == 0
                && INIT_ROOKS & INIT_QUEENS == 0 && INIT_ROOKS & INIT_KINGS == 0 && INIT_QUEENS & INIT_KINGS == 0 && INIT_WHITE & INIT_BLACK == 0 && INIT_PAWNS | INIT_KNIGHTS | INIT_BISHOPS | INIT_ROOKS | INIT_QUEENS | INIT_KINGS
                == INIT_WHITE | INIT_BLACK) by (bit_vector);
            assert(bit(INIT_WHITE, 4) && bit(INIT_KINGS, 4) && bit(INIT_WHITE, 7) && bit(INIT_ROOKS, 7) && bit(INIT_WHITE, 0) && bit(INIT_ROOKS, 0)
                && !bit(INIT_WHITE, 60) && bit(INIT_BLACK, 60) && bit(INIT_KINGS, 60) && !bit(INIT_WHITE, 63) && bit(INIT_BLACK, 63) && bit(INIT_ROOKS, 63)
                && !bit(INIT_WHITE, 56) && bit(INIT_BLACK, 56) && bit(INIT_ROOKS, 56) && !bit(INIT_PAWNS, 4) && !bit(INIT_KNIGHTS, 4) && !bit(INIT_BISHOPS, 4)
                && !bit(INIT_ROOKS, 4) && !bit(INIT_QUEENS, 4) && !bit(INIT_PAWNS, 60) && !bit(INIT_KNIGHTS, 60) && !bit(INIT_BISHOPS, 60)
                && !bit(INIT_ROOKS, 60) && !bit(INIT_QUEENS, 60) && !bit(INIT_PAWNS, 7) && !bit(INIT_KNIGHTS, 7) && !bit(INIT_BISHOPS, 7)
                && !bit(INIT_PAWNS, 0) && !bit(INIT_KNIGHTS, 0) && !bit(INIT_BISHOPS, 0) && !bit(INIT_PAWNS, 63) && !bit(INIT_KNIGHTS, 63) && !bit(INIT_BISHOPS, 63)
                && !bit(INIT_PAWNS, 56) && !bit(INIT_KNIGHTS, 56) && !bit(INIT_BISHOPS, 56)) by (bit_vector);
            lemma_bits_consistent(r);
        }
        r
    }

    pub fn pawns(&self) -> (r: Bitboard)
        ensures
            r == self.pawns,
    {
        self.pawns
    }

    pub fn knights(&self) -> (r: Bitboard)
        ensures
            r == self.knights,
    {
        self.knights
    }

    pub fn bishops(&self) -> (r: Bitboard)
        ensures
            r == self.bishops,
    {
        self.bishops
    }

    pub fn rooks(&self) -> (r: Bitboard)
        ensures
            r == self.rooks,
    {
        self.rooks
    }

    pub fn queens(&self) -> (r: Bitboard)
        ensures
            r == self.queens,
    {
        self.queens
    }

    pub fn kings(&self) -> (r: Bitboard)
        ensures
            r == self.kings,
    {
        self.kings
    }

    pub fn black(&self) -> (r: Bitboard)
        ensures
            r == self.colors.black,
    {
        self.colors.black
    }

    pub fn white(&self) -> (r: Bitboard)
        ensures
            r == self.colors.white,
    {
        self.colors.white
    }

    /// The bitboard of one piece type.
    pub fn pieces_of(&self, t: PieceType) -> (r: Bitboard)
        ensures
            r == self.type_bb(t),
    {
        match t {
            PieceType::Pawn => self.pawns,
            PieceType::Knight => self.knights,
            PieceType::Bishop => self.bishops,
            PieceType::Rook => self.rooks,
            PieceType::Queen => self.queens,
            PieceType::King => self.kings,
        }
    }

    /// The bitboard of one color.
    pub fn color_of(&self, c: Color) -> (r: Bitboard)
        ensures
            r == self.color_bb(c),
    {
        match c {
            Color::White => self.colors.white,
            Color::Black => self.colors.black,
        }
    }

    /// All occupied squares.
    pub fn occupied(&self) -> (r: Bitboard)
        ensures
            forall|s: int| #[trigger] r.has(s) == self.is_occupied(s),
    {
        self.colors.white.union(self.colors.black)
    }

    /// All empty squares.
    pub fn empty_squares(&self) -> (r: Bitboard)
        ensures
            forall|s: int| #[trigger] r.has(s) == (is_square(s) && !self.is_occupied(s)),
    {
        self.occupied().complement()
    }

    pub fn piece_type_at(&self, square: u32) -> (r: Option<PieceType>)
        requires
            square < 64,
        ensures
            r == self.type_at(square as int),
    {
        if self.pawns.is_bit_set(square) {
            Some(PieceType::Pawn)
        } else if self.knights.is_bit_set(square) {
            Some(PieceType::Knight)
        } else if self.bishops.is_bit_set(square) {
            Some(PieceType::Bishop)
        } else if self.rooks.is_bit_set(square) {
            Some(PieceType::Rook)
        } else if self.queens.is_bit_set(square) {
            Some(PieceType::Queen)
        } else if self.kings.is_bit_set(square) {
            Some(PieceType::King)
        } else {
            None
        }
    }

    pub fn color_at(&self, square: u32) -> (r: Option<Color>)
        requires
            square < 64,
        ensures
            r == self.color_on(square as int),
    {
        if self.colors.white.is_bit_set(square) {
            Some(Color::White)
        } else if self.colors.black.is_bit_set(square) {
            Some(Color::Black)
        } else {
            None
        }
    }

    /// The piece on a square: its type, and White where the white bitboard
    /// holds the square, else Black.
    pub fn piece_at(&self, square: u32) -> (r: Option<Piece>)
        requires
            square < 64,
        ensures
            r == self.piece_at_spec(square as int),
    {
        match self.piece_type_at(square) {
            Some(piece_type) => Some(
                Piece { color: Color::from_white(self.colors.white.is_bit_set(square)), piece_type },
            ),
            None => None,
        }
    }

    /// Whether the bitboards satisfy the board invariant; `Err(InvariantViolation)` where not.
    pub fn validate(&self) -> (r: Result<(), ChessError>)
        ensures
            r is Ok <==> self.wf(),
            r matches Err(e) ==> e == ChessError::InvariantViolation,
    {
        let p = self.pawns.0;
        let n = self.knights.0;
        let b = self.bishops.0;
        let r = self.rooks.0;
        let q = self.queens.0;
        let k = self.kings.0;
        let bits = p & n == 0 && p & b == 0 && p & r == 0 && p & q == 0 && p & k == 0 && n & b == 0
            && n & r == 0 && n & q == 0 && n & k == 0 && b & r == 0 && b & q == 0 && b & k == 0
            && r & q == 0 && r & k == 0 && q & k == 0 && self.colors.white.0 & self.colors.black.0
            == 0 && p | n | b | r | q | k == self.colors.white.0 | self.colors.black.0;
        proof {
            lemma_bits_consistent(*self);
        }
        if !bits {
            return Err(ChessError::InvariantViolation);
        }
        let ep_ok = match self.en_passant {
            None => true,
            Some(e) => {
                if e >= 64 || self.colors.white.is_bit_set(e) || self.colors.black.is_bit_set(e) {
                    false
                } else {
                    match self.side_to_move {
                        Color::Black => e / 8 == 2 && self.holds(e + 8, Color::White, PieceType::Pawn),
                        Color::White => e / 8 == 5 && self.holds(e - 8, Color::Black, PieceType::Pawn),
                    }
                }
            },
        };
        let c = self.castling;
        let castle_ok = (!c.white_king_side || (self.holds(4, Color::White, PieceType::King)
            && self.holds(7, Color::White, PieceType::Rook))) && (!c.white_queen_side || (self.holds(
            4,
            Color::White,
            PieceType::King,
        ) && self.holds(0, Color::White, PieceType::Rook))) && (!c.black_king_side || (self.holds(
            60,
            Color::Black,
            PieceType::King,
        ) && self.holds(63, Color::Black, PieceType::Rook))) && (!c.black_queen_side || (
        self.holds(60, Color::Black, PieceType::King) && self.holds(
            56,
            Color::Black,
            PieceType::Rook,
        )));
        if ep_ok && castle_ok {
            Ok(())
        } else {
            Err(ChessError::InvariantViolation)
        }
    }

    /// Whether a piece of color `c` and type `t` stands on `square`.
    pub fn holds(&self, square: u32, c: Color, t: PieceType) -> (r: bool)
        requires
            square < 64,
        ensures
            r == self.has_piece(square as int, c, t),
    {
        self.color_at(square) == Some(c) && self.piece_type_at(square) == Some(t)
    }
}

/// Square index of a rank (`row`) and a file (`col`).
pub fn coords_to_bit(row: u32, col: u32) -> (r: u32)
    requires
        row < 8,
        col < 8,
    ensures
        r == row * 8 + col,
{
    row * 8 + col
}

/// On a consistent board the piece reported on a square has the type and the
/// color reported there.
pub proof fn lemma_piece_at_agrees(b: Board, s: int)
    requires
        b.wf(),
        is_square(s),
    ensures
        b.piece_at_spec(s) is Some <==> b.type_at(s) is Some,
        b.piece_at_spec(s) is Some <==> b.color_on(s) is Some,
        b.piece_at_spec(s) matches Some(p) ==> b.type_at(s) == Some(p.piece_type) && b.color_on(s)
            == Some(p.color),
{
    assert(b.square_ok(s));
}

impl Board {
    /// The same position with square `sq` emptied in every bitboard.
    pub fn remove(&self, sq: u32) -> (r: Board)
        requires
            sq < 64,
        ensures
            forall|t: PieceType, q: int| #[trigger] r.type_bb(t).has(q) == (self.type_bb(t).has(q) && q != sq),
            forall|c: Color, q: int| #[trigger] r.color_bb(c).has(q) == (self.color_bb(c).has(q) && q != sq),
            r.side_to_move == self.side_to_move,
            r.castling == self.castling,
            r.en_passant == self.en_passant,
            r.halfmove_clock == self.halfmove_clock,
            r.fullmove_number == self.fullmove_number,
    {
        Board {
            pawns: self.pawns.clear(sq),
            knights: self.knights.clear(sq),
            bishops: self.bishops.clear(sq),
            rooks: self.rooks.clear(sq),
            queens: self.queens.clear(sq),
            kings: self.kings.clear(sq),
            colors: BoardColor { white: self.colors.white.clear(sq), black: self.colors.black.clear(sq) },
            ..*self
        }
    }

    /// The same position with a piece of color `c` and type `t` added on `sq`.
    pub fn put(&self, sq: u32, c: Color, t: PieceType) -> (r: Board)
        requires
            sq < 64,
        ensures
            forall|u: PieceType, q: int| #[trigger] r.type_bb(u).has(q) == (self.type_bb(u).has(q) || (q == sq && u == t)),
            forall|d: Color, q: int| #[trigger] r.color_bb(d).has(q) == (self.color_bb(d).has(q) || (q == sq && d == c)),
            r.side_to_move == self.side_to_move,
            r.castling == self.castling,
            r.en_passant == self.en_passant,
            r.halfmove_clock == self.halfmove_clock,
            r.fullmove_number == self.fullmove_number,
    {
        let mut r = *self;
        match t {
            PieceType::Pawn => r.pawns = r.pawns.set(sq),
            PieceType::Knight => r.knights = r.knights.set(sq),
            PieceType::Bishop => r.bishops = r.bishops.set(sq),
            PieceType::Rook => r.rooks = r.rooks.set(sq),
            PieceType::Queen => r.queens = r.queens.set(sq),
            PieceType::King => r.kings = r.kings.set(sq),
        }
        match c {
            Color::White => r.colors.white = r.colors.white.set(sq),
            Color::Black => r.colors.black = r.colors.black.set(sq),
        }
        r
    }
}

/// On consistent bitboards, a square holds a piece of color `c` and type `t`
/// exactly when that piece is reported there.
pub proof fn lemma_has_piece(b: Board, q: int, c: Color, t: PieceType)
    requires
        b.bitboards_ok(),
    ensures
        b.has_piece(q, c, t) == (b.piece_at_spec(q) == Some(Piece { color: c, piece_type: t })),
        b.is_occupied(q) == (b.piece_at_spec(q) is Some),
{
    assert(b.square_ok(q));
}

impl Board {
    /// A board with no pieces, no castling rights and no en-passant square.
    pub fn empty(side_to_move: Color) -> (r: Board)
        ensures
            r.wf(),
            forall|q: int| #[trigger] r.piece_at_spec(q) is None,
            forall|q: int| !#[trigger] r.is_occupied(q),
            r.side_to_move == side_to_move,
            r.castling == (CastlingRights {
                white_king_side: false,
                white_queen_side: false,
                black_king_side: false,
                black_queen_side: false,
            }),
            r.en_passant is None,
            r.halfmove_clock == 0,
            r.fullmove_number == 1,
    {
        let e = Bitboard::empty();
        let r = Board {
            pawns: e,
            knights: e,
            bishops: e,
            rooks: e,
            queens: e,
            kings: e,
            colors: BoardColor { white: e, black: e },
            side_to_move,
            castling: CastlingRights {
                white_king_side: false,
                white_queen_side: false,
                black_king_side: false,
                black_queen_side: false,
            },
            en_passant: None,
            halfmove_clock: 0,
            fullmove_number: 1,
        };
        proof {
            assert forall|q: int| #[trigger] r.square_ok(q) by {
                assert(!e.has(q));
            }
        }
        r
    }

    /// The position with `piece` added on an empty square; adding onto an
    /// occupied square or onto the en-passant square would break the board
    /// invariant and gives `Err(InvariantViolation)`.
    pub fn place(&self, square: u32, piece: Piece) -> (r: Result<Board, ChessError>)
        requires
            self.wf(),
            square < 64,
        ensures
            r is Ok <==> (!self.is_occupied(square as int) && self.en_passant != Some(square)),
            r matches Err(e) ==> e == ChessError::InvariantViolation,
            r matches Ok(next) ==> {
                &&& next.wf()
                &&& forall|q: int| #[trigger]
                    next.piece_at_spec(q) == (if q == square {
                        Some(piece)
                    } else {
                        self.piece_at_spec(q)
                    })
                &&& next.side_to_move == self.side_to_move
                &&& next.castling == self.castling
                &&& next.en_passant == self.en_passant
                &&& next.halfmove_clock == self.halfmove_clock
                &&& next.fullmove_number == self.fullmove_number
            },
    {
        if self.colors.white.is_bit_set(square) || self.colors.black.is_bit_set(square) {
            return Err(ChessError::InvariantViolation);
        }
        if self.en_passant == Some(square) {
            return Err(ChessError::InvariantViolation);
        }
        let next = self.put(square, piece.color, piece.piece_type);
        proof {
            assert(self.square_ok(square as int));
            assert forall|q: int| #[trigger] next.square_ok(q) by {
                lemma_board_fields(next, q);
                lemma_board_fields(*self, q);
                assert(self.square_ok(q));
            }
            assert forall|q: int| #[trigger] next.piece_at_spec(q) == (if q == square {
                Some(piece)
            } else {
                self.piece_at_spec(q)
            }) by {
                lemma_board_fields(next, q);
                lemma_board_fields(*self, q);
                assert(self.square_ok(q));
            }
            lemma_board_fields(next, 0);
            lemma_board_fields(next, 4);
            lemma_board_fields(next, 7);
            lemma_board_fields(next, 56);
            lemma_board_fields(next, 60);
            lemma_board_fields(next, 63);
            if let Some(e) = self.en_passant {
                lemma_board_fields(next, e as int);
                lemma_board_fields(next, e + 8);
                lemma_board_fields(next, e - 8);
            }
        }
        Ok(next)
    }
}

pub proof fn lemma_board_fields(b: Board, q: int)
    ensures
        b.pawns.has(q) == b.type_bb(PieceType::Pawn).has(q),
        b.knights.has(q) == b.type_bb(PieceType::Knight).has(q),
        b.bishops.has(q) == b.type_bb(PieceType::Bishop).has(q),
        b.rooks.has(q) == b.type_bb(PieceType::Rook).has(q),
        b.queens.has(q) == b.type_bb(PieceType::Queen).has(q),
        b.kings.has(q) == b.type_bb(PieceType::King).has(q),
        b.colors.white.has(q) == b.color_bb(Color::White).has(q),
        b.colors.black.has(q) == b.color_bb(Color::Black).has(q),
{
}

} // verus!
