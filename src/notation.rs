use vstd::prelude::*;
use vstd::string::*;
use crate::bitboard::{Bitboard, is_square, rank_spec, file_spec};
use crate::board::{Board, ChessError, Color, Piece, PieceType};
use crate::apply::{apply, applied};
use crate::moves::{Move, order_key, lemma_order_key_injective, is_pseudo_legal, generate_pseudo_legal_moves, lemma_square, promotable};

verus! {

pub open spec fn file_char(f: int) -> char {
    seq!['a', 'b', 'c', 'd', 'e', 'f', 'g', 'h'][f]
}

pub open spec fn rank_char(r: int) -> char {
    seq!['1', '2', '3', '4', '5', '6', '7', '8'][r]
}

/// The file index of a file letter.
pub open spec fn file_index(c: char) -> Option<int> {
    if c == 'a' { Some(0) } else if c == 'b' { Some(1) } else if c == 'c' { Some(2) }
    else if c == 'd' { Some(3) } else if c == 'e' { Some(4) } else if c == 'f' { Some(5) }
    else if c == 'g' { Some(6) } else if c == 'h' { Some(7) } else { None }
}

/// The rank index of a rank digit.
pub open spec fn rank_index(c: char) -> Option<int> {
    if c == '1' { Some(0) } else if c == '2' { Some(1) } else if c == '3' { Some(2) }
    else if c == '4' { Some(3) } else if c == '5' { Some(4) } else if c == '6' { Some(5) }
    else if c == '7' { Some(6) } else if c == '8' { Some(7) } else { None }
}

/// The piece named by a promotion letter.
pub open spec fn promotion_index(c: char) -> Option<PieceType> {
    if c == 'n' {
        Some(PieceType::Knight)
    } else if c == 'b' {
        Some(PieceType::Bishop)
    } else if c == 'r' {
        Some(PieceType::Rook)
    } else if c == 'q' {
        Some(PieceType::Queen)
    } else {
        None
    }
}

pub open spec fn square_text(s: int) -> Seq<char> {
    seq![file_char(file_spec(s)), rank_char(rank_spec(s))]
}

/// Coordinate notation of a move: origin, destination, and the promotion letter if any.
pub open spec fn algebraic(m: Move) -> Seq<char> {
    square_text(m.from as int) + square_text(m.to as int) + match m.promotion {
        Some(p) => seq![p.char_spec()],
        None => Seq::<char>::empty(),
    }
}

/// The square named by the two letters at `i` and `i + 1`.
pub open spec fn square_at(s: Seq<char>, i: int) -> Option<int> {
    match (file_index(s[i]), rank_index(s[i + 1])) {
        (Some(f), Some(r)) => Some(r * 8 + f),
        _ => None,
    }
}

/// What a move's text names: origin, destination and promotion piece.
pub struct MoveKey {
    pub from: int,
    pub to: int,
    pub promotion: Option<PieceType>,
}

pub open spec fn key_of(m: Move) -> MoveKey {
    MoveKey { from: m.from as int, to: m.to as int, promotion: m.promotion }
}

/// Reads four characters naming two squares, and optionally a fifth naming a promotion piece.
pub open spec fn parse_key(s: Seq<char>) -> Option<MoveKey> {
    if s.len() != 4 && s.len() != 5 {
        None
    } else {
        match (square_at(s, 0), square_at(s, 2)) {
            (Some(from), Some(to)) => if s.len() == 4 {
                Some(MoveKey { from, to, promotion: None })
            } else {
                match promotion_index(s[4]) {
                    Some(p) => Some(MoveKey { from, to, promotion: Some(p) }),
                    None => None,
                }
            },
            _ => None,
        }
    }
}

/// The move that text `s` names in position `b`: the pseudo-legal move with
/// that origin, destination and promotion piece.
pub open spec fn algebraic_result(b: Board, s: Seq<char>) -> Result<Move, ChessError> {
    match parse_key(s) {
        None => Err(ChessError::MalformedAlgebraic),
        Some(k) => if exists|m: Move| is_pseudo_legal(b, m) && key_of(m) == k {
            Ok(choose|m: Move| is_pseudo_legal(b, m) && key_of(m) == k)
        } else {
            Err(ChessError::AmbiguousOrIllegalMove)
        },
    }
}

/// In a consistent position a pseudo-legal move is determined by its origin,
/// destination and promotion piece.
pub proof fn lemma_key_unique(b: Board, m1: Move, m2: Move)
    requires
        b.wf(),
        is_pseudo_legal(b, m1),
        is_pseudo_legal(b, m2),
        key_of(m1) == key_of(m2),
    ensures
        m1 == m2,
{
    assert(b.square_ok(m1.from as int));
    assert(b.square_ok(m1.to as int));
    lemma_square(m1.from as int);
    lemma_square(m1.to as int);
    if let Some(e) = b.en_passant {
        assert(b.square_ok(e as int));
    }
}

proof fn lemma_square_text(s: int)
    requires
        is_square(s),
    ensures
        square_at(square_text(s), 0) == Some(s),
{
    lemma_square(s);
    let f = file_spec(s);
    let r = rank_spec(s);
    assert(file_index(file_char(f)) == Some(f)) by {
        assert(0 <= f < 8);
    }
    assert(rank_index(rank_char(r)) == Some(r)) by {
        assert(0 <= r < 8);
    }
}

/// Reading back the text of a pseudo-legal move gives that move.
pub proof fn lemma_round_trip(b: Board, m: Move)
    requires
        b.wf(),
        is_pseudo_legal(b, m),
    ensures
        parse_key(algebraic(m)) == Some(key_of(m)),
        algebraic_result(b, algebraic(m)) == Ok::<Move, ChessError>(m),
{
    let t = algebraic(m);
    lemma_square_text(m.from as int);
    lemma_square_text(m.to as int);
    assert(t.subrange(0, 2) == square_text(m.from as int));
    assert(square_at(t, 0) == Some(m.from as int)) by {
        assert(t[0] == square_text(m.from as int)[0]);
        assert(t[1] == square_text(m.from as int)[1]);
    }
    assert(square_at(t, 2) == Some(m.to as int)) by {
        assert(t[2] == square_text(m.to as int)[0]);
        assert(t[3] == square_text(m.to as int)[1]);
    }
    if let Some(p) = m.promotion {
        assert(promotable(p));
        assert(t[4] == p.char_spec());
    }
    assert(parse_key(t) == Some(key_of(m)));
    let k = key_of(m);
    assert(exists|x: Move| is_pseudo_legal(b, x) && key_of(x) == k);
    let c = choose|x: Move| is_pseudo_legal(b, x) && key_of(x) == k;
    lemma_key_unique(b, c, m);
}

/// Relies on `String`'s `FromIterator<char>`: the string holds the characters in order.
#[verifier::external_body]
fn string_from_chars(cs: Vec<char>) -> (r: String)
    ensures
        r@ == cs@,
{
    String::from_iter(cs)
}

/// Letter of a file.
pub fn file_to_char(file: u32) -> (r: char)
    requires
        file < 8,
    ensures
        r == file_char(file as int),
{
    match file {
        0 => 'a',
        1 => 'b',
        2 => 'c',
        3 => 'd',
        4 => 'e',
        5 => 'f',
        6 => 'g',
        _ => 'h',
    }
}

/// Digit of a rank.
fn rank_to_char(rank: u32) -> (r: char)
    requires
        rank < 8,
    ensures
        r == rank_char(rank as int),
{
    match rank {
        0 => '1',
        1 => '2',
        2 => '3',
        3 => '4',
        4 => '5',
        5 => '6',
        6 => '7',
        _ => '8',
    }
}

pub fn rank_of(square: u32) -> (r: u32)
    ensures
        r == rank_spec(square as int),
{
    square / 8
}

pub fn file_of(square: u32) -> (r: u32)
    ensures
        r == file_spec(square as int),
{
    square % 8
}

/// The lowest square of a bitboard (64 for the empty one).
pub fn bitboard_to_square(bitboard: Bitboard) -> (r: u32)
    ensures
        r == bitboard.lowest(),
        bitboard.0 != 0 ==> r < 64 && bitboard.has(r as int),
{
    proof {
        crate::bitboard::lemma_lowest(bitboard);
    }
    bitboard.0.trailing_zeros()
}

/// Rank of the lowest square of a bitboard.
pub fn rank_of_bitboard(bitboard: Bitboard) -> (r: u32)
    ensures
        r == rank_spec(bitboard.lowest()),
{
    let zeros = bitboard_to_square(bitboard);
    zeros / 8
}

/// File of the lowest square of a bitboard.
pub fn file_of_bitboard(bitboard: Bitboard) -> (r: u32)
    ensures
        r == file_spec(bitboard.lowest()),
{
    bitboard_to_square(bitboard) % 8
}

/// Coordinate notation of a move, such as `e2e4` or `e7e8q`.
pub fn move_string(m: Move) -> (r: String)
    requires
        m.from < 64,
        m.to < 64,
    ensures
        r@ == algebraic(m),
{
    let mut cs: Vec<char> = Vec::new();
    cs.push(file_to_char(file_of(m.from)));
    cs.push(rank_to_char(rank_of(m.from)));
    cs.push(file_to_char(file_of(m.to)));
    cs.push(rank_to_char(rank_of(m.to)));
    match m.promotion {
        Some(p) => cs.push(p.char()),
        None => {},
    }
    proof {
        assert(cs@ =~= algebraic(m));
    }
    string_from_chars(cs)
}

fn parse_file(c: char) -> (r: Option<u32>)
    ensures
        match r {
            Some(x) => file_index(c) == Some(x as int) && x < 8,
            None => file_index(c) is None,
        },
{
    match c {
        'a' => Some(0),
        'b' => Some(1),
        'c' => Some(2),
        'd' => Some(3),
        'e' => Some(4),
        'f' => Some(5),
        'g' => Some(6),
        'h' => Some(7),
        _ => None,
    }
}

fn parse_rank(c: char) -> (r: Option<u32>)
    ensures
        match r {
            Some(x) => rank_index(c) == Some(x as int) && x < 8,
            None => rank_index(c) is None,
        },
{
    match c {
        '1' => Some(0),
        '2' => Some(1),
        '3' => Some(2),
        '4' => Some(3),
        '5' => Some(4),
        '6' => Some(5),
        '7' => Some(6),
        '8' => Some(7),
        _ => None,
    }
}

fn parse_promotion(c: char) -> (r: Option<PieceType>)
    ensures
        r == promotion_index(c),
{
    match c {
        'n' => Some(PieceType::Knight),
        'b' => Some(PieceType::Bishop),
        'r' => Some(PieceType::Rook),
        'q' => Some(PieceType::Queen),
        _ => None,
    }
}

/// The square named at position `i` of `text`.
fn parse_square(text: &str, i: usize) -> (r: Option<u32>)
    requires
        i <= 2,
        i + 1 < text@.len(),
    ensures
        match r {
            Some(x) => square_at(text@, i as int) == Some(x as int) && x < 64,
            None => square_at(text@, i as int) is None,
        },
{
    match (parse_file(text.get_char(i)), parse_rank(text.get_char(i + 1))) {
        (Some(f), Some(r)) => Some(r * 8 + f),
        _ => None,
    }
}

/// Reads a move in coordinate notation and resolves it against the
/// pseudo-legal moves of `board`.
pub fn from_algebraic(text: &str, board: &Board) -> (r: Result<Move, ChessError>)
    requires
        board.wf(),
    ensures
        r == algebraic_result(*board, text@),
{
    let n = text.unicode_len();
    if n != 4 && n != 5 {
        return Err(ChessError::MalformedAlgebraic);
    }
    let from = match parse_square(text, 0) {
        Some(x) => x,
        None => {
            return Err(ChessError::MalformedAlgebraic);
        },
    };
    let to = match parse_square(text, 2) {
        Some(x) => x,
        None => {
            return Err(ChessError::MalformedAlgebraic);
        },
    };
    let promotion = if n == 5 {
        match parse_promotion(text.get_char(4)) {
            Some(p) => Some(p),
            None => {
                return Err(ChessError::MalformedAlgebraic);
            },
        }
    } else {
        None
    };
    let ghost k = MoveKey { from: from as int, to: to as int, promotion };
    assert(parse_key(text@) == Some(k));
    let moves = generate_pseudo_legal_moves(board);
    let mut i: usize = 0;
    while i < moves.len()
        invariant
            0 <= i <= moves@.len(),
            board.wf(),
            k == (MoveKey { from: from as int, to: to as int, promotion }),
            parse_key(text@) == Some(k),
            forall|m: Move| #[trigger] moves@.contains(m) == is_pseudo_legal(*board, m),
            forall|j: int| 0 <= j < i ==> key_of(#[trigger] moves@[j]) != k,
        decreases moves.len() - i,
    {
        let m = moves[i];
        if m.from == from && m.to == to && m.promotion == promotion {
            proof {
                assert(moves@.contains(m));
                assert(key_of(m) == k);
                let c = choose|x: Move| is_pseudo_legal(*board, x) && key_of(x) == k;
                lemma_key_unique(*board, c, m);
            }
            return Ok(m);
        }
        i = i + 1;
    }
    proof {
        assert forall|x: Move| is_pseudo_legal(*board, x) implies key_of(x) != k by {
            assert(moves@.contains(x));
            let j = choose|j: int| 0 <= j < moves@.len() && moves@[j] == x;
            assert(key_of(moves@[j]) != k);
        }
    }
    Err(ChessError::AmbiguousOrIllegalMove)
}

/// The pseudo-legal move of `b` that comes first in generation order.
pub open spec fn is_first_move(b: Board, m: Move) -> bool {
    is_pseudo_legal(b, m) && forall|x: Move| is_pseudo_legal(b, x) ==> order_key(m) <= order_key(x)
}

/// Coordinate notation of the first pseudo-legal move, in generation order, of
/// the side to move.
pub fn best_move(board: Board) -> (r: String)
    requires
        board.wf(),
        exists|m: Move| is_pseudo_legal(board, m),
    ensures
        exists|m: Move| is_first_move(board, m) && r@ == algebraic(m),
{
    let moves = generate_pseudo_legal_moves(&board);
    proof {
        let m = choose|m: Move| is_pseudo_legal(board, m);
        assert(moves@.contains(m));
    }
    let first = moves[0];
    proof {
        assert(moves@.contains(first));
        assert forall|x: Move| is_pseudo_legal(board, x) implies order_key(first) <= order_key(x) by {
            assert(moves@.contains(x));
            let k = choose|k: int| 0 <= k < moves@.len() && moves@[k] == x;
            if k > 0 {
                assert(order_key(moves@[0]) < order_key(moves@[k]));
            }
        }
        assert(is_first_move(board, first));
    }
    move_string(first)
}

/// In a consistent position at most one move comes first in generation order.
pub proof fn lemma_first_move_unique(b: Board, m1: Move, m2: Move)
    requires
        b.wf(),
        is_first_move(b, m1),
        is_first_move(b, m2),
    ensures
        m1 == m2,
{
    lemma_order_key_injective(m1, m2);
    lemma_key_unique(b, m1, m2);
}

/// Plays the move written in coordinate notation on `board`.
pub fn apply_move(board: Board, last_move: &str) -> (r: Result<Board, ChessError>)
    requires
        board.wf(),
    ensures
        match algebraic_result(board, last_move@) {
            Ok(m) => r matches Ok(next) && applied(board, m, next),
            Err(e) => r == Err::<Board, ChessError>(e),
        },
{
    match from_algebraic(last_move, &board) {
        Ok(m) => Ok(apply(&board, &m)),
        Err(e) => Err(e),
    }
}

/// Character `i` of a grid of eight lines of 64 cells, eight cells per line and
/// rank "1" first, each cell followed by a space.
pub open spec fn layout_char(cells: Seq<char>, i: int) -> char {
    let col = i % 17;
    if col == 16 {
        '\n'
    } else if col % 2 == 1 {
        ' '
    } else {
        cells[(i / 17) * 8 + col / 2]
    }
}

pub open spec fn layout_spec(cells: Seq<char>) -> Seq<char> {
    Seq::new(136, |i: int| layout_char(cells, i))
}

proof fn lemma_grid_index(row: int, c: int)
    requires
        0 <= row,
        0 <= c < 17,
    ensures
        (row * 17 + c) / 17 == row,
        (row * 17 + c) % 17 == c,
{
    assert((row * 17 + c) / 17 == row && (row * 17 + c) % 17 == c) by (nonlinear_arith)
        requires
            0 <= row,
            0 <= c < 17,
    ;
}

/// Lays 64 cell characters out as a grid of eight lines.
fn layout(cells: &Vec<char>) -> (r: Vec<char>)
    requires
        cells@.len() == 64,
    ensures
        r@ == layout_spec(cells@),
{
    let mut out: Vec<char> = Vec::new();
    let mut row: usize = 0;
    while row < 8
        invariant
            cells@.len() == 64,
            row <= 8,
            out@.len() == row * 17,
            forall|i: int| 0 <= i < out@.len() ==> #[trigger] out@[i] == layout_char(cells@, i),
        decreases 8 - row,
    {
        let mut col: usize = 0;
        while col < 8
            invariant
                cells@.len() == 64,
                row < 8,
                col <= 8,
                out@.len() == row * 17 + col * 2,
                forall|i: int| 0 <= i < out@.len() ==> #[trigger] out@[i] == layout_char(cells@, i),
            decreases 8 - col,
        {
            proof {
                lemma_grid_index(row as int, col * 2);
                lemma_grid_index(row as int, col * 2 + 1);
            }
            out.push(cells[row * 8 + col]);
            out.push(' ');
            col = col + 1;
        }
        proof {
            lemma_grid_index(row as int, 16);
        }
        out.push('\n');
        row = row + 1;
    }
    proof {
        assert(out@ =~= layout_spec(cells@));
    }
    out
}

pub open spec fn piece_char_spec(p: Piece) -> char {
    if p.color == Color::White {
        p.piece_type.char_spec()
    } else {
        p.piece_type.char_upper_spec()
    }
}

/// The letter shown for square `q`: the piece's letter, or `.` for an empty square.
pub open spec fn cell_char(b: Board, q: int) -> char {
    match b.piece_at_spec(q) {
        Some(p) => piece_char_spec(p),
        None => '.',
    }
}

/// The board as eight lines of text, rank "1" first.
pub fn board_text(board: &Board) -> (r: String)
    ensures
        r@ == layout_spec(Seq::new(64, |q: int| cell_char(*board, q))),
{
    let mut cells: Vec<char> = Vec::new();
    let mut q: u32 = 0;
    while q < 64
        invariant
            q <= 64,
            cells@.len() == q,
            forall|i: int| 0 <= i < q ==> #[trigger] cells@[i] == cell_char(*board, i),
        decreases 64 - q,
    {
        let c = match board.piece_at(q) {
            Some(p) => p.char(),
            None => '.',
        };
        cells.push(c);
        q = q + 1;
    }
    proof {
        assert(cells@ =~= Seq::new(64, |q: int| cell_char(*board, q)));
    }
    string_from_chars(layout(&cells))
}

/// The members of a bitboard as eight lines of text, rank "1" first: `1` for a
/// member, `.` otherwise.
pub fn bitboard_text(bitboard: Bitboard) -> (r: String)
    ensures
        r@ == layout_spec(Seq::new(64, |q: int| if bitboard.has(q) { '1' } else { '.' })),
{
    let mut cells: Vec<char> = Vec::new();
    let mut q: u32 = 0;
    while q < 64
        invariant
            q <= 64,
            cells@.len() == q,
            forall|i: int| 0 <= i < q ==> #[trigger] cells@[i] == (if bitboard.has(i) { '1' } else { '.' }),
        decreases 64 - q,
    {
        cells.push(if bitboard.is_bit_set(q) { '1' } else { '.' });
        q = q + 1;
    }
    proof {
        assert(cells@ =~= Seq::new(64, |q: int| if bitboard.has(q) { '1' } else { '.' }));
    }
    string_from_chars(layout(&cells))
}

} // verus!
