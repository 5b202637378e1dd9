use vstd::prelude::*;
use crate::bitboard::{Bitboard, Direction, dir_mul, is_square, on_board, rank_spec, file_spec};
use crate::board::{Board, Color, PieceType};

verus! {

#[derive(Clone, Copy, PartialEq, Eq, Structural, Debug)]
pub enum CastleSide {
    KingSide,
    QueenSide,
}

/// One transition of a position.
#[derive(Clone, Copy, PartialEq, Eq, Structural, Debug)]
pub struct Move {
    pub from: u32,
    pub to: u32,
    pub moving_piece: PieceType,
    pub captured_piece: Option<PieceType>,
    pub promotion: Option<PieceType>,
    pub is_en_passant: bool,
    pub is_castle: Option<CastleSide>,
}

pub open spec fn abs(x: int) -> int {
    if x < 0 {
        -x
    } else {
        x
    }
}

pub open spec fn sign(x: int) -> int {
    if x > 0 {
        1
    } else if x < 0 {
        -1
    } else {
        0
    }
}

pub open spec fn d_rank(from: int, to: int) -> int {
    rank_spec(to) - rank_spec(from)
}

pub open spec fn d_file(from: int, to: int) -> int {
    file_spec(to) - file_spec(from)
}

/// The rank direction in which pawns of color `c` advance.
pub open spec fn forward(c: Color) -> int {
    if c == Color::White {
        1
    } else {
        -1
    }
}

pub open spec fn start_rank(c: Color) -> int {
    if c == Color::White {
        1
    } else {
        6
    }
}

pub open spec fn last_rank(c: Color) -> int {
    if c == Color::White {
        7
    } else {
        0
    }
}

pub open spec fn promotable(t: PieceType) -> bool {
    t == PieceType::Knight || t == PieceType::Bishop || t == PieceType::Rook || t == PieceType::Queen
}

/// A pawn of color `c` landing on `to` promotes exactly when `to` is on its last rank.
pub open spec fn promotion_ok(c: Color, to: int, promotion: Option<PieceType>) -> bool {
    if rank_spec(to) == last_rank(c) {
        promotion matches Some(t) && promotable(t)
    } else {
        promotion is None
    }
}

/// `to` is one step `(dr, df)` away from `from`, without leaving the board.
pub open spec fn leap_ok(from: int, to: int, dr: int, df: int) -> bool {
    on_board(rank_spec(from) + dr, file_spec(from) + df) && to == from + 8 * dr + df
}

pub open spec fn knight_delta(from: int, to: int) -> bool {
    let a = abs(d_rank(from, to));
    let b = abs(d_file(from, to));
    (a == 1 && b == 2) || (a == 2 && b == 1)
}

pub open spec fn king_delta(from: int, to: int) -> bool {
    let a = abs(d_rank(from, to));
    let b = abs(d_file(from, to));
    a <= 1 && b <= 1 && !(a == 0 && b == 0)
}

pub open spec fn ray_sq(from: int, dr: int, df: int, k: int) -> int {
    from + 8 * dir_mul(k, dr) + dir_mul(k, df)
}

pub open spec fn distance(from: int, to: int) -> int {
    let a = abs(d_rank(from, to));
    let b = abs(d_file(from, to));
    if a > b {
        a
    } else {
        b
    }
}

/// `to` lies on the ray from `from` in direction `(dr, df)` and every square
/// strictly between them is empty.
pub open spec fn slide(b: Board, from: int, to: int, dr: int, df: int) -> bool {
    let k = distance(from, to);
    &&& k >= 1
    &&& d_rank(from, to) == dir_mul(k, dr)
    &&& d_file(from, to) == dir_mul(k, df)
    &&& forall|j: int| 1 <= j < k ==> !b.is_occupied(#[trigger] ray_sq(from, dr, df, j))
}

pub open spec fn straight_dir(dr: int, df: int) -> bool {
    (dr == 0) != (df == 0)
}

pub open spec fn diagonal_dir(dr: int, df: int) -> bool {
    dr != 0 && df != 0
}

/// A slider move along a straight line (`straight`) or a diagonal (`diagonal`).
pub open spec fn slider_ok(b: Board, from: int, to: int, straight: bool, diagonal: bool) -> bool {
    let dr = sign(d_rank(from, to));
    let df = sign(d_file(from, to));
    ((straight && straight_dir(dr, df)) || (diagonal && diagonal_dir(dr, df))) && slide(
        b,
        from,
        to,
        dr,
        df,
    )
}

/// The destination is empty or holds an opposing piece, which is the one captured;
/// nothing else is special about the move.
pub open spec fn plain_target(b: Board, m: Move) -> bool {
    &&& b.color_on(m.to as int) != Some(b.side_to_move)
    &&& m.captured_piece == b.type_at(m.to as int)
    &&& m.promotion is None
    &&& !m.is_en_passant
    &&& m.is_castle is None
}

pub open spec fn pawn_ok(b: Board, m: Move) -> bool {
    let c = b.side_to_move;
    let from = m.from as int;
    let to = m.to as int;
    let dr = d_rank(from, to);
    let df = d_file(from, to);
    &&& m.is_castle is None
    &&& promotion_ok(c, to, m.promotion)
    &&& {
        // single push
        ||| df == 0 && dr == forward(c) && !b.is_occupied(to) && m.captured_piece is None
            && !m.is_en_passant
        // double push from the starting rank
        ||| df == 0 && dr == 2 * forward(c) && rank_spec(from) == start_rank(c) && !b.is_occupied(
            from + 8 * forward(c),
        ) && !b.is_occupied(to) && m.captured_piece is None && !m.is_en_passant
        // capture
        ||| abs(df) == 1 && dr == forward(c) && b.color_on(to) == Some(c.opponent())
            && m.captured_piece == b.type_at(to) && !m.is_en_passant
        // en passant
        ||| abs(df) == 1 && dr == forward(c) && b.en_passant == Some(m.to) && m.captured_piece
            == Some(PieceType::Pawn) && m.is_en_passant
    }
}

pub open spec fn castle_ok(b: Board, m: Move) -> bool {
    &&& m.captured_piece is None
    &&& m.promotion is None
    &&& !m.is_en_passant
    &&& match (b.side_to_move, m.is_castle) {
        (Color::White, Some(CastleSide::KingSide)) => b.castling.white_king_side && m.from == 4
            && m.to == 6 && !b.is_occupied(5) && !b.is_occupied(6),
        (Color::White, Some(CastleSide::QueenSide)) => b.castling.white_queen_side && m.from == 4
            && m.to == 2 && !b.is_occupied(1) && !b.is_occupied(2) && !b.is_occupied(3),
        (Color::Black, Some(CastleSide::KingSide)) => b.castling.black_king_side && m.from == 60
            && m.to == 62 && !b.is_occupied(61) && !b.is_occupied(62),
        (Color::Black, Some(CastleSide::QueenSide)) => b.castling.black_queen_side && m.from == 60
            && m.to == 58 && !b.is_occupied(57) && !b.is_occupied(58) && !b.is_occupied(59),
        _ => false,
    }
}

/// The moves of one piece type from square `from`, by its movement geometry.
pub open spec fn piece_move_ok(b: Board, m: Move) -> bool {
    let from = m.from as int;
    let to = m.to as int;
    match m.moving_piece {
        PieceType::Pawn => pawn_ok(b, m),
        PieceType::Knight => knight_delta(from, to) && plain_target(b, m),
        PieceType::Bishop => slider_ok(b, from, to, false, true) && plain_target(b, m),
        PieceType::Rook => slider_ok(b, from, to, true, false) && plain_target(b, m),
        PieceType::Queen => slider_ok(b, from, to, true, true) && plain_target(b, m),
        PieceType::King => (king_delta(from, to) && plain_target(b, m)) || castle_ok(b, m),
    }
}

/// A pseudo-legal move of the side to move: one of its pieces moves by that
/// piece's geometry onto an empty square or an opposing piece; whether the own
/// king is left attacked is not considered.
pub open spec fn is_pseudo_legal(b: Board, m: Move) -> bool {
    &&& is_square(m.from as int)
    &&& is_square(m.to as int)
    &&& b.has_piece(m.from as int, b.side_to_move, m.moving_piece)
    &&& piece_move_ok(b, m)
}

pub proof fn lemma_coords(r: int, f: int)
    requires
        on_board(r, f),
    ensures
        rank_spec(r * 8 + f) == r,
        file_spec(r * 8 + f) == f,
        is_square(r * 8 + f),
{
}

pub proof fn lemma_square(s: int)
    requires
        is_square(s),
    ensures
        s == rank_spec(s) * 8 + file_spec(s),
        on_board(rank_spec(s), file_spec(s)),
{
}

fn push_new(moves: &mut Vec<Move>, m: Move)
    requires
        old(moves)@.no_duplicates(),
        !old(moves)@.contains(m),
    ensures
        final(moves)@ == old(moves)@.push(m),
        final(moves)@.no_duplicates(),
        forall|x: Move| #[trigger] final(moves)@.contains(x) == (old(moves)@.contains(x) || x == m),
{
    moves.push(m);
    proof {
        assert forall|x: Move| #[trigger] moves@.contains(x) == (old(moves)@.contains(x) || x == m) by {
            if x == m {
                assert(moves@[moves@.len() - 1] == m);
            }
            if old(moves)@.contains(x) {
                let i = choose|i: int| 0 <= i < old(moves)@.len() && old(moves)@[i] == x;
                assert(moves@[i] == x);
            }
        }
    }
}

proof fn lemma_leap(from: int, to: int, dr: int, df: int)
    requires
        is_square(from),
    ensures
        leap_ok(from, to, dr, df) == (is_square(to) && d_rank(from, to) == dr && d_file(from, to) == df),
{
    lemma_square(from);
    if leap_ok(from, to, dr, df) {
        lemma_coords(rank_spec(from) + dr, file_spec(from) + df);
    }
    if is_square(to) {
        lemma_square(to);
    }
}

/// Adds the move of a knight or king from `s` to the square one step `(dr, df)`
/// away, where that square is on the board and holds no own piece.
fn leap(b: &Board, s: u32, t: PieceType, dr: i32, df: i32, moves: &mut Vec<Move>)
    requires
        s < 64,
        -2 <= dr <= 2,
        -2 <= df <= 2,
        old(moves)@.no_duplicates(),
        forall|m: Move| #[trigger]
            old(moves)@.contains(m) ==> !(m.from == s && m.to == s + 8 * dr + df),
    ensures
        final(moves)@.no_duplicates(),
        forall|m: Move| #[trigger]
            final(moves)@.contains(m) == (old(moves)@.contains(m) || (m.from == s && m.moving_piece
                == t && leap_ok(s as int, m.to as int, dr as int, df as int) && plain_target(*b, m))),
{
    let r = (s / 8) as i32 + dr;
    let f = (s % 8) as i32 + df;
    if 0 <= r && r < 8 && 0 <= f && f < 8 {
        let to = (r * 8 + f) as u32;
        proof {
            lemma_square(s as int);
        }
        if b.color_at(to) != Some(b.side_to_move) {
            let m = Move {
                from: s,
                to,
                moving_piece: t,
                captured_piece: b.piece_type_at(to),
                promotion: None,
                is_en_passant: false,
                is_castle: None,
            };
            push_new(moves, m);
        }
    }
}

/// Moves of a leaper (knight or king, by `t`) standing on `s`.
fn leaper_moves(b: &Board, s: u32, t: PieceType, moves: &mut Vec<Move>)
    requires
        s < 64,
        t == PieceType::Knight || t == PieceType::King,
        old(moves)@.no_duplicates(),
        forall|m: Move| #[trigger] old(moves)@.contains(m) ==> m.from != s,
    ensures
        final(moves)@.no_duplicates(),
        forall|m: Move| #[trigger]
            final(moves)@.contains(m) == (old(moves)@.contains(m) || (m.from == s && m.moving_piece
                == t && is_square(m.to as int) && (if t == PieceType::Knight {
                knight_delta(s as int, m.to as int)
            } else {
                king_delta(s as int, m.to as int)
            }) && plain_target(*b, m))),
{
    let ghost old_moves = moves@;
    if t == PieceType::Knight {
        leap(b, s, t, 1, 2, moves);
        leap(b, s, t, 2, 1, moves);
        leap(b, s, t, 2, -1, moves);
        leap(b, s, t, 1, -2, moves);
        leap(b, s, t, -1, -2, moves);
        leap(b, s, t, -2, -1, moves);
        leap(b, s, t, -2, 1, moves);
        leap(b, s, t, -1, 2, moves);
    } else {
        leap(b, s, t, 1, 0, moves);
        leap(b, s, t, 1, 1, moves);
        leap(b, s, t, 0, 1, moves);
        leap(b, s, t, -1, 1, moves);
        leap(b, s, t, -1, 0, moves);
        leap(b, s, t, -1, -1, moves);
        leap(b, s, t, 0, -1, moves);
        leap(b, s, t, 1, -1, moves);
    }
    proof {
        assert forall|m: Move| #[trigger]
            moves@.contains(m) == (old_moves.contains(m) || (m.from == s && m.moving_piece == t
                && is_square(m.to as int) && (if t == PieceType::Knight {
                knight_delta(s as int, m.to as int)
            } else {
                king_delta(s as int, m.to as int)
            }) && plain_target(*b, m))) by {
            let to = m.to as int;
            lemma_leap(s as int, to, 1, 2);
            lemma_leap(s as int, to, 2, 1);
            lemma_leap(s as int, to, 2, -1);
            lemma_leap(s as int, to, 1, -2);
            lemma_leap(s as int, to, -1, -2);
            lemma_leap(s as int, to, -2, -1);
            lemma_leap(s as int, to, -2, 1);
            lemma_leap(s as int, to, -1, 2);
            lemma_leap(s as int, to, 1, 0);
            lemma_leap(s as int, to, 1, 1);
            lemma_leap(s as int, to, 0, 1);
            lemma_leap(s as int, to, -1, 1);
            lemma_leap(s as int, to, -1, 0);
            lemma_leap(s as int, to, -1, -1);
            lemma_leap(s as int, to, 0, -1);
            lemma_leap(s as int, to, 1, -1);
        }
    }
}

pub open spec fn ray_move(b: Board, s: int, t: PieceType, m: Move, dr: int, df: int) -> bool {
    &&& m.from == s
    &&& m.moving_piece == t
    &&& is_square(m.to as int)
    &&& slide(b, s, m.to as int, dr, df)
    &&& plain_target(b, m)
}

/// Adds the moves of a slider of type `t` on `s` along the ray `(dr, df)`: each
/// empty square in turn, then the first occupied square if an opposing piece holds it.
fn ray(b: &Board, s: u32, t: PieceType, dr: i32, df: i32, moves: &mut Vec<Move>)
    requires
        b.wf(),
        s < 64,
        -1 <= dr <= 1,
        -1 <= df <= 1,
        !(dr == 0 && df == 0),
        old(moves)@.no_duplicates(),
        forall|m: Move| #[trigger]
            old(moves)@.contains(m) ==> !(m.from == s && sign(d_rank(s as int, m.to as int)) == dr
                && sign(d_file(s as int, m.to as int)) == df),
    ensures
        final(moves)@.no_duplicates(),
        forall|m: Move| #[trigger]
            final(moves)@.contains(m) == (old(moves)@.contains(m) || ray_move(
                *b,
                s as int,
                t,
                m,
                dr as int,
                df as int,
            )),
{
    let ghost old_moves = moves@;
    let ghost si = s as int;
    let ghost dri = dr as int;
    let ghost dfi = df as int;
    proof {
        lemma_square(si);
    }
    let mut k: i32 = 1;
    let mut r: i32 = (s / 8) as i32 + dr;
    let mut f: i32 = (s % 8) as i32 + df;
    let mut blocked = false;
    while !blocked && 0 <= r && r < 8 && 0 <= f && f < 8
        invariant
            b.wf(),
            si == s as int,
            dri == dr as int,
            dfi == df as int,
            1 <= k <= 9,
            r == rank_spec(si) + dir_mul(k as int, dri),
            f == file_spec(si) + dir_mul(k as int, dfi),
            s < 64,
            -1 <= dr <= 1,
            -1 <= df <= 1,
            !(dr == 0 && df == 0),
            moves@.no_duplicates(),
            forall|m: Move| #[trigger]
                old_moves.contains(m) ==> !(m.from == s && sign(d_rank(si, m.to as int)) == dri
                    && sign(d_file(si, m.to as int)) == dfi),
            !blocked ==> forall|j: int|
                1 <= j < k ==> !b.is_occupied(#[trigger] ray_sq(si, dri, dfi, j)),
            !blocked ==> forall|m: Move| #[trigger]
                moves@.contains(m) == (old_moves.contains(m) || (ray_move(*b, si, t, m, dri, dfi)
                    && distance(si, m.to as int) < k)),
            blocked ==> forall|m: Move| #[trigger]
                moves@.contains(m) == (old_moves.contains(m) || ray_move(*b, si, t, m, dri, dfi)),
        decreases 9 - k,
    {
        let to = (r * 8 + f) as u32;
        proof {
            lemma_coords(r as int, f as int);
            assert(to as int == r * 8 + f);
            assert(d_rank(si, to as int) == dir_mul(k as int, dri));
            assert(d_file(si, to as int) == dir_mul(k as int, dfi));
            assert(ray_sq(si, dri, dfi, k as int) == to);
            assert(distance(si, to as int) == k) by {
                if dri == 0 {
                    assert(dfi != 0);
                }
            }
            assert forall|m: Move| #[trigger]
                ray_move(*b, si, t, m, dri, dfi) && distance(si, m.to as int) == k implies m.to == to by {
                lemma_square(m.to as int);
            }
        }
        match b.color_at(to) {
            None => {
                proof {
                    assert(b.square_ok(to as int));
                }
                let m = Move {
                    from: s,
                    to,
                    moving_piece: t,
                    captured_piece: None,
                    promotion: None,
                    is_en_passant: false,
                    is_castle: None,
                };
                push_new(moves, m);
            },
            Some(c) => {
                if c != b.side_to_move {
                    let m = Move {
                        from: s,
                        to,
                        moving_piece: t,
                        captured_piece: b.piece_type_at(to),
                        promotion: None,
                        is_en_passant: false,
                        is_castle: None,
                    };
                    push_new(moves, m);
                }
                blocked = true;
            },
        }
        r = r + dr;
        f = f + df;
        k = k + 1;
    }
    proof {
        if !blocked {
            assert forall|m: Move| ray_move(*b, si, t, m, dri, dfi) implies distance(
                si,
                m.to as int,
            ) < k by {
                lemma_square(m.to as int);
            }
        }
    }
}

/// Moves of a bishop, rook or queen (by `t`) standing on `s`.
fn slider_moves(b: &Board, s: u32, t: PieceType, moves: &mut Vec<Move>)
    requires
        b.wf(),
        s < 64,
        t == PieceType::Bishop || t == PieceType::Rook || t == PieceType::Queen,
        old(moves)@.no_duplicates(),
        forall|m: Move| #[trigger] old(moves)@.contains(m) ==> m.from != s,
    ensures
        final(moves)@.no_duplicates(),
        forall|m: Move| #[trigger]
            final(moves)@.contains(m) == (old(moves)@.contains(m) || (m.from == s && m.moving_piece
                == t && is_square(m.to as int) && slider_ok(
                *b,
                s as int,
                m.to as int,
                t != PieceType::Bishop,
                t != PieceType::Rook,
            ) && plain_target(*b, m))),
{
    let ghost old_moves = moves@;
    if t != PieceType::Bishop {
        ray(b, s, t, 1, 0, moves);
        ray(b, s, t, -1, 0, moves);
        ray(b, s, t, 0, 1, moves);
        ray(b, s, t, 0, -1, moves);
    }
    if t != PieceType::Rook {
        ray(b, s, t, 1, 1, moves);
        ray(b, s, t, 1, -1, moves);
        ray(b, s, t, -1, 1, moves);
        ray(b, s, t, -1, -1, moves);
    }
}

/// Adds the pawn move from `s` to `to` with the given capture and en-passant
/// flag: four moves, one per promotion piece, where `to` is on the last rank.
fn pawn_targets(
    c: Color,
    s: u32,
    to: u32,
    captured: Option<PieceType>,
    ep: bool,
    moves: &mut Vec<Move>,
)
    requires
        to < 64,
        old(moves)@.no_duplicates(),
        forall|m: Move| #[trigger] old(moves)@.contains(m) ==> !(m.from == s && m.to == to),
    ensures
        final(moves)@.no_duplicates(),
        final(moves)@.len() > old(moves)@.len(),
        final(moves)@.subrange(0, old(moves)@.len() as int) == old(moves)@,
        forall|k: int| old(moves)@.len() <= k < final(moves)@.len() ==> (#[trigger] final(moves)@[k]).from == s
            && final(moves)@[k].to == to && final(moves)@[k].moving_piece == PieceType::Pawn,
        forall|a: int, b: int| old(moves)@.len() <= a < b < final(moves)@.len() ==> promo_index(
            (#[trigger] final(moves)@[a]).promotion) < promo_index((#[trigger] final(moves)@[b]).promotion),
        forall|m: Move| #[trigger]
            final(moves)@.contains(m) == (old(moves)@.contains(m) || (m.from == s && m.to == to
                && m.moving_piece == PieceType::Pawn && m.captured_piece == captured
                && m.is_en_passant == ep && m.is_castle is None && promotion_ok(
                c,
                to as int,
                m.promotion,
            ))),
{
    let last: u32 = match c {
        Color::White => 7,
        Color::Black => 0,
    };
    let base = Move {
        from: s,
        to,
        moving_piece: PieceType::Pawn,
        captured_piece: captured,
        promotion: None,
        is_en_passant: ep,
        is_castle: None,
    };
    if to / 8 == last {
        push_new(moves, Move { promotion: Some(PieceType::Knight), ..base });
        push_new(moves, Move { promotion: Some(PieceType::Bishop), ..base });
        push_new(moves, Move { promotion: Some(PieceType::Rook), ..base });
        push_new(moves, Move { promotion: Some(PieceType::Queen), ..base });
    } else {
        push_new(moves, base);
    }
}

/// Moves of the pawn of the side to move standing on `s`.
fn pawn_moves_from(b: &Board, s: u32, moves: &mut Vec<Move>)
    requires
        b.wf(),
        s < 64,
        old(moves)@.no_duplicates(),
        forall|m: Move| #[trigger] old(moves)@.contains(m) ==> m.from != s,
    ensures
        final(moves)@.no_duplicates(),
        forall|m: Move| #[trigger]
            final(moves)@.contains(m) == (old(moves)@.contains(m) || (m.from == s && m.moving_piece
                == PieceType::Pawn && is_square(m.to as int) && pawn_ok(*b, m))),
{
    let ghost old_moves = moves@;
    let ghost si = s as int;
    let c = b.side_to_move;
    let fwd: i32 = match c {
        Color::White => 1,
        Color::Black => -1,
    };
    let start: i32 = match c {
        Color::White => 1,
        Color::Black => 6,
    };
    let rank = (s / 8) as i32;
    let file = (s % 8) as i32;
    let r = rank + fwd;
    proof {
        lemma_square(si);
    }
    if 0 <= r && r < 8 {
        let t1 = (r * 8 + file) as u32;
        proof {
            lemma_coords(r as int, file as int);
        }
        if !b.colors.white.is_bit_set(t1) && !b.colors.black.is_bit_set(t1) {
            pawn_targets(b.side_to_move, s, t1, None, false, moves);
            if rank == start && 0 <= r + fwd && r + fwd < 8 {
                let t2 = ((r + fwd) * 8 + file) as u32;
                proof {
                    lemma_coords((r + fwd) as int, file as int);
                }
                if !b.colors.white.is_bit_set(t2) && !b.colors.black.is_bit_set(t2) {
                    pawn_targets(b.side_to_move, s, t2, None, false, moves);
                }
            }
        }
    }
    pawn_capture(b, s, -1, moves);
    pawn_capture(b, s, 1, moves);
    proof {
        assert forall|m: Move| #[trigger]
            moves@.contains(m) == (old_moves.contains(m) || (m.from == s && m.moving_piece
                == PieceType::Pawn && is_square(m.to as int) && pawn_ok(*b, m))) by {
            let to = m.to as int;
            lemma_leap(si, to, forward(c), 0);
            lemma_leap(si, to, 2 * forward(c), 0);
            lemma_leap(si, to, forward(c), -1);
            lemma_leap(si, to, forward(c), 1);
            assert(b.square_ok(to));
        }
    }
}

/// Adds the captures of the pawn on `s` towards file delta `df`: onto an
/// opposing piece, or onto the en-passant square.
fn pawn_capture(b: &Board, s: u32, df: i32, moves: &mut Vec<Move>)
    requires
        b.wf(),
        s < 64,
        df == 1 || df == -1,
        old(moves)@.no_duplicates(),
        forall|m: Move| #[trigger]
            old(moves)@.contains(m) ==> !(m.from == s && m.to == s + 8 * forward(b.side_to_move)
                + df),
    ensures
        final(moves)@.no_duplicates(),
        forall|m: Move| #[trigger]
            final(moves)@.contains(m) == (old(moves)@.contains(m) || (m.from == s && m.moving_piece
                == PieceType::Pawn && leap_ok(s as int, m.to as int, forward(b.side_to_move), df as int)
                && m.is_castle is None && promotion_ok(b.side_to_move, m.to as int, m.promotion) && ((
            b.color_on(m.to as int) == Some(b.side_to_move.opponent()) && m.captured_piece == b.type_at(
                m.to as int,
            ) && !m.is_en_passant) || (b.en_passant == Some(m.to) && m.captured_piece == Some(
                PieceType::Pawn,
            ) && m.is_en_passant)))),
{
    let c = b.side_to_move;
    let fwd: i32 = match c {
        Color::White => 1,
        Color::Black => -1,
    };
    let r = (s / 8) as i32 + fwd;
    let f = (s % 8) as i32 + df;
    proof {
        lemma_square(s as int);
    }
    if 0 <= r && r < 8 && 0 <= f && f < 8 {
        let to = (r * 8 + f) as u32;
        proof {
            lemma_coords(r as int, f as int);
        }
        if b.color_at(to) == Some(c.other()) {
            pawn_targets(b.side_to_move, s, to, b.piece_type_at(to), false, moves);
        } else if b.en_passant == Some(to) {
            pawn_targets(b.side_to_move, s, to, Some(PieceType::Pawn), true, moves);
        }
    }
}

fn quiet_castle(from: u32, to: u32, side: CastleSide) -> (r: Move)
    ensures
        r == (Move {
            from,
            to,
            moving_piece: PieceType::King,
            captured_piece: None,
            promotion: None,
            is_en_passant: false,
            is_castle: Some(side),
        }),
{
    Move {
        from,
        to,
        moving_piece: PieceType::King,
        captured_piece: None,
        promotion: None,
        is_en_passant: false,
        is_castle: Some(side),
    }
}

/// Moves of the king of the side to move standing on `s`, castling included.
fn king_moves(b: &Board, s: u32, moves: &mut Vec<Move>)
    requires
        b.wf(),
        s < 64,
        old(moves)@.no_duplicates(),
        forall|m: Move| #[trigger] old(moves)@.contains(m) ==> m.from != s,
    ensures
        final(moves)@.no_duplicates(),
        forall|m: Move| #[trigger]
            final(moves)@.contains(m) == (old(moves)@.contains(m) || (m.from == s && m.moving_piece
                == PieceType::King && is_square(m.to as int) && ((king_delta(s as int, m.to as int)
                && plain_target(*b, m)) || castle_ok(*b, m)))),
{
    let ghost old_moves = moves@;
    leaper_moves(b, s, PieceType::King, moves);
    let ghost mid = moves@;
    let occ = b.occupied();
    let c = b.castling;
    match b.side_to_move {
        Color::White => {
            if s == 4 {
                if c.white_king_side && !occ.is_bit_set(5) && !occ.is_bit_set(6) {
                    push_new(moves, quiet_castle(4, 6, CastleSide::KingSide));
                }
                if c.white_queen_side && !occ.is_bit_set(1) && !occ.is_bit_set(2) && !occ.is_bit_set(3) {
                    push_new(moves, quiet_castle(4, 2, CastleSide::QueenSide));
                }
            }
        },
        Color::Black => {
            if s == 60 {
                if c.black_king_side && !occ.is_bit_set(61) && !occ.is_bit_set(62) {
                    push_new(moves, quiet_castle(60, 62, CastleSide::KingSide));
                }
                if c.black_queen_side && !occ.is_bit_set(57) && !occ.is_bit_set(58)
                    && !occ.is_bit_set(59) {
                    push_new(moves, quiet_castle(60, 58, CastleSide::QueenSide));
                }
            }
        },
    }
}

/// Moves of the piece of type `t`, of the side to move, standing on `s`.
fn moves_from(b: &Board, s: u32, t: PieceType, moves: &mut Vec<Move>)
    requires
        b.wf(),
        s < 64,
        b.has_piece(s as int, b.side_to_move, t),
        old(moves)@.no_duplicates(),
        forall|m: Move| #[trigger] old(moves)@.contains(m) ==> m.from != s,
    ensures
        final(moves)@.no_duplicates(),
        forall|m: Move| #[trigger]
            final(moves)@.contains(m) == (old(moves)@.contains(m) || (m.from == s && is_pseudo_legal(
                *b,
                m,
            ))),
{
    match t {
        PieceType::Pawn => pawn_moves_from(b, s, moves),
        PieceType::Knight => leaper_moves(b, s, t, moves),
        PieceType::King => king_moves(b, s, moves),
        _ => slider_moves(b, s, t, moves),
    }
}

/// Moves of all pieces of type `t` of the side to move, square by square from
/// the lowest.
fn piece_type_moves(b: &Board, t: PieceType, moves: &mut Vec<Move>)
    requires
        b.wf(),
        old(moves)@.no_duplicates(),
        forall|m: Move| #[trigger] old(moves)@.contains(m) ==> is_pseudo_legal(*b, m) && m.moving_piece != t,
    ensures
        final(moves)@.no_duplicates(),
        forall|m: Move| #[trigger]
            final(moves)@.contains(m) == (old(moves)@.contains(m) || (is_pseudo_legal(*b, m)
                && m.moving_piece == t)),
{
    let ghost old_moves = moves@;
    let own = b.pieces_of(t).intersect(b.color_of(b.side_to_move));
    let mut rest = own;
    let ghost mut lo: int = 0;
    loop
        invariant
            b.wf(),
            0 <= lo <= 64,
            forall|q: int| #[trigger] own.has(q) == (b.type_bb(t).has(q) && b.color_bb(b.side_to_move).has(q)),
            forall|q: int| #[trigger] rest.has(q) ==> own.has(q) && lo <= q,
            forall|m: Move| #[trigger] old_moves.contains(m) ==> is_pseudo_legal(*b, m) && m.moving_piece != t,
            moves@.no_duplicates(),
            forall|m: Move| #[trigger]
                moves@.contains(m) == (old_moves.contains(m) || (is_pseudo_legal(*b, m)
                    && m.moving_piece == t && !rest.has(m.from as int))),
        ensures
            moves@.no_duplicates(),
            forall|m: Move| #[trigger]
                moves@.contains(m) == (old_moves.contains(m) || (is_pseudo_legal(*b, m)
                    && m.moving_piece == t)),
        decreases 64 - lo,
    {
        match rest.least_significant_square() {
            None => {
                break;
            },
            Some(sq) => {
                proof {
                    assert(own.has(sq as int));
                    assert(b.square_ok(sq as int));
                    assert forall|m: Move| #[trigger] moves@.contains(m) implies m.from != sq by {
                        if old_moves.contains(m) {
                            assert(b.square_ok(m.from as int));
                        }
                    }
                }
                moves_from(b, sq, t, moves);
                rest = rest.without_least_significant();
                proof {
                    lo = sq + 1;
                    assert forall|m: Move| #[trigger] moves@.contains(m) == (old_moves.contains(m) || (
                    is_pseudo_legal(*b, m) && m.moving_piece == t && !rest.has(m.from as int))) by {
                        if is_pseudo_legal(*b, m) && m.from == sq {
                            assert(b.square_ok(sq as int));
                        }
                    }
                }
            },
        }
    }
}

/// Every pseudo-legal move of the side to move, each once, in generation order:
/// pawns first, then knights, bishops, rooks, queens and king; for each type by
/// origin square from the lowest, then by destination, then by promotion piece.
pub fn generate_pseudo_legal_moves(board: &Board) -> (r: Vec<Move>)
    requires
        board.wf(),
    ensures
        r@.no_duplicates(),
        forall|m: Move| #[trigger] r@.contains(m) == is_pseudo_legal(*board, m),
        ordered(r@),
{
    let mut moves: Vec<Move> = Vec::new();
    piece_type_moves(board, PieceType::Pawn, &mut moves);
    piece_type_moves(board, PieceType::Knight, &mut moves);
    piece_type_moves(board, PieceType::Bishop, &mut moves);
    piece_type_moves(board, PieceType::Rook, &mut moves);
    piece_type_moves(board, PieceType::Queen, &mut moves);
    piece_type_moves(board, PieceType::King, &mut moves);
    proof {
        assert forall|i: int, j: int| 0 <= i < j < moves@.len() implies order_key(#[trigger] moves@[i])
            != order_key(#[trigger] moves@[j]) by {
            let a = moves@[i];
            let b = moves@[j];
            assert(moves@.contains(a) && moves@.contains(b));
            if order_key(a) == order_key(b) {
                lemma_order_key_injective(a, b);
                crate::notation::lemma_key_unique(*board, a, b);
            }
        }
    }
    sort_moves(&moves)
}

/// Two moves between squares of the board with the same place in generation
/// order have the same piece type, origin, destination and promotion piece.
pub proof fn lemma_order_key_injective(a: Move, b: Move)
    requires
        a.from < 64,
        a.to < 64,
        b.from < 64,
        b.to < 64,
        order_key(a) == order_key(b),
    ensures
        a.moving_piece == b.moving_piece,
        a.from == b.from,
        a.to == b.to,
        a.promotion == b.promotion,
{
    assert(0 <= promo_index(a.promotion) < 8);
    assert(0 <= promo_index(b.promotion) < 8);
}

/// A single-step pawn advance of color `c` from a square of `pawns` onto a square of `empty`.
pub open spec fn single_push(pawns: Bitboard, empty: Bitboard, c: Color, m: Move) -> bool {
    &&& pawns.has(m.from as int)
    &&& empty.has(m.to as int)
    &&& leap_ok(m.from as int, m.to as int, forward(c), 0)
    &&& m.moving_piece == PieceType::Pawn
    &&& m.captured_piece is None
    &&& !m.is_en_passant
    &&& m.is_castle is None
    &&& promotion_ok(c, m.to as int, m.promotion)
}

/// The single-step advances of pawns of color `c` from `pawns` onto `empty_squares`,
/// in order of destination; a pawn reaching its last rank gives one move per promotion piece.
pub fn single_pushes(pawns: Bitboard, empty_squares: Bitboard, c: Color) -> (r: Vec<Move>)
    ensures
        r@.no_duplicates(),
        forall|m: Move| #[trigger] r@.contains(m) == single_push(pawns, empty_squares, c, m),
        forall|i: int, j: int| 0 <= i < j < r@.len() ==> (#[trigger] r@[i]).to < (#[trigger] r@[j]).to || (
            r@[i].to == r@[j].to && promo_index(r@[i].promotion) < promo_index(r@[j].promotion)),
        ordered(r@),
{
    let mut moves: Vec<Move> = Vec::new();
    let dir = match c {
        Color::White => Direction::North,
        Color::Black => Direction::South,
    };
    let targets = pawns.shifted(dir).intersect(empty_squares);
    let mut rest = targets;
    let ghost mut lo: int = 0;
    loop
        invariant
            0 <= lo <= 64,
            dir.dr() == forward(c),
            dir.df() == 0,
            forall|q: int| #[trigger] targets.has(q) == (is_square(q) && on_board(rank_spec(q) - dir.dr(), file_spec(q))
                && pawns.has(q - 8 * dir.dr()) && empty_squares.has(q)),
            forall|q: int| #[trigger] rest.has(q) ==> targets.has(q) && lo <= q,
            moves@.no_duplicates(),
            forall|m: Move| #[trigger]
                moves@.contains(m) == (single_push(pawns, empty_squares, c, m) && !rest.has(m.to as int)),
            forall|k: int| 0 <= k < moves@.len() ==> (#[trigger] moves@[k]).to < lo && moves@[k].to as int
                == moves@[k].from as int + 8 * forward(c) && moves@[k].moving_piece == PieceType::Pawn,
            forall|i: int, j: int| 0 <= i < j < moves@.len() ==> (#[trigger] moves@[i]).to < (#[trigger] moves@[j]).to || (
                moves@[i].to == moves@[j].to && promo_index(moves@[i].promotion) < promo_index(moves@[j].promotion)),
        ensures
            moves@.no_duplicates(),
            forall|m: Move| #[trigger] moves@.contains(m) == single_push(pawns, empty_squares, c, m),
            forall|k: int| 0 <= k < moves@.len() ==> moves@[k].to as int == (#[trigger] moves@[k]).from as int
                + 8 * forward(c) && moves@[k].moving_piece == PieceType::Pawn,
            forall|i: int, j: int| 0 <= i < j < moves@.len() ==> (#[trigger] moves@[i]).to < (#[trigger] moves@[j]).to || (
                moves@[i].to == moves@[j].to && promo_index(moves@[i].promotion) < promo_index(moves@[j].promotion)),
        decreases 64 - lo,
    {
        match rest.least_significant_square() {
            None => {
                proof {
                    assert forall|m: Move| single_push(pawns, empty_squares, c, m) implies moves@.contains(m) by {
                        lemma_leap(m.from as int, m.to as int, forward(c), 0);
                        assert(targets.has(m.to as int));
                    }
                }
                break;
            },
            Some(t) => {
                proof {
                    lemma_square(t as int);
                }
                let from = match c {
                    Color::White => t - 8,
                    Color::Black => t + 8,
                };
                proof {
                    lemma_leap(from as int, t as int, forward(c), 0);
                    assert forall|m: Move| #[trigger] moves@.contains(m) implies !(m.from == from && m.to == t) by {}
                }
                let ghost before = moves@;
                let ghost old_lo = lo;
                proof {
                    assert(rest.has(t as int));
                    assert(old_lo <= t);
                    assert(t as int == from as int + 8 * forward(c));
                }
                pawn_targets(c, from, t, None, false, &mut moves);
                rest = rest.without_least_significant();
                proof {
                    lo = t + 1;
                    assert forall|k: int| 0 <= k < before.len() implies moves@[k] == before[k] by {
                        assert(moves@.subrange(0, before.len() as int)[k] == before[k]);
                    }
                    assert forall|k: int| 0 <= k < moves@.len() implies (#[trigger] moves@[k]).to < lo
                        && moves@[k].to as int == moves@[k].from as int + 8 * forward(c)
                        && moves@[k].moving_piece == PieceType::Pawn by {
                        if k < before.len() {
                            assert(moves@[k] == before[k]);
                        }
                    }
                    assert forall|i: int, j: int| 0 <= i < j < moves@.len() implies (#[trigger] moves@[i]).to
                        < (#[trigger] moves@[j]).to || (moves@[i].to == moves@[j].to && promo_index(
                        moves@[i].promotion) < promo_index(moves@[j].promotion)) by {
                        if j < before.len() {
                            assert(moves@[i] == before[i]);
                            assert(moves@[j] == before[j]);
                        } else if i < before.len() {
                            assert(moves@[i] == before[i]);
                        }
                    }
                    assert forall|m: Move| #[trigger] moves@.contains(m) == (single_push(pawns, empty_squares, c, m)
                        && !rest.has(m.to as int)) by {
                        if m.to == t && single_push(pawns, empty_squares, c, m) {
                            lemma_leap(m.from as int, m.to as int, forward(c), 0);
                        }
                    }
                }
            },
        }
    }
    proof {
        assert forall|i: int, j: int| 0 <= i < j < moves@.len() implies order_key(#[trigger] moves@[i])
            < order_key(#[trigger] moves@[j]) by {
            assert(0 <= promo_index(moves@[i].promotion) < 8);
            assert(0 <= promo_index(moves@[j].promotion) < 8);
        }
    }
    moves
}

/// The single-step pawn advances of the side to move.
pub fn pawn_moves(board: Board) -> (r: Vec<Move>)
    requires
        board.wf(),
    ensures
        r@.no_duplicates(),
        forall|m: Move| #[trigger]
            r@.contains(m) == (is_pseudo_legal(board, m) && m.moving_piece == PieceType::Pawn
                && d_file(m.from as int, m.to as int) == 0 && d_rank(m.from as int, m.to as int)
                == forward(board.side_to_move)),
        forall|i: int, j: int| 0 <= i < j < r@.len() ==> (#[trigger] r@[i]).to < (#[trigger] r@[j]).to || (
            r@[i].to == r@[j].to && promo_index(r@[i].promotion) < promo_index(r@[j].promotion)),
        ordered(r@),
{
    let pawns = board.pawns().intersect(board.color_of(board.side_to_move));
    let empty_squares = board.empty_squares();
    let r = single_pushes(pawns, empty_squares, board.side_to_move);
    proof {
        assert forall|m: Move| #[trigger]
            r@.contains(m) == (is_pseudo_legal(board, m) && m.moving_piece == PieceType::Pawn
                && d_file(m.from as int, m.to as int) == 0 && d_rank(m.from as int, m.to as int)
                == forward(board.side_to_move)) by {
            if is_square(m.from as int) {
                lemma_leap(m.from as int, m.to as int, forward(board.side_to_move), 0);
                assert(board.square_ok(m.from as int));
            }
            if is_square(m.to as int) {
                assert(board.square_ok(m.to as int));
            }
        }
    }
    r
}

/// No pseudo-legal move lands on a square held by the side to move.
pub proof fn lemma_no_self_capture(b: Board, m: Move)
    requires
        b.wf(),
        is_pseudo_legal(b, m),
    ensures
        b.color_on(m.to as int) != Some(b.side_to_move),
{
    if let Some(e) = b.en_passant {
        assert(b.square_ok(e as int));
    }
}

pub open spec fn type_index(t: PieceType) -> int {
    match t {
        PieceType::Pawn => 0,
        PieceType::Knight => 1,
        PieceType::Bishop => 2,
        PieceType::Rook => 3,
        PieceType::Queen => 4,
        PieceType::King => 5,
    }
}

/// Promotion pieces in the order knight, bishop, rook, queen; no promotion first.
pub open spec fn promo_index(p: Option<PieceType>) -> int {
    match p {
        None => 0,
        Some(t) => 1 + type_index(t),
    }
}

/// The position of a move in generation order: by piece type (pawn first, king
/// last), then origin, then destination, then promotion piece. For moves
/// between squares of the board this is the lexicographic order on those four.
pub open spec fn order_key(m: Move) -> int {
    type_index(m.moving_piece) * 65536 + m.from * 512 + m.to * 8 + promo_index(m.promotion)
}

pub open spec fn ordered(s: Seq<Move>) -> bool {
    forall|i: int, j: int| 0 <= i < j < s.len() ==> order_key(#[trigger] s[i]) < order_key(#[trigger] s[j])
}

fn key_of_move(m: &Move) -> (r: u64)
    ensures
        r == order_key(*m),
{
    let t: u64 = match m.moving_piece {
        PieceType::Pawn => 0,
        PieceType::Knight => 1,
        PieceType::Bishop => 2,
        PieceType::Rook => 3,
        PieceType::Queen => 4,
        PieceType::King => 5,
    };
    let p: u64 = match m.promotion {
        None => 0,
        Some(PieceType::Pawn) => 1,
        Some(PieceType::Knight) => 2,
        Some(PieceType::Bishop) => 3,
        Some(PieceType::Rook) => 4,
        Some(PieceType::Queen) => 5,
        Some(PieceType::King) => 6,
    };
    t * 65536 + m.from as u64 * 512 + m.to as u64 * 8 + p
}

/// The moves of `v` in generation order.
fn sort_moves(v: &Vec<Move>) -> (r: Vec<Move>)
    requires
        forall|i: int, j: int| 0 <= i < j < v@.len() ==> order_key(#[trigger] v@[i]) != order_key(#[trigger] v@[j]),
    ensures
        ordered(r@),
        r@.no_duplicates(),
        forall|m: Move| #[trigger] r@.contains(m) == v@.contains(m),
{
    let mut out: Vec<Move> = Vec::new();
    let mut i: usize = 0;
    while i < v.len()
        invariant
            0 <= i <= v@.len(),
            forall|i: int, j: int| 0 <= i < j < v@.len() ==> order_key(#[trigger] v@[i]) != order_key(#[trigger] v@[j]),
            ordered(out@),
            forall|k: int| 0 <= k < out@.len() ==> exists|l: int| 0 <= l < i && #[trigger] out@[k] == v@[l],
            forall|l: int| 0 <= l < i ==> out@.contains(#[trigger] v@[l]),
        decreases v@.len() - i,
    {
        let x = v[i];
        let kx = key_of_move(&x);
        let mut j: usize = 0;
        while j < out.len() && key_of_move(&out[j]) < kx
            invariant
                0 <= j <= out@.len(),
                kx == order_key(x),
                forall|l: int| 0 <= l < j ==> order_key(#[trigger] out@[l]) < kx,
            decreases out@.len() - j,
        {
            j = j + 1;
        }
        proof {
            if j < out@.len() {
                let l = choose|l: int| 0 <= l < i && #[trigger] out@[j as int] == v@[l];
                assert(order_key(v@[l]) != order_key(v@[i as int]));
                assert forall|k: int| j <= k < out@.len() implies order_key(#[trigger] out@[k]) > kx by {
                    if k > j {
                        assert(order_key(out@[j as int]) < order_key(out@[k]));
                    }
                }
            }
        }
        let ghost old_out = out@;
        out.insert(j, x);
        proof {
            old_out.insert_ensures(j as int, x);
            assert forall|a: int, b: int| 0 <= a < b < out@.len() implies order_key(#[trigger] out@[a]) < order_key(#[trigger] out@[b]) by {
                if a < j && b > j {
                    assert(out@[b] == old_out[b - 1]);
                } else if a > j {
                    assert(out@[a] == old_out[a - 1]);
                    assert(out@[b] == old_out[b - 1]);
                } else if b == j {
                } else if a == j {
                    assert(out@[b] == old_out[b - 1]);
                }
            }
            assert forall|k: int| 0 <= k < out@.len() implies exists|l: int| 0 <= l < i + 1 && #[trigger] out@[k] == v@[l] by {
                if k < j {
                    let l = choose|l: int| 0 <= l < i && #[trigger] old_out[k] == v@[l];
                    assert(out@[k] == v@[l]);
                } else if k == j {
                    assert(out@[k] == v@[i as int]);
                } else {
                    let l = choose|l: int| 0 <= l < i && #[trigger] old_out[k - 1] == v@[l];
                    assert(out@[k] == v@[l]);
                }
            }
            assert forall|l: int| 0 <= l < i + 1 implies out@.contains(#[trigger] v@[l]) by {
                if l == i {
                    assert(out@[j as int] == v@[l]);
                } else {
                    assert(old_out.contains(v@[l]));
                    let k = choose|k: int| 0 <= k < old_out.len() && old_out[k] == v@[l];
                    if k < j {
                        assert(out@[k] == v@[l]);
                    } else {
                        assert(out@[k + 1] == v@[l]);
                    }
                }
            }
        }
        i = i + 1;
    }
    proof {
        assert forall|m: Move| #[trigger] out@.contains(m) == v@.contains(m) by {
            if out@.contains(m) {
                let k = choose|k: int| 0 <= k < out@.len() && out@[k] == m;
                let l = choose|l: int| 0 <= l < v@.len() && #[trigger] out@[k] == v@[l];
                assert(v@[l] == m);
            }
            if v@.contains(m) {
                let l = choose|l: int| 0 <= l < v@.len() && v@[l] == m;
                assert(out@.contains(v@[l]));
            }
        }
    }
    out
}

} // verus!
