use vstd::prelude::*;
use crate::bitboard::is_square;
use crate::board::{lemma_board_fields, lemma_has_piece, Board, CastlingRights, Color, Piece, PieceType};
use crate::moves::{CastleSide, Move, forward, is_pseudo_legal, d_rank, abs, lemma_square};

verus! {

/// Adds one, staying at the largest value once there.
pub open spec fn saturating_inc(x: u32) -> u32 {
    if x < u32::MAX {
        (x + 1) as u32
    } else {
        x
    }
}

/// The piece type that stands on the destination after `m`.
pub open spec fn placed_type(m: Move) -> PieceType {
    match m.promotion {
        Some(p) => p,
        None => m.moving_piece,
    }
}

/// The square of the pawn taken en passant: just behind the destination.
pub open spec fn en_passant_victim(b: Board, m: Move) -> int {
    m.to - 8 * forward(b.side_to_move)
}

/// Origin and destination of the rook in a castling move.
pub open spec fn rook_from(m: Move) -> int {
    if m.is_castle == Some(CastleSide::KingSide) {
        m.from + 3
    } else {
        m.from - 4
    }
}

pub open spec fn rook_to(m: Move) -> int {
    if m.is_castle == Some(CastleSide::KingSide) {
        m.from + 1
    } else {
        m.from - 1
    }
}

/// What stands on square `q` once `m` is played on `b`.
pub open spec fn after_move(b: Board, m: Move, q: int) -> Option<Piece> {
    let c = b.side_to_move;
    if q == m.to {
        Some(Piece { color: c, piece_type: placed_type(m) })
    } else if m.is_castle is Some && q == rook_to(m) {
        Some(Piece { color: c, piece_type: PieceType::Rook })
    } else if q == m.from || (m.is_en_passant && q == en_passant_victim(b, m)) || (m.is_castle is Some
        && q == rook_from(m)) {
        None
    } else {
        b.piece_at_spec(q)
    }
}

/// A move from or onto a king's or rook's home square ends the castling rights
/// that depend on it.
pub open spec fn rights_after(cr: CastlingRights, m: Move) -> CastlingRights {
    let untouched = |q: u32| m.from != q && m.to != q;
    CastlingRights {
        white_king_side: cr.white_king_side && untouched(4) && untouched(7),
        white_queen_side: cr.white_queen_side && untouched(4) && untouched(0),
        black_king_side: cr.black_king_side && untouched(60) && untouched(63),
        black_queen_side: cr.black_queen_side && untouched(60) && untouched(56),
    }
}

/// The square passed over by a pawn double push, else none.
pub open spec fn en_passant_after(b: Board, m: Move) -> Option<u32> {
    if m.moving_piece == PieceType::Pawn && abs(d_rank(m.from as int, m.to as int)) == 2 {
        Some((m.from + 8 * forward(b.side_to_move)) as u32)
    } else {
        None
    }
}

/// `r` is the position after pseudo-legal move `m` of `b`: see `apply`.
pub open spec fn applied(b: Board, m: Move, r: Board) -> bool {
    &&& r.wf()
    &&& forall|q: int| is_square(q) ==> #[trigger] r.piece_at_spec(q) == after_move(b, m, q)
    &&& r.side_to_move == b.side_to_move.opponent()
    &&& r.castling == rights_after(b.castling, m)
    &&& r.en_passant == en_passant_after(b, m)
    &&& r.halfmove_clock == (if m.moving_piece == PieceType::Pawn || m.captured_piece is Some {
        0
    } else {
        saturating_inc(b.halfmove_clock)
    })
    &&& r.fullmove_number == (if b.side_to_move == Color::Black {
        saturating_inc(b.fullmove_number)
    } else {
        b.fullmove_number
    })
}

/// The bitboards after `m`: the pieces moved, the rest of the state as it was.
fn relocate(board: &Board, m: &Move) -> (r: Board)
    requires
        board.wf(),
        is_pseudo_legal(*board, *m),
    ensures
        r.bitboards_ok(),
        forall|q: int| is_square(q) ==> #[trigger] r.piece_at_spec(q) == after_move(*board, *m, q),
        r.side_to_move == board.side_to_move,
        r.castling == board.castling,
        r.en_passant == board.en_passant,
        r.halfmove_clock == board.halfmove_clock,
        r.fullmove_number == board.fullmove_number,
{
    let c = board.side_to_move;
    let b1 = board.remove(m.from);
    let b2 = b1.remove(m.to);
    let b3 = if m.is_en_passant {
        let victim = match c {
            Color::White => m.to - 8,
            Color::Black => m.to + 8,
        };
        proof {
            assert(victim == en_passant_victim(*board, *m));
        }
        b2.remove(victim)
    } else {
        b2
    };
    proof {
        assert forall|t: PieceType, q: int| #[trigger] b3.type_bb(t).has(q) == (b2.type_bb(t).has(q)
            && !(m.is_en_passant && q == en_passant_victim(*board, *m))) by {}
        assert forall|d: Color, q: int| #[trigger] b3.color_bb(d).has(q) == (b2.color_bb(d).has(q)
            && !(m.is_en_passant && q == en_passant_victim(*board, *m))) by {}
    }
    let b4 = if m.is_castle.is_some() {
        let (rf, rt) = match m.is_castle {
            Some(CastleSide::KingSide) => (m.from + 3, m.from + 1),
            _ => (m.from - 4, m.from - 1),
        };
        proof {
            assert(rf == rook_from(*m) && rt == rook_to(*m));
        }
        let tmp = b3.remove(rf);
        let b4 = tmp.put(rt, c, PieceType::Rook);
        proof {
            assert forall|t: PieceType, q: int| #[trigger] b4.type_bb(t).has(q) == (b3.type_bb(t).has(q)
                && q != rf || (q == rt && t == PieceType::Rook)) by {
                assert(tmp.type_bb(t).has(q) == (b3.type_bb(t).has(q) && q != rf));
            }
            assert forall|d: Color, q: int| #[trigger] b4.color_bb(d).has(q) == (b3.color_bb(d).has(q)
                && q != rf || (q == rt && d == c)) by {
                assert(tmp.color_bb(d).has(q) == (b3.color_bb(d).has(q) && q != rf));
            }
        }
        b4
    } else {
        b3
    };
    let placed = match m.promotion {
        Some(p) => p,
        None => m.moving_piece,
    };
    let b5 = b4.put(m.to, c, placed);
    proof {
        if m.is_castle is Some {
            assert(rook_to(*m) != m.to);
            assert(!board.is_occupied(rook_to(*m)));
            assert(board.square_ok(rook_to(*m)));
        }
        assert forall|q: int| #[trigger] b5.square_ok(q) by {
            lemma_board_fields(b5, q);
            lemma_board_fields(b4, q);
            lemma_board_fields(b3, q);
            lemma_board_fields(b2, q);
            lemma_board_fields(b1, q);
            lemma_board_fields(*board, q);
            assert(board.square_ok(q));
        }
        assert forall|q: int| is_square(q) implies #[trigger] b5.piece_at_spec(q) == after_move(
            *board,
            *m,
            q,
        ) by {
            lemma_board_fields(b5, q);
            lemma_board_fields(b4, q);
            lemma_board_fields(b3, q);
            lemma_board_fields(b2, q);
            lemma_board_fields(b1, q);
            lemma_board_fields(*board, q);
            assert(board.square_ok(q));
        }
    }
    b5
}

/// The position after `m`, which must be a pseudo-legal move of `board`. The
/// mover leaves its origin and stands on the destination (as the promotion
/// piece where there is one), whatever stood there is captured, a pawn taken en
/// passant leaves the square behind the destination, and a castling rook jumps
/// beside the king. The other side is then to move.
pub fn apply(board: &Board, m: &Move) -> (r: Board)
    requires
        board.wf(),
        is_pseudo_legal(*board, *m),
    ensures
        applied(*board, *m, r),
{
    let c = board.side_to_move;
    let moved = relocate(board, m);
    let mut nb = moved;
    let cr = board.castling;
    let untouched = |q: u32| -> (u: bool)
        ensures
            u == (m.from != q && m.to != q),
        { m.from != q && m.to != q };
    let w4 = untouched(4);
    let b60 = untouched(60);
    nb.castling = CastlingRights {
        white_king_side: cr.white_king_side && w4 && untouched(7),
        white_queen_side: cr.white_queen_side && w4 && untouched(0),
        black_king_side: cr.black_king_side && b60 && untouched(63),
        black_queen_side: cr.black_queen_side && b60 && untouched(56),
    };
    let double = m.moving_piece == PieceType::Pawn && (m.to == m.from + 16 || m.from == m.to + 16);
    nb.en_passant = if double {
        match c {
            Color::White => Some(m.from + 8),
            Color::Black => Some(m.from - 8),
        }
    } else {
        None
    };
    nb.halfmove_clock = if m.moving_piece == PieceType::Pawn || m.captured_piece.is_some() {
        0
    } else if board.halfmove_clock < u32::MAX {
        board.halfmove_clock + 1
    } else {
        board.halfmove_clock
    };
    if c == Color::Black && board.fullmove_number < u32::MAX {
        nb.fullmove_number = board.fullmove_number + 1;
    }
    nb.side_to_move = c.other();
    proof {
        lemma_square(m.from as int);
        lemma_square(m.to as int);
        assert forall|q: int| #[trigger] nb.square_ok(q) by {
            assert(moved.square_ok(q));
        }
        assert forall|q: int| is_square(q) implies #[trigger] nb.piece_at_spec(q) == after_move(
            *board,
            *m,
            q,
        ) by {
            assert(moved.piece_at_spec(q) == after_move(*board, *m, q));
        }
        lemma_after_move_wf(*board, *m, nb);
    }
    nb
}

proof fn lemma_after_move_wf(b: Board, m: Move, r: Board)
    requires
        b.wf(),
        is_pseudo_legal(b, m),
        r.bitboards_ok(),
        forall|q: int| is_square(q) ==> #[trigger] r.piece_at_spec(q) == after_move(b, m, q),
        r.side_to_move == b.side_to_move.opponent(),
        r.castling == rights_after(b.castling, m),
        r.en_passant == en_passant_after(b, m),
    ensures
        r.wf(),
{
    let c = b.side_to_move;
    lemma_square(m.from as int);
    lemma_square(m.to as int);
    if en_passant_after(b, m) is Some {
        let e = m.from + 8 * forward(b.side_to_move);
        assert(m.to == m.from + 16 * forward(b.side_to_move));
        assert(r.piece_at_spec(m.to as int) == after_move(b, m, m.to as int));
        assert(r.piece_at_spec(e) == after_move(b, m, e));
        lemma_has_piece(b, e, c, PieceType::Pawn);
        lemma_has_piece(r, e, c, PieceType::Pawn);
        lemma_has_piece(r, m.to as int, c, PieceType::Pawn);
    }
    let homes = seq![0int, 4, 7, 56, 60, 63];
    assert forall|i: int| 0 <= i < 6 implies #[trigger] r.piece_at_spec(homes[i]) == b.piece_at_spec(homes[i])
        || m.from == homes[i] || m.to == homes[i] || (m.is_castle is Some && (m.from == 4 || m.from == 60)) by {
        assert(r.piece_at_spec(homes[i]) == after_move(b, m, homes[i]));
    }
    assert(homes[0] == 0 && homes[1] == 4 && homes[2] == 7 && homes[3] == 56 && homes[4] == 60 && homes[5] == 63);
    lemma_has_piece(b, 4, Color::White, PieceType::King);
    lemma_has_piece(r, 4, Color::White, PieceType::King);
    lemma_has_piece(b, 7, Color::White, PieceType::Rook);
    lemma_has_piece(r, 7, Color::White, PieceType::Rook);
    lemma_has_piece(b, 0, Color::White, PieceType::Rook);
    lemma_has_piece(r, 0, Color::White, PieceType::Rook);
    lemma_has_piece(b, 60, Color::Black, PieceType::King);
    lemma_has_piece(r, 60, Color::Black, PieceType::King);
    lemma_has_piece(b, 63, Color::Black, PieceType::Rook);
    lemma_has_piece(r, 63, Color::Black, PieceType::Rook);
    lemma_has_piece(b, 56, Color::Black, PieceType::Rook);
    lemma_has_piece(r, 56, Color::Black, PieceType::Rook);
}

} // verus!
