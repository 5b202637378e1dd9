use quick_chess::apply::apply;
use quick_chess::bitboard::{Bitboard, Direction};
use quick_chess::board::{Board, CastlingRights, ChessError, Color, Piece, PieceType};
use quick_chess::moves::{generate_pseudo_legal_moves, pawn_moves, single_pushes, CastleSide, Move};
use quick_chess::notation::{
    apply_move, best_move, bitboard_text, bitboard_to_square, board_text, file_of, file_of_bitboard, file_to_char,
    from_algebraic, move_string, rank_of, rank_of_bitboard,
};

fn texts(moves: &[Move]) -> Vec<String> {
    moves.iter().map(|m| move_string(*m)).collect()
}

fn board_with(side: Color, pieces: &[(u32, Color, PieceType)]) -> Board {
    let mut b = Board::empty(side);
    for &(sq, color, piece_type) in pieces {
        b = b.place(sq, Piece { color, piece_type }).unwrap();
    }
    b
}

#[test]
fn test_move_string() {
    let m = Move {
        from: bitboard_to_square(Bitboard::new(1 << 8)),
        to: bitboard_to_square(Bitboard::new(1 << 16)),
        moving_piece: PieceType::Pawn,
        captured_piece: None,
        promotion: None,
        is_en_passant: false,
        is_castle: None,
    };
    assert_eq!("a2a3", move_string(m))
}

#[test]
fn test_pawn_move() {
    let current_board = Board::new();
    let moves = pawn_moves(current_board);
    assert_eq!(moves.len(), 8);
    let first_move = moves[0];
    assert_eq!("a2a3", move_string(first_move));
}

#[test]
fn initial_position_has_twenty_moves() {
    let moves = generate_pseudo_legal_moves(&Board::new());
    assert_eq!(moves.len(), 20);
    let pawn = moves.iter().filter(|m| m.moving_piece == PieceType::Pawn).count();
    let knight = moves.iter().filter(|m| m.moving_piece == PieceType::Knight).count();
    assert_eq!(pawn, 16);
    assert_eq!(knight, 4);
    let t = texts(&moves);
    for s in ["a2a3", "a2a4", "h2h3", "h2h4", "b1a3", "b1c3", "g1f3", "g1h3"] {
        assert!(t.contains(&s.to_string()), "{}", s);
    }
}

#[test]
fn rook_on_h1_does_not_wrap_to_a_file() {
    let b = board_with(Color::White, &[(7, Color::White, PieceType::Rook)]);
    let moves = generate_pseudo_legal_moves(&b);
    assert_eq!(moves.len(), 14);
    for m in &moves {
        assert!(m.to != 8, "wrapped onto a2");
        assert!(m.to % 8 == 7 || m.to / 8 == 0);
    }
}

#[test]
fn knight_on_a1_has_two_moves() {
    let b = board_with(Color::White, &[(0, Color::White, PieceType::Knight)]);
    let moves = generate_pseudo_legal_moves(&b);
    let mut t = texts(&moves);
    t.sort();
    assert_eq!(t, vec!["a1b3".to_string(), "a1c2".to_string()]);
}

#[test]
fn first_pawn_moves_update_the_position() {
    let board = Board::new();
    let moves = generate_pseudo_legal_moves(&board);
    for (text, ep) in [("a2a3", None), ("a2a4", Some(16u32))] {
        let m = *moves.iter().find(|m| move_string(**m) == text).unwrap();
        let next = apply(&board, &m);
        assert!(next.piece_at(8).is_none());
        assert_eq!(next.piece_at(m.to), Some(Piece { color: Color::White, piece_type: PieceType::Pawn }));
        assert_eq!(next.side_to_move, Color::Black);
        assert_eq!(next.en_passant, ep);
        assert_eq!(next.halfmove_clock, 0);
        assert_eq!(next.fullmove_number, 1);
        assert_eq!(next.validate(), Ok(()));
    }
}

#[test]
fn pawn_capture_on_d5() {
    // White pawn e4 (28), Black pawn d5 (35).
    let b = board_with(
        Color::White,
        &[(28, Color::White, PieceType::Pawn), (35, Color::Black, PieceType::Pawn)],
    );
    let moves = generate_pseudo_legal_moves(&b);
    let m = *moves.iter().find(|m| m.from == 28 && m.to == 35).unwrap();
    assert_eq!(m.captured_piece, Some(PieceType::Pawn));
    assert_eq!(move_string(m), "e4d5");
    let next = apply(&b, &m);
    assert!(!next.black().is_bit_set(35));
    assert!(next.white().is_bit_set(35));
    assert!(next.pawns().is_bit_set(35));
    assert!(!next.pawns().is_bit_set(28));
    assert!(!next.white().is_bit_set(28));
    assert_eq!(next.black().0, 0);
}

#[test]
fn piece_at_is_repeatable() {
    let b = Board::new();
    for sq in 0..64 {
        assert_eq!(b.piece_at(sq), b.piece_at(sq));
    }
    assert_eq!(b.piece_at(4), Some(Piece { color: Color::White, piece_type: PieceType::King }));
    assert_eq!(b.piece_at(59), Some(Piece { color: Color::Black, piece_type: PieceType::Queen }));
    assert_eq!(b.piece_at(30), None);
    assert_eq!(b.piece_type_at(57), Some(PieceType::Knight));
    assert_eq!(b.color_at(57), Some(Color::Black));
}

#[test]
fn generated_moves_read_back() {
    let mut board = Board::new();
    for text in ["e2e4", "d7d5", "e4d5", "g8f6", "f1b5", "c7c6"] {
        for m in generate_pseudo_legal_moves(&board) {
            assert_eq!(from_algebraic(&move_string(m), &board), Ok(m));
            assert!(board.color_at(m.to) != Some(board.side_to_move));
        }
        board = apply_move(board, text).unwrap();
        assert_eq!(board.validate(), Ok(()));
    }
}

#[test]
fn parse_errors() {
    let b = Board::new();
    assert_eq!(from_algebraic("e2", &b), Err(ChessError::MalformedAlgebraic));
    assert_eq!(from_algebraic("e2e9", &b), Err(ChessError::MalformedAlgebraic));
    assert_eq!(from_algebraic("e2e4x", &b), Err(ChessError::MalformedAlgebraic));
    assert_eq!(from_algebraic("e2e5", &b), Err(ChessError::AmbiguousOrIllegalMove));
    assert_eq!(from_algebraic("e7e5", &b), Err(ChessError::AmbiguousOrIllegalMove));
    assert_eq!(apply_move(b, "i2i4"), Err(ChessError::MalformedAlgebraic));
}

#[test]
fn inconsistent_boards_are_rejected() {
    let mut b = Board::new();
    b.knights = Bitboard::new(b.knights.0 | 1 << 8);
    assert_eq!(b.validate(), Err(ChessError::InvariantViolation));
    let mut orphan = Board::empty(Color::White);
    orphan.pawns = Bitboard::new(1 << 12);
    assert_eq!(orphan.validate(), Err(ChessError::InvariantViolation));
    let start = Board::new();
    assert_eq!(
        start.place(0, Piece { color: Color::Black, piece_type: PieceType::Queen }),
        Err(ChessError::InvariantViolation)
    );
}

#[test]
fn promotion_gives_four_moves() {
    let b = board_with(Color::White, &[(48, Color::White, PieceType::Pawn)]);
    let mut t = texts(&generate_pseudo_legal_moves(&b));
    t.sort();
    assert_eq!(t, vec!["a7a8b", "a7a8n", "a7a8q", "a7a8r"]);
    let m = from_algebraic("a7a8q", &b).unwrap();
    let next = apply(&b, &m);
    assert_eq!(next.piece_at(56), Some(Piece { color: Color::White, piece_type: PieceType::Queen }));
    assert_eq!(next.pawns().0, 0);
}

#[test]
fn en_passant_capture_removes_the_passed_pawn() {
    let b = board_with(
        Color::Black,
        &[(36, Color::White, PieceType::Pawn), (51, Color::Black, PieceType::Pawn)],
    );
    let b = apply_move(b, "d7d5").unwrap();
    assert_eq!(b.en_passant, Some(43));
    let m = from_algebraic("e5d6", &b).unwrap();
    assert!(m.is_en_passant);
    let next = apply(&b, &m);
    assert_eq!(next.piece_at(35), None);
    assert_eq!(next.piece_at(43), Some(Piece { color: Color::White, piece_type: PieceType::Pawn }));
    assert_eq!(next.en_passant, None);
}

#[test]
fn castling_moves_king_and_rook() {
    let base = board_with(
        Color::White,
        &[(4, Color::White, PieceType::King), (7, Color::White, PieceType::Rook), (0, Color::White, PieceType::Rook)],
    );
    let b = Board {
        castling: CastlingRights {
            white_king_side: true,
            white_queen_side: true,
            black_king_side: false,
            black_queen_side: false,
        },
        ..base
    };
    assert_eq!(b.validate(), Ok(()));
    let m = from_algebraic("e1g1", &b).unwrap();
    assert_eq!(m.is_castle, Some(CastleSide::KingSide));
    let next = apply(&b, &m);
    assert_eq!(next.piece_at(6), Some(Piece { color: Color::White, piece_type: PieceType::King }));
    assert_eq!(next.piece_at(5), Some(Piece { color: Color::White, piece_type: PieceType::Rook }));
    assert_eq!(next.piece_at(7), None);
    assert!(!next.castling.white_king_side && !next.castling.white_queen_side);
    let q = from_algebraic("e1c1", &b).unwrap();
    assert_eq!(q.is_castle, Some(CastleSide::QueenSide));
    let after_rook = apply_move(b, "h1h2").unwrap();
    assert!(!after_rook.castling.white_king_side && after_rook.castling.white_queen_side);
}

#[test]
fn clocks_advance() {
    let b = Board::new();
    let b = apply_move(b, "g1f3").unwrap();
    assert_eq!(b.halfmove_clock, 1);
    assert_eq!(b.fullmove_number, 1);
    let b = apply_move(b, "g8f6").unwrap();
    assert_eq!(b.halfmove_clock, 2);
    assert_eq!(b.fullmove_number, 2);
}

#[test]
fn best_move_is_first_candidate() {
    let b = Board::new();
    assert_eq!(best_move(b), "a2a3");
}

#[test]
fn bitboard_operations() {
    let a = Bitboard::new(0b1010);
    let b = Bitboard::new(0b0110);
    assert_eq!(a.union(b).0, 0b1110);
    assert_eq!(a.intersect(b).0, 0b0010);
    assert_eq!(a.symmetric_difference(b).0, 0b1100);
    assert_eq!(a.complement().0, !0b1010u64);
    assert_eq!(Bitboard::empty().0, 0);
    assert_eq!(Bitboard::single(63).0, 1 << 63);
    assert_eq!(a.set(0).0, 0b1011);
    assert_eq!(a.clear(3).0, 0b0010);
    assert!(a.is_bit_set(1) && !a.is_bit_set(2));
    assert_eq!(Bitboard::new(u64::MAX).count_set(), 64);
    assert_eq!(a.count_set(), 2);
    assert_eq!(a.least_significant_square(), Some(1));
    assert_eq!(Bitboard::empty().least_significant_square(), None);
    assert_eq!(a.without_least_significant().0, 0b1000);
    assert_eq!(Bitboard::new(129).0, 129);
}

#[test]
fn shifts_are_masked_at_the_edges() {
    let h_file = Bitboard::new(0x8080_8080_8080_8080);
    assert_eq!(h_file.shifted(Direction::East).0, 0);
    assert_eq!(h_file.shifted(Direction::NorthEast).0, 0);
    let a_file = Bitboard::new(0x0101_0101_0101_0101);
    assert_eq!(a_file.shifted(Direction::West).0, 0);
    assert_eq!(a_file.shifted(Direction::SouthWest).0, 0);
    let e4 = Bitboard::single(28);
    assert_eq!(e4.shifted(Direction::North).0, 1 << 36);
    assert_eq!(e4.shifted(Direction::South).0, 1 << 20);
    assert_eq!(e4.shifted(Direction::East).0, 1 << 29);
    assert_eq!(e4.shifted(Direction::NorthWest).0, 1 << 35);
    assert_eq!(e4.shifted(Direction::SouthEast).0, 1 << 21);
    assert_eq!(Bitboard::single(60).shifted(Direction::North).0, 0);
}

#[test]
fn square_helpers() {
    assert_eq!(file_to_char(0), 'a');
    assert_eq!(file_to_char(7), 'h');
    assert_eq!(rank_of(28), 3);
    assert_eq!(file_of(28), 4);
    assert_eq!(bitboard_to_square(Bitboard::new(1 << 28)), 28);
    assert_eq!(rank_of_bitboard(Bitboard::new(1 << 28 | 1 << 40)), 3);
    assert_eq!(file_of_bitboard(Bitboard::new(1 << 28)), 4);
    assert_eq!(quick_chess::board::coords_to_bit(3, 4), 28);
    assert_eq!(PieceType::Queen.char(), 'q');
    assert_eq!(PieceType::Queen.char_upper(), 'Q');
    assert_eq!(Piece { color: Color::White, piece_type: PieceType::King }.char(), 'k');
    assert_eq!(Piece { color: Color::Black, piece_type: PieceType::King }.char(), 'K');
    assert_eq!(Color::from_white(true), Color::White);
}

#[test]
fn single_pushes_of_black() {
    let b = Board::new();
    let pawns = b.pawns().intersect(b.black());
    let moves = single_pushes(pawns, b.empty_squares(), Color::Black);
    assert_eq!(texts(&moves), vec!["a7a6", "b7b6", "c7c6", "d7d6", "e7e6", "f7f6", "g7g6", "h7h6"]);
}

#[test]
fn test_print_board() {
    let current_board = Board::new();

    let white_and_black = current_board.white().symmetric_difference(current_board.black());

    let all_pieces = current_board
        .pawns()
        .symmetric_difference(current_board.knights())
        .symmetric_difference(current_board.bishops())
        .symmetric_difference(current_board.rooks())
        .symmetric_difference(current_board.queens())
        .symmetric_difference(current_board.kings());

    assert_eq!(format!("{:0b}", white_and_black.0), format!("{:0b}", all_pieces.0));

    let zero_pieces = current_board
        .pawns()
        .intersect(current_board.knights())
        .intersect(current_board.bishops())
        .intersect(current_board.rooks())
        .intersect(current_board.queens())
        .intersect(current_board.kings());

    assert_eq!(format!("{:0b}", zero_pieces.0), format!("{:0b}", 0));
    assert_eq!(
        format!("{:0b}", current_board.white().intersect(current_board.black()).0),
        format!("{:0b}", 0)
    );
}

#[test]
fn test_print_bitboard() {
    let current_bb =
        Bitboard::new(0b0000000000000000000000000000000000000000000000000000000010000001);

    assert_eq!(format!("{:0b}", current_bb.0), format!("{:0b}", 129))
}

#[test]
fn generation_order_is_fixed() {
    let mut board = Board::new();
    for text in ["e2e4", "d7d5", "g1f3", "b8c6"] {
        let moves = generate_pseudo_legal_moves(&board);
        let key = |m: &Move| {
            let t = match m.moving_piece {
                PieceType::Pawn => 0,
                PieceType::Knight => 1,
                PieceType::Bishop => 2,
                PieceType::Rook => 3,
                PieceType::Queen => 4,
                PieceType::King => 5,
            };
            let p = match m.promotion {
                None => 0,
                Some(PieceType::Knight) => 2,
                Some(PieceType::Bishop) => 3,
                Some(PieceType::Rook) => 4,
                Some(PieceType::Queen) => 5,
                Some(_) => 6,
            };
            (t, m.from, m.to, p)
        };
        for w in moves.windows(2) {
            assert!(key(&w[0]) < key(&w[1]));
        }
        assert_eq!(moves, generate_pseudo_legal_moves(&board));
        board = apply_move(board, text).unwrap();
    }
    let start = generate_pseudo_legal_moves(&Board::new());
    assert_eq!(move_string(start[0]), "a2a3");
    assert_eq!(move_string(start[1]), "a2a4");
    assert_eq!(move_string(start[19]), "g1h3");
}

#[test]
fn promotions_come_in_piece_order() {
    let b = board_with(Color::White, &[(48, Color::White, PieceType::Pawn)]);
    let t = texts(&pawn_moves(b));
    assert_eq!(t, vec!["a7a8n", "a7a8b", "a7a8r", "a7a8q"]);
}

#[test]
fn multi_step_shifts() {
    let e4 = Bitboard::single(28);
    assert_eq!(e4.shifted_by(Direction::North, 2).0, 1 << 44);
    assert_eq!(e4.shifted_by(Direction::East, 3).0, 1 << 31);
    assert_eq!(e4.shifted_by(Direction::East, 4).0, 0);
    assert_eq!(e4.shifted_by(Direction::SouthWest, 3).0, 1 << 1);
    assert_eq!(e4.shifted_by(Direction::SouthWest, 4).0, 0);
    assert_eq!(e4.shifted_by(Direction::West, 0).0, 1 << 28);
}

#[test]
fn grid_text() {
    let text = board_text(&Board::new());
    let lines: Vec<&str> = text.lines().collect();
    assert_eq!(lines.len(), 8);
    assert_eq!(lines[0], "r n b q k b n r ");
    assert_eq!(lines[1], "p p p p p p p p ");
    assert_eq!(lines[4], ". . . . . . . . ");
    assert_eq!(lines[7], "R N B Q K B N R ");
    let bb = bitboard_text(Bitboard::new(129));
    assert_eq!(bb.lines().next().unwrap(), "1 . . . . . . 1 ");
    assert_eq!(bb.len(), 136);
}
